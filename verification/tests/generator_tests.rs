use trace_gen::Command;
use trace_gen::MAX_SIZE;
use trace_gen::MIN_SIZE;
use trace_gen::ShadowStore;
use trace_gen::random_sequence;
use trace_gen::run_iteration;

fn in_alphabet(c: char) -> bool {
    c.is_ascii_digit() || c == '*' || c == '#'
}

#[test]
fn random_sequence_is_bounded_and_alphabetic() {
    let mut rng = rand::thread_rng();
    for _ in 0..200 {
        let s = random_sequence(&mut rng);
        assert!(s.len() >= MIN_SIZE);
        assert!(s.len() <= MAX_SIZE);
        assert!(s.chars().all(in_alphabet));
    }
}

#[test]
fn driver_loop_commands_are_well_formed() {
    let mut rng = rand::thread_rng();
    let mut store = ShadowStore::new();
    for _ in 0..2000 {
        match run_iteration(&mut rng, &mut store) {
            Command::Add { key, value } => {
                assert!(key.chars().all(in_alphabet));
                assert!(value.chars().all(in_alphabet));
                if key != value {
                    assert_eq!(store.lookup(&key).map(|v| v.clone()), Some(value));
                }
            },
            Command::Get { query, answer } => {
                assert!(query.chars().all(in_alphabet));
                assert!(!answer.is_empty());
            },
            Command::Remove { target } => {
                // The target prefixes itself, so it can no longer be a key.
                assert!(store.lookup(&target).is_none());
            },
            Command::Reverse { query, candidates } => {
                assert!(candidates.contains(&query));
                for pair in candidates.windows(2) {
                    let a = trace_gen::StringWrapper::new(pair[0].clone());
                    let b = trace_gen::StringWrapper::new(pair[1].clone());
                    assert_eq!(a.partial_cmp(&b).unwrap(), std::cmp::Ordering::Less);
                }
            },
        }
    }
}
