use trace_gen::Command;
use trace_gen::ShadowStore;
use trace_gen::add_command;
use trace_gen::get_command;
use trace_gen::remove_command;
use trace_gen::reverse_command;

fn add(store: &mut ShadowStore, key: &str, value: &str) {
    match add_command(store, key.to_string(), value.to_string()) {
        Command::Add { key: k, value: v } => {
            assert_eq!(k, key);
            assert_eq!(v, value);
        },
        _ => panic!("expected an Add command"),
    }
}

fn get(store: &ShadowStore, query: &str) -> String {
    match get_command(store, query.to_string()) {
        Command::Get { query: q, answer } => {
            assert_eq!(q, query);
            answer
        },
        _ => panic!("expected a Get command"),
    }
}

fn remove(store: &mut ShadowStore, target: &str) {
    match remove_command(store, target.to_string()) {
        Command::Remove { target: t } => {
            assert_eq!(t, target);
        },
        _ => panic!("expected a Remove command"),
    }
}

fn reverse(store: &ShadowStore, query: &str) -> Vec<String> {
    match reverse_command(store, query.to_string()) {
        Command::Reverse { query: q, candidates } => {
            assert_eq!(q, query);
            candidates
        },
        _ => panic!("expected a Reverse command"),
    }
}

#[test]
fn scenario_add_get_remove() {
    let mut store = ShadowStore::new();
    assert_eq!(store.num_entries(), 0);

    add(&mut store, "12", "34");
    assert_eq!(store.num_entries(), 1);
    assert_eq!(store.lookup("12").map(|v| v.clone()), Some("34".to_string()));

    assert_eq!(get(&store, "125"), "345");

    remove(&mut store, "1");
    assert_eq!(store.num_entries(), 0);
    assert!(store.lookup("12").is_none());
}

#[test]
fn get_identity_fallback() {
    let mut store = ShadowStore::new();
    add(&mut store, "77", "88");
    // No stored key is a prefix of the query: the answer echoes the query.
    assert_eq!(get(&store, "650*#"), "650*#");
    // The empty store echoes everything.
    let empty = ShadowStore::new();
    assert_eq!(get(&empty, "1234"), "1234");
}

#[test]
fn get_longest_match_wins() {
    let mut store = ShadowStore::new();
    add(&mut store, "12", "99");
    add(&mut store, "123", "45");
    // Both "12" and "123" prefix the query; the longer match wins.
    assert_eq!(get(&store, "1230"), "450");
}

#[test]
fn get_answer_length_matches_query_length() {
    let mut store = ShadowStore::new();
    add(&mut store, "12", "34");
    add(&mut store, "4*", "#9");
    for query in ["125", "4*4*", "0000", "12", "4*"] {
        assert_eq!(get(&store, query).len(), query.len());
    }
}

#[test]
fn add_overwrites_same_key() {
    let mut store = ShadowStore::new();
    add(&mut store, "55", "66");
    add(&mut store, "55", "77");
    assert_eq!(store.num_entries(), 1);
    assert_eq!(store.lookup("55").map(|v| v.clone()), Some("77".to_string()));
}

#[test]
fn add_self_mapping_is_not_stored() {
    let mut store = ShadowStore::new();
    add(&mut store, "4#2", "4#2");
    assert_eq!(store.num_entries(), 0);
    assert!(store.lookup("4#2").is_none());
    // Unequal pairs are stored as usual afterwards.
    add(&mut store, "4#2", "111");
    assert_eq!(store.num_entries(), 1);
}

#[test]
fn remove_deletes_exactly_the_prefixed_keys() {
    let mut store = ShadowStore::new();
    add(&mut store, "12", "00");
    add(&mut store, "123", "11");
    add(&mut store, "124#", "22");
    add(&mut store, "20", "33");
    add(&mut store, "21", "44");
    remove(&mut store, "12");
    assert_eq!(store.num_entries(), 2);
    assert!(store.lookup("12").is_none());
    assert!(store.lookup("123").is_none());
    assert!(store.lookup("124#").is_none());
    assert_eq!(store.lookup("20").map(|v| v.clone()), Some("33".to_string()));
    assert_eq!(store.lookup("21").map(|v| v.clone()), Some("44".to_string()));
}

#[test]
fn remove_with_no_match_changes_nothing() {
    let mut store = ShadowStore::new();
    add(&mut store, "12", "00");
    remove(&mut store, "9");
    assert_eq!(store.num_entries(), 1);
    assert_eq!(store.lookup("12").map(|v| v.clone()), Some("00".to_string()));
}

#[test]
fn reverse_contains_query_and_reconstructions() {
    let mut store = ShadowStore::new();
    // Value "12" equals the length-2 prefix of the query "125": the
    // candidate is the stored key followed by the rest of the query.
    add(&mut store, "34", "12");
    let candidates = reverse(&store, "125");
    assert!(candidates.contains(&"125".to_string()));
    assert!(candidates.contains(&"345".to_string()));
    assert_eq!(candidates.len(), 2);
}

#[test]
fn reverse_is_sorted_and_has_no_duplicates() {
    let mut store = ShadowStore::new();
    add(&mut store, "9#", "12");
    add(&mut store, "00", "12");
    add(&mut store, "*1", "123");
    let candidates = reverse(&store, "1234");
    // Expected candidates: the query, "9#34", "0034" and "*14".
    assert_eq!(candidates.len(), 4);
    for pair in candidates.windows(2) {
        let a = trace_gen::StringWrapper::new(pair[0].clone());
        let b = trace_gen::StringWrapper::new(pair[1].clone());
        assert_eq!(a.partial_cmp(&b).unwrap(), std::cmp::Ordering::Less);
    }
    assert!(candidates.contains(&"1234".to_string()));
    assert!(candidates.contains(&"9#34".to_string()));
    assert!(candidates.contains(&"0034".to_string()));
    assert!(candidates.contains(&"*14".to_string()));
}

#[test]
fn reverse_on_fresh_query_is_only_the_query() {
    let store = ShadowStore::new();
    let candidates = reverse(&store, "86");
    assert_eq!(candidates, vec!["86".to_string()]);
}

#[test]
fn reverse_first_symbol_alone_is_never_compared() {
    let mut store = ShadowStore::new();
    // The value equals the length-1 prefix of the query, but prefixes of
    // length 1 take no part in the comparison.
    add(&mut store, "99", "1");
    let candidates = reverse(&store, "125");
    assert_eq!(candidates, vec!["125".to_string()]);
}
