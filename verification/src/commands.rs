//! The command synthesizers. Each one produces an operand (random or
//! store-derived), computes the expected result against the Shadow Store,
//! and returns the command record to be emitted.

use vstd::prelude::*;
use vstd::string::StrSliceExecFns;
use vstd::string::StringExecFns;
use crate::order::all_alphabet;
use crate::order::elems;
use crate::order::lemma_numeral_cmp_equal_iff;
use crate::order::sorted_insert;
use crate::order::sorted_strict;
use crate::random::chance;
use crate::random::rand_in_range;
use crate::random::random_sequence;
use crate::store::ShadowStore;
use crate::strings::str_eq;
use crate::symbols::MAX_SIZE;
use crate::symbols::MIN_SIZE;
use crate::symbols::alphabet_seq;

verus! {

/// One synthesized command together with its expected result: what one
/// emitted record of the trace holds.
pub enum Command {
    Add { key: String, value: String },
    Get { query: String, answer: String },
    Remove { target: String },
    Reverse { query: String, candidates: Vec<String> },
}

/// The length of the longest prefix of `q`, no longer than `upto`, that is a
/// key of `m`; 0 when no prefix of positive length up to `upto` is a key.
pub open spec fn best_len(m: Map<Seq<char>, Seq<char>>, q: Seq<char>, upto: int) -> int
    decreases upto,
{
    if upto <= 0 {
        0
    } else if m.contains_key(q.take(upto)) {
        upto
    } else {
        best_len(m, q, upto - 1)
    }
}

/// The expected answer of `Get(q)`: the value of the longest stored key that
/// prefixes `q`, extended with the rest of `q`; `q` itself when no stored
/// key prefixes it.
pub open spec fn get_answer(m: Map<Seq<char>, Seq<char>>, q: Seq<char>) -> Seq<char> {
    let b = best_len(m, q, q.len() as int);
    if b == 0 {
        q
    } else {
        m[q.take(b)] + q.skip(b)
    }
}

proof fn lemma_best_len_none(m: Map<Seq<char>, Seq<char>>, q: Seq<char>, upto: int)
    requires
        forall|l: int| 1 <= l <= upto ==> !m.contains_key(#[trigger] q.take(l)),
    ensures
        best_len(m, q, upto) == 0,
    decreases upto,
{
    if upto > 0 {
        lemma_best_len_none(m, q, upto - 1);
    }
}

/// Bounds of the best match: it never exceeds `upto`, a positive answer is a
/// stored key, and no longer prefix within `upto` is stored.
pub proof fn lemma_best_len_props(m: Map<Seq<char>, Seq<char>>, q: Seq<char>, upto: int)
    requires
        0 <= upto,
    ensures
        0 <= best_len(m, q, upto) <= upto,
        best_len(m, q, upto) > 0 ==> m.contains_key(q.take(best_len(m, q, upto))),
        forall|l: int|
            best_len(m, q, upto) < l <= upto ==> !m.contains_key(#[trigger] q.take(l)),
    decreases upto,
{
    if upto > 0 && !m.contains_key(q.take(upto)) {
        lemma_best_len_props(m, q, upto - 1);
    }
}

/// Computes the expected answer for `Get(query)` against the store, without
/// mutating it.
pub fn get_command(store: &ShadowStore, query: String) -> (c: Command)
    ensures
        match c {
            Command::Get { query: q, answer } => {
                &&& q@ == query@
                &&& answer@ == get_answer(store@, query@)
                &&& (forall|l: int|
                    1 <= l <= query@.len() ==> !store@.contains_key(#[trigger] query@.take(l)))
                    ==> answer@ == query@
            },
            _ => false,
        },
{
    let qlen = query.unicode_len();
    let mut best: usize = 0;
    let mut best_val: Option<String> = None;
    let mut i: usize = 0;
    while i < qlen
        invariant
            i <= qlen,
            qlen == query@.len(),
            best == best_len(store@, query@, i as int),
            match best_val {
                Some(v) => best > 0 && v@ == store@[query@.take(best as int)],
                None => best == 0,
            },
        decreases qlen - i,
    {
        let pref = query.as_str().substring_char(0, i + 1);
        proof {
            assert(pref@ =~= query@.take(i + 1));
        }
        match store.lookup(pref) {
            Some(v) => {
                best = i + 1;
                best_val = Some(v.clone());
            },
            None => {
            },
        }
        i = i + 1;
    }
    let answer: String;
    match best_val {
        None => {
            proof {
                if forall|l: int|
                    1 <= l <= query@.len() ==> !store@.contains_key(#[trigger] query@.take(l)) {
                    lemma_best_len_none(store@, query@, qlen as int);
                }
            }
            answer = query.clone();
        },
        Some(v) => {
            proof {
                lemma_best_len_props(store@, query@, qlen as int);
            }
            let mut a = v;
            let tail = query.as_str().substring_char(best, qlen);
            a.append(tail);
            proof {
                assert(query@.subrange(best as int, qlen as int) =~= query@.skip(best as int));
                assert(a@ == get_answer(store@, query@));
            }
            answer = a;
        },
    }
    Command::Get { query, answer }
}

/// Inserts the pair into the store — unless key and value are equal, in
/// which case the store is left unchanged — and reports the command either
/// way.
pub fn add_command(store: &mut ShadowStore, key: String, value: String) -> (c: Command)
    requires
        alphabet_seq(key@),
        alphabet_seq(value@),
    ensures
        match c {
            Command::Add { key: k, value: v } => {
                &&& k@ == key@
                &&& v@ == value@
                &&& key@ != value@ ==> final(store)@ == old(store)@.insert(key@, value@)
                &&& key@ == value@ ==> final(store)@ == old(store)@
            },
            _ => false,
        },
{
    if !str_eq(key.as_str(), value.as_str()) {
        store.insert(key.clone(), value.clone());
    }
    Command::Add { key, value }
}

/// Deletes every stored entry whose key has `target` as a literal prefix and
/// reports the command, whether or not anything was removed.
pub fn remove_command(store: &mut ShadowStore, target: String) -> (c: Command)
    ensures
        match c {
            Command::Remove { target: t } => {
                &&& t@ == target@
                &&& forall|k: Seq<char>|
                    #[trigger] final(store)@.contains_key(k) <==> old(store)@.contains_key(k)
                        && !target@.is_prefix_of(k)
                &&& forall|k: Seq<char>|
                    #[trigger] final(store)@.contains_key(k) ==> final(store)@[k] == old(
                        store,
                    )@[k]
            },
            _ => false,
        },
{
    store.remove_map(target.as_str());
    Command::Remove { target }
}

/// Synthesizes an `Add` with two independent random strings.
pub fn gen_addition(rng: &mut rand::rngs::ThreadRng, store: &mut ShadowStore) -> (c: Command)
    ensures
        match c {
            Command::Add { key, value } => {
                &&& MIN_SIZE <= key@.len() <= MAX_SIZE
                &&& MIN_SIZE <= value@.len() <= MAX_SIZE
                &&& alphabet_seq(key@)
                &&& alphabet_seq(value@)
                &&& key@ != value@ ==> final(store)@ == old(store)@.insert(key@, value@)
                &&& key@ == value@ ==> final(store)@ == old(store)@
            },
            _ => false,
        },
{
    let num1 = random_sequence(rng);
    let num2 = random_sequence(rng);
    add_command(store, num1, num2)
}

/// Synthesizes a `Get` with a random query.
pub fn gen_get(rng: &mut rand::rngs::ThreadRng, store: &ShadowStore) -> (c: Command)
    ensures
        match c {
            Command::Get { query, answer } => {
                &&& MIN_SIZE <= query@.len() <= MAX_SIZE
                &&& alphabet_seq(query@)
                &&& answer@ == get_answer(store@, query@)
            },
            _ => false,
        },
{
    let x = random_sequence(rng);
    get_command(store, x)
}

/// Synthesizes a `Remove`, aiming at an existing key with weighted
/// probability, else at a fresh random string.
pub fn gen_removed(rng: &mut rand::rngs::ThreadRng, store: &mut ShadowStore) -> (c: Command)
    ensures
        match c {
            Command::Remove { target } => {
                &&& alphabet_seq(target@)
                &&& old(store)@.contains_key(target@) || MIN_SIZE <= target@.len() <= MAX_SIZE
                &&& forall|k: Seq<char>|
                    #[trigger] final(store)@.contains_key(k) <==> old(store)@.contains_key(k)
                        && !target@.is_prefix_of(k)
                &&& forall|k: Seq<char>|
                    #[trigger] final(store)@.contains_key(k) ==> final(store)@[k] == old(
                        store,
                    )@[k]
            },
            _ => false,
        },
{
    let pick_existing = chance(rng, 7, 10);
    let x: String;
    if pick_existing && store.num_entries() > 0 {
        let idx = rand_in_range(rng, 0, store.num_entries() - 1);
        x = store.key_at(idx).clone();
    } else {
        x = random_sequence(rng);
    }
    remove_command(store, x)
}

/// Reconstructs the candidate original query for a stored entry: the
/// entry's key followed by the part of `origin` beyond the matched prefix.
pub fn reverse_addition(key: &str, prefix: &str, origin: &str) -> (r: String)
    requires
        prefix@.len() <= origin@.len(),
    ensures
        r@ == key@ + origin@.skip(prefix@.len() as int),
{
    let len = prefix.unicode_len();
    let olen = origin.unicode_len();
    let mut rev_result = key.to_owned();
    let skip_result = origin.substring_char(len, olen);
    rev_result.append(skip_result);
    proof {
        assert(origin@.subrange(len as int, olen as int) =~= origin@.skip(len as int));
    }
    rev_result
}

/// The expected candidate set of `Reverse(q)`: the query itself, and, for
/// every stored entry whose value equals a prefix of `q` of length at least
/// two, the entry's key followed by the rest of `q`.
pub open spec fn reverse_candidates(m: Map<Seq<char>, Seq<char>>, q: Seq<char>) -> Set<Seq<char>> {
    Set::new(
        |c: Seq<char>|
            c == q || exists|k: Seq<char>, l: int|
                #![trigger m.index(k), q.take(l)]
                2 <= l <= q.len() && m.contains_key(k) && m[k] == q.take(l) && c == k + q.skip(l),
    )
}

spec fn partial_candidates(
    kv: Seq<(Seq<char>, Seq<char>)>,
    q: Seq<char>,
    l: int,
    e: int,
) -> Set<Seq<char>> {
    Set::new(
        |c: Seq<char>|
            exists|l2: int, j: int|
                #![trigger kv.index(j), q.take(l2)]
                2 <= l2 <= q.len() && 0 <= j < kv.len() && (l2 < l || (l2 == l && j < e))
                    && kv[j].1 == q.take(l2) && c == kv[j].0 + q.skip(l2),
    )
}

/// Computes the expected candidate set for `Reverse(query)` against the
/// store, in ascending numeral order, without mutating the store.
pub fn reverse_command(store: &ShadowStore, query: String) -> (c: Command)
    requires
        alphabet_seq(query@),
        1 <= query@.len() < usize::MAX,
    ensures
        match c {
            Command::Reverse { query: q, candidates } => {
                &&& q@ == query@
                &&& elems(candidates@) == reverse_candidates(store@, query@)
                &&& sorted_strict(candidates@)
                &&& exists|i: int|
                    0 <= i < candidates@.len() && (#[trigger] candidates@[i])@ == query@
                &&& forall|i: int, j: int|
                    0 <= i < j < candidates@.len() ==> (#[trigger] candidates@[i])@ != (
                    #[trigger] candidates@[j])@
            },
            _ => false,
        },
{
    let qlen = query.unicode_len();
    let n = store.num_entries();
    let ghost kv = store.kv();
    let ghost q = query@;
    let mut results: Vec<String> = Vec::new();
    proof {
        assert(elems(results@) =~= partial_candidates(kv, q, 2, 0));
    }
    let mut l: usize = 2;
    while l <= qlen
        invariant
            2 <= l <= qlen + 1,
            qlen < usize::MAX,
            qlen == q.len(),
            q == query@,
            alphabet_seq(q),
            n == kv.len(),
            kv == store.kv(),
            sorted_strict(results@),
            all_alphabet(results@),
            elems(results@) == partial_candidates(kv, q, l as int, 0),
            crate::store::keys_unique(kv),
            crate::store::entries_alphabet(kv),
            forall|j: int|
                0 <= j < kv.len() ==> store@.contains_key((#[trigger] kv[j]).0)
                    && store@[kv[j].0] == kv[j].1,
            forall|k: Seq<char>|
                #[trigger] store@.contains_key(k) ==> exists|j: int|
                    0 <= j < kv.len() && (#[trigger] kv[j]).0 == k,
        decreases qlen - l + 1,
    {
        let prefix = query.as_str().substring_char(0, l);
        proof {
            assert(prefix@ =~= q.take(l as int));
        }
        let mut e: usize = 0;
        while e < n
            invariant
                0 <= e <= n,
                2 <= l <= qlen,
                qlen == q.len(),
                q == query@,
                alphabet_seq(q),
                n == kv.len(),
                kv == store.kv(),
                prefix@ == q.take(l as int),
                sorted_strict(results@),
                all_alphabet(results@),
                elems(results@) == partial_candidates(kv, q, l as int, e as int),
                crate::store::keys_unique(kv),
                crate::store::entries_alphabet(kv),
                forall|j: int|
                    0 <= j < kv.len() ==> store@.contains_key((#[trigger] kv[j]).0)
                        && store@[kv[j].0] == kv[j].1,
                forall|k: Seq<char>|
                    #[trigger] store@.contains_key(k) ==> exists|j: int|
                        0 <= j < kv.len() && (#[trigger] kv[j]).0 == k,
            decreases n - e,
        {
            let entry = store.entry_at(e);
            let ghost pre_set = elems(results@);
            if str_eq(entry.1.as_str(), prefix) {
                let cand = reverse_addition(entry.0.as_str(), prefix, query.as_str());
                proof {
                    crate::symbols::lemma_alphabet_skip(q, l as int);
                    crate::symbols::lemma_alphabet_concat(kv[e as int].0, q.skip(l as int));
                    assert(alphabet_seq(cand@));
                }
                sorted_insert(&mut results, cand);
                proof {
                    let le = l as int;
                    let ee = e as int;
                    assert(kv[ee].1 == q.take(le));
                    assert(cand@ == kv[ee].0 + q.skip(le));
                    assert forall|c: Seq<char>|
                        #[trigger] partial_candidates(kv, q, le, ee + 1).contains(
                            c,
                        ) implies pre_set.insert(cand@).contains(c) by {
                        let (l2, j) = choose|l2: int, j: int|
                            #![trigger kv.index(j), q.take(l2)]
                            2 <= l2 <= q.len() && 0 <= j < kv.len() && (l2 < le || (l2 == le && j
                                < ee + 1)) && kv[j].1 == q.take(l2) && c == kv[j].0 + q.skip(l2);
                        if l2 == le && j == ee {
                            assert(c == cand@);
                        } else {
                            assert(partial_candidates(kv, q, le, ee).contains(c));
                        }
                    }
                    assert forall|c: Seq<char>| #[trigger] pre_set.insert(cand@).contains(
                        c,
                    ) implies partial_candidates(kv, q, le, ee + 1).contains(c) by {
                        if c == cand@ {
                            assert(2 <= le <= q.len() && 0 <= ee < kv.len() && (le < le || (le
                                == le && ee < ee + 1)) && kv[ee].1 == q.take(le) && c == kv[ee].0
                                + q.skip(le));
                        } else {
                            let (l2, j) = choose|l2: int, j: int|
                                #![trigger kv.index(j), q.take(l2)]
                                2 <= l2 <= q.len() && 0 <= j < kv.len() && (l2 < le || (l2 == le
                                    && j < ee)) && kv[j].1 == q.take(l2) && c == kv[j].0 + q.skip(
                                    l2,
                                );
                            assert(kv[j].1 == q.take(l2) && c == kv[j].0 + q.skip(l2));
                        }
                    }
                    assert(elems(results@) =~= partial_candidates(kv, q, le, ee + 1));
                }
            } else {
                proof {
                    let le = l as int;
                    let ee = e as int;
                    assert(kv[ee].1 != q.take(le));
                    assert forall|c: Seq<char>|
                        #[trigger] partial_candidates(kv, q, le, ee + 1).contains(
                            c,
                        ) implies pre_set.contains(c) by {
                        let (l2, j) = choose|l2: int, j: int|
                            #![trigger kv.index(j), q.take(l2)]
                            2 <= l2 <= q.len() && 0 <= j < kv.len() && (l2 < le || (l2 == le && j
                                < ee + 1)) && kv[j].1 == q.take(l2) && c == kv[j].0 + q.skip(l2);
                        assert(!(l2 == le && j == ee));
                        assert(partial_candidates(kv, q, le, ee).contains(c));
                    }
                    assert forall|c: Seq<char>| #[trigger] pre_set.contains(
                        c,
                    ) implies partial_candidates(kv, q, le, ee + 1).contains(c) by {
                        let (l2, j) = choose|l2: int, j: int|
                            #![trigger kv.index(j), q.take(l2)]
                            2 <= l2 <= q.len() && 0 <= j < kv.len() && (l2 < le || (l2 == le && j
                                < ee)) && kv[j].1 == q.take(l2) && c == kv[j].0 + q.skip(l2);
                        assert(kv[j].1 == q.take(l2) && c == kv[j].0 + q.skip(l2));
                    }
                    assert(elems(results@) =~= partial_candidates(kv, q, le, ee + 1));
                }
            }
            e = e + 1;
        }
        proof {
            let le = l as int;
            assert forall|c: Seq<char>| #[trigger] partial_candidates(kv, q, le + 1, 0).contains(
                c,
            ) implies partial_candidates(kv, q, le, n as int).contains(c) by {
                let (l2, j) = choose|l2: int, j: int|
                    #![trigger kv.index(j), q.take(l2)]
                    2 <= l2 <= q.len() && 0 <= j < kv.len() && (l2 < le + 1 || (l2 == le + 1 && j
                        < 0)) && kv[j].1 == q.take(l2) && c == kv[j].0 + q.skip(l2);
                assert(l2 < le || (l2 == le && j < n));
                assert(kv[j].1 == q.take(l2) && c == kv[j].0 + q.skip(l2));
            }
            assert forall|c: Seq<char>| #[trigger] partial_candidates(kv, q, le, n as int).contains(
                c,
            ) implies partial_candidates(kv, q, le + 1, 0).contains(c) by {
                let (l2, j) = choose|l2: int, j: int|
                    #![trigger kv.index(j), q.take(l2)]
                    2 <= l2 <= q.len() && 0 <= j < kv.len() && (l2 < le || (l2 == le && j < n))
                        && kv[j].1 == q.take(l2) && c == kv[j].0 + q.skip(l2);
                assert(l2 < le + 1);
                assert(kv[j].1 == q.take(l2) && c == kv[j].0 + q.skip(l2));
            }
            assert(partial_candidates(kv, q, le + 1, 0) =~= partial_candidates(kv, q, le, n as int));
        }
        l = l + 1;
    }
    let ghost pre_set = elems(results@);
    sorted_insert(&mut results, query.clone());
    proof {
        let lim = qlen as int + 1;
        assert forall|c: Seq<char>| #[trigger] elems(results@).contains(
            c,
        ) implies reverse_candidates(store@, q).contains(c) by {
            if c != q {
                assert(pre_set.contains(c));
                let (l2, j) = choose|l2: int, j: int|
                    #![trigger kv.index(j), q.take(l2)]
                    2 <= l2 <= q.len() && 0 <= j < kv.len() && (l2 < lim || (l2 == lim && j < 0))
                        && kv[j].1 == q.take(l2) && c == kv[j].0 + q.skip(l2);
                assert(store@.contains_key(kv[j].0) && store@[kv[j].0] == q.take(l2));
            }
        }
        assert forall|c: Seq<char>| #[trigger] reverse_candidates(store@, q).contains(
            c,
        ) implies elems(results@).contains(c) by {
            if c != q {
                let (k, l2) = choose|k: Seq<char>, l2: int|
                    #![trigger store@.index(k), q.take(l2)]
                    2 <= l2 <= q.len() && store@.contains_key(k) && store@[k] == q.take(l2) && c
                        == k + q.skip(l2);
                let j = choose|j: int| 0 <= j < kv.len() && (#[trigger] kv[j]).0 == k;
                assert(kv[j].1 == q.take(l2) && c == kv[j].0 + q.skip(l2));
                assert(l2 < lim);
                assert(partial_candidates(kv, q, lim, 0).contains(c));
            }
        }
        assert(elems(results@) =~= reverse_candidates(store@, q));
        assert(elems(results@).contains(q));
        assert forall|i: int, j: int| 0 <= i < j < results@.len() implies (
        #[trigger] results@[i])@ != (#[trigger] results@[j])@ by {
            lemma_numeral_cmp_equal_iff(results@[i]@, results@[j]@);
        }
    }
    Command::Reverse { query, candidates: results }
}

/// Synthesizes a `Reverse` with a random query.
pub fn gen_reverse(rng: &mut rand::rngs::ThreadRng, store: &ShadowStore) -> (c: Command)
    ensures
        match c {
            Command::Reverse { query, candidates } => {
                &&& MIN_SIZE <= query@.len() <= MAX_SIZE
                &&& alphabet_seq(query@)
                &&& elems(candidates@) == reverse_candidates(store@, query@)
                &&& sorted_strict(candidates@)
                &&& exists|i: int|
                    0 <= i < candidates@.len() && (#[trigger] candidates@[i])@ == query@
                &&& forall|i: int, j: int|
                    0 <= i < j < candidates@.len() ==> (#[trigger] candidates@[i])@ != (
                    #[trigger] candidates@[j])@
            },
            _ => false,
        },
{
    let x = random_sequence(rng);
    reverse_command(store, x)
}

/// Where the longest stored prefix-match of the query binds a value of the
/// same length as that prefix — and always when nothing matches — the
/// expected `Get` answer is exactly as long as the query.
pub proof fn lemma_get_answer_len(m: Map<Seq<char>, Seq<char>>, q: Seq<char>)
    requires
        best_len(m, q, q.len() as int) > 0 ==> m[q.take(best_len(m, q, q.len() as int))].len()
            == best_len(m, q, q.len() as int),
    ensures
        get_answer(m, q).len() == q.len(),
{
    lemma_best_len_props(m, q, q.len() as int);
}

/// Performs one iteration of the driver loop: selects one of the four
/// synthesizers by nested weighted draws and runs it against the store.
pub fn run_iteration(rng: &mut rand::rngs::ThreadRng, store: &mut ShadowStore) -> (c: Command)
    ensures
        match c {
            Command::Add { key, value } => {
                &&& MIN_SIZE <= key@.len() <= MAX_SIZE
                &&& MIN_SIZE <= value@.len() <= MAX_SIZE
                &&& alphabet_seq(key@)
                &&& alphabet_seq(value@)
                &&& key@ != value@ ==> final(store)@ == old(store)@.insert(key@, value@)
                &&& key@ == value@ ==> final(store)@ == old(store)@
            },
            Command::Get { query, answer } => {
                &&& MIN_SIZE <= query@.len() <= MAX_SIZE
                &&& alphabet_seq(query@)
                &&& final(store)@ == old(store)@
                &&& answer@ == get_answer(old(store)@, query@)
            },
            Command::Remove { target } => {
                &&& alphabet_seq(target@)
                &&& old(store)@.contains_key(target@) || MIN_SIZE <= target@.len() <= MAX_SIZE
                &&& forall|k: Seq<char>|
                    #[trigger] final(store)@.contains_key(k) <==> old(store)@.contains_key(k)
                        && !target@.is_prefix_of(k)
                &&& forall|k: Seq<char>|
                    #[trigger] final(store)@.contains_key(k) ==> final(store)@[k] == old(
                        store,
                    )@[k]
            },
            Command::Reverse { query, candidates } => {
                &&& MIN_SIZE <= query@.len() <= MAX_SIZE
                &&& alphabet_seq(query@)
                &&& final(store)@ == old(store)@
                &&& elems(candidates@) == reverse_candidates(old(store)@, query@)
                &&& sorted_strict(candidates@)
                &&& exists|i: int|
                    0 <= i < candidates@.len() && (#[trigger] candidates@[i])@ == query@
                &&& forall|i: int, j: int|
                    0 <= i < j < candidates@.len() ==> (#[trigger] candidates@[i])@ != (
                    #[trigger] candidates@[j])@
            },
        },
{
    if chance(rng, 6, 10) {
        gen_addition(rng, store)
    } else if chance(rng, 15, 100) {
        gen_get(rng, &*store)
    } else if chance(rng, 4, 10) {
        gen_removed(rng, store)
    } else {
        gen_reverse(rng, &*store)
    }
}

} // verus!
