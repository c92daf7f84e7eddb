//! The Shadow Store: an in-memory mapping from key-strings to value-strings
//! mirroring the expected state of the prefix-keyed store under test. Its
//! mathematical model is a `Map<Seq<char>, Seq<char>>`.

use vstd::prelude::*;
use crate::strings::one_is_prefix_of_two;
use crate::strings::str_eq;
use crate::symbols::alphabet_seq;

verus! {

/// The key/value character sequences of an entry list.
pub open spec fn kv_of(entries: Seq<(String, String)>) -> Seq<(Seq<char>, Seq<char>)> {
    entries.map_values(|e: (String, String)| (e.0@, e.1@))
}

/// The mapping described by an association list: a later entry for the same
/// key overrides an earlier one.
pub open spec fn map_of(s: Seq<(Seq<char>, Seq<char>)>) -> Map<Seq<char>, Seq<char>>
    decreases s.len(),
{
    if s.len() == 0 {
        Map::empty()
    } else {
        map_of(s.drop_last()).insert(s.last().0, s.last().1)
    }
}

/// Whether no two entries of `s` share a key.
pub open spec fn keys_unique(s: Seq<(Seq<char>, Seq<char>)>) -> bool {
    forall|i: int, j: int| 0 <= i < j < s.len() ==> (#[trigger] s[i]).0 != (#[trigger] s[j]).0
}

/// Whether every key and value of `s` consists of alphabet symbols.
pub open spec fn entries_alphabet(s: Seq<(Seq<char>, Seq<char>)>) -> bool {
    forall|i: int|
        0 <= i < s.len() ==> alphabet_seq((#[trigger] s[i]).0) && alphabet_seq(s[i].1)
}

proof fn lemma_map_of_contains(s: Seq<(Seq<char>, Seq<char>)>, k: Seq<char>)
    ensures
        map_of(s).contains_key(k) <==> exists|i: int| 0 <= i < s.len() && (#[trigger] s[i]).0 == k,
    decreases s.len(),
{
    if s.len() > 0 {
        lemma_map_of_contains(s.drop_last(), k);
        let d = s.drop_last();
        assert(forall|i: int| 0 <= i < d.len() ==> #[trigger] d[i] == s[i]);
        if s.last().0 == k {
            assert(s[s.len() - 1].0 == k);
        } else if exists|i: int| 0 <= i < s.len() && (#[trigger] s[i]).0 == k {
            let i = choose|i: int| 0 <= i < s.len() && (#[trigger] s[i]).0 == k;
            assert(i < s.len() - 1);
            assert(d[i].0 == k);
        }
    }
}

proof fn lemma_map_of_index(s: Seq<(Seq<char>, Seq<char>)>, i: int)
    requires
        0 <= i < s.len(),
        forall|j: int| i < j < s.len() ==> (#[trigger] s[j]).0 != s[i].0,
    ensures
        map_of(s).contains_key(s[i].0),
        map_of(s)[s[i].0] == s[i].1,
    decreases s.len(),
{
    if i == s.len() - 1 {
    } else {
        let d = s.drop_last();
        assert(forall|j: int| 0 <= j < d.len() ==> #[trigger] d[j] == s[j]);
        lemma_map_of_index(d, i);
        assert(s.last().0 != s[i].0);
    }
}

/// The Shadow Store. Keys are unique; keys and values consist of alphabet
/// symbols.
pub struct ShadowStore {
    entries: Vec<(String, String)>,
}

impl View for ShadowStore {
    type V = Map<Seq<char>, Seq<char>>;

    closed spec fn view(&self) -> Map<Seq<char>, Seq<char>> {
        map_of(self.kv())
    }
}

impl ShadowStore {
    /// The store's entries as a sequence of key/value character sequences.
    pub closed spec fn kv(&self) -> Seq<(Seq<char>, Seq<char>)> {
        kv_of(self.entries@)
    }

    #[verifier::type_invariant]
    spec fn store_inv(&self) -> bool {
        keys_unique(self.kv()) && entries_alphabet(self.kv())
    }

    /// How the entry sequence and the map model correspond.
    pub proof fn lemma_kv_facts(&self)
        requires
            keys_unique(self.kv()),
            entries_alphabet(self.kv()),
        ensures
            forall|j: int|
                0 <= j < self.kv().len() ==> self@.contains_key((#[trigger] self.kv()[j]).0)
                    && self@[self.kv()[j].0] == self.kv()[j].1,
            forall|k: Seq<char>|
                #[trigger] self@.contains_key(k) ==> exists|j: int|
                    0 <= j < self.kv().len() && (#[trigger] self.kv()[j]).0 == k,
            forall|k: Seq<char>|
                #[trigger] self@.contains_key(k) ==> alphabet_seq(k) && alphabet_seq(self@[k]),
    {
        assert forall|j: int| 0 <= j < self.kv().len() implies self@.contains_key(
            (#[trigger] self.kv()[j]).0,
        ) && self@[self.kv()[j].0] == self.kv()[j].1 by {
            lemma_map_of_index(self.kv(), j);
        }
        assert forall|k: Seq<char>| #[trigger] self@.contains_key(k) implies exists|j: int|
            0 <= j < self.kv().len() && (#[trigger] self.kv()[j]).0 == k by {
            lemma_map_of_contains(self.kv(), k);
        }
    }

    /// A fresh, empty store.
    pub fn new() -> (r: ShadowStore)
        ensures
            r@ == Map::<Seq<char>, Seq<char>>::empty(),
            r.kv().len() == 0,
    {
        ShadowStore { entries: Vec::new() }
    }

    /// How many entries the store holds; also reports how the entry
    /// sequence and the map model correspond.
    pub fn num_entries(&self) -> (n: usize)
        ensures
            n == self.kv().len(),
            n == 0 <==> self@ == Map::<Seq<char>, Seq<char>>::empty(),
            keys_unique(self.kv()),
            entries_alphabet(self.kv()),
            forall|j: int|
                0 <= j < self.kv().len() ==> self@.contains_key((#[trigger] self.kv()[j]).0)
                    && self@[self.kv()[j].0] == self.kv()[j].1,
            forall|k: Seq<char>|
                #[trigger] self@.contains_key(k) ==> exists|j: int|
                    0 <= j < self.kv().len() && (#[trigger] self.kv()[j]).0 == k,
    {
        proof {
            use_type_invariant(&*self);
            self.lemma_kv_facts();
            if self.kv().len() == 0 {
                assert(self@ =~= Map::<Seq<char>, Seq<char>>::empty());
            } else {
                assert(self@.contains_key(self.kv()[0].0));
            }
        }
        self.entries.len()
    }

    /// The key of the entry at position `i`.
    pub fn key_at(&self, i: usize) -> (k: &String)
        requires
            i < self.kv().len(),
        ensures
            k@ == self.kv()[i as int].0,
            self@.contains_key(k@),
            alphabet_seq(k@),
    {
        proof {
            use_type_invariant(&*self);
            self.lemma_kv_facts();
        }
        &self.entries[i].0
    }

    /// The key and value of the entry at position `i`.
    pub fn entry_at(&self, i: usize) -> (e: (&String, &String))
        requires
            i < self.kv().len(),
        ensures
            e.0@ == self.kv()[i as int].0,
            e.1@ == self.kv()[i as int].1,
            self@.contains_key(e.0@),
            self@[e.0@] == e.1@,
            alphabet_seq(e.0@),
            alphabet_seq(e.1@),
    {
        proof {
            use_type_invariant(&*self);
            self.lemma_kv_facts();
        }
        let entry = &self.entries[i];
        (&entry.0, &entry.1)
    }

    /// The value stored under `key`, if any.
    pub fn lookup(&self, key: &str) -> (r: Option<&String>)
        ensures
            match r {
                Some(v) => self@.contains_key(key@) && v@ == self@[key@],
                None => !self@.contains_key(key@),
            },
    {
        proof {
            use_type_invariant(&*self);
        }
        let n = self.entries.len();
        let mut i: usize = 0;
        while i < n
            invariant
                i <= n,
                n == self.kv().len(),
                keys_unique(self.kv()),
                forall|j: int| 0 <= j < i ==> (#[trigger] self.kv()[j]).0 != key@,
            decreases n - i,
        {
            if str_eq(self.entries[i].0.as_str(), key) {
                proof {
                    lemma_map_of_index(self.kv(), i as int);
                }
                return Some(&self.entries[i].1);
            }
            i = i + 1;
        }
        proof {
            lemma_map_of_contains(self.kv(), key@);
        }
        None
    }

    /// Puts `value` under `key`, overwriting any earlier value for the same
    /// key.
    pub fn insert(&mut self, key: String, value: String)
        requires
            alphabet_seq(key@),
            alphabet_seq(value@),
        ensures
            final(self)@ == old(self)@.insert(key@, value@),
    {
        proof {
            use_type_invariant(&*self);
            self.lemma_kv_facts();
        }
        let ghost okv = self.kv();
        let ghost omap = self@;
        let n = self.entries.len();
        let mut kept: Vec<(String, String)> = Vec::new();
        let mut i: usize = 0;
        while i < n
            invariant
                i <= n,
                n == okv.len(),
                self.kv() == okv,
                self@ == omap,
                keys_unique(okv),
                entries_alphabet(okv),
                alphabet_seq(key@),
                alphabet_seq(value@),
                keys_unique(kv_of(kept@)),
                entries_alphabet(kv_of(kept@)),
                forall|j2: int| 0 <= j2 < kept@.len() ==> (#[trigger] kept@[j2]).0@ != key@,
                forall|k: Seq<char>|
                    #[trigger] map_of(kv_of(kept@))
                        .contains_key(k) <==> (exists|j: int|
                        0 <= j < i && (#[trigger] okv[j]).0 == k) && k != key@,
                forall|k: Seq<char>|
                    #[trigger] map_of(kv_of(kept@))
                        .contains_key(k) ==> map_of(
                        kv_of(kept@),
                    )[k] == omap[k],
                forall|j: int|
                    0 <= j < self.kv().len() ==> self@.contains_key((#[trigger] self.kv()[j]).0)
                        && self@[self.kv()[j].0] == self.kv()[j].1,
            decreases n - i,
        {
            let ghost kkv0 = kv_of(kept@);
            let ghost okept = kept@;
            let e = &self.entries[i];
            if !str_eq(e.0.as_str(), key.as_str()) {
                kept.push((e.0.clone(), e.1.clone()));
                proof {
                    assert(okv[i as int] == (self.entries@[i as int].0@, self.entries@[i as int].1@));
                    let kkv1 = kv_of(kept@);
                    assert(kkv1.drop_last() =~= kkv0);
                    assert(kkv1.len() == kkv0.len() + 1);
                    assert(forall|x: int| 0 <= x < kkv0.len() ==> #[trigger] kkv1[x] == kkv0[x]);
                    assert(kkv1.last() == (okv[i as int].0, okv[i as int].1));
                    assert(entries_alphabet(kkv1));
                    assert(map_of(kkv1) == map_of(kkv0).insert(okv[i as int].0, okv[i as int].1));
                    assert(omap[okv[i as int].0] == okv[i as int].1);
                    assert forall|k: Seq<char>| #[trigger] map_of(kkv1).contains_key(k) implies (
                    exists|j: int| 0 <= j < i + 1 && (#[trigger] okv[j]).0 == k) && k != key@ by {
                        if k == okv[i as int].0 {
                            assert(okv[i as int].0 == k);
                        }
                    }
                    assert(forall|x: int| 0 <= x < okept.len() ==> #[trigger] kept@[x] == okept[x]);
                    assert forall|j2: int| 0 <= j2 < kept@.len() implies (#[trigger] kept@[j2]).0@
                        != key@ by {
                        if j2 < kept@.len() - 1 {
                            assert(kept@[j2] == okept[j2]);
                        } else {
                            assert(okv[i as int].0 == kept@[j2].0@);
                        }
                    }
                    assert(keys_unique(kkv1)) by {
                        assert forall|x: int, y: int| 0 <= x < y < kkv1.len() implies kkv1[x].0
                            != kkv1[y].0 by {
                            if y == kkv1.len() - 1 {
                                if kkv1[x].0 == okv[i as int].0 {
                                    assert(kkv0[x].0 == okv[i as int].0);
                                    lemma_map_of_contains(kkv0, okv[i as int].0);
                                    assert(map_of(kkv0).contains_key(okv[i as int].0));
                                    let j = choose|j: int|
                                        0 <= j < i && (#[trigger] okv[j]).0 == okv[i as int].0;
                                    assert(false);
                                }
                            }
                        }
                    }
                }
            } else {
                proof {
                    assert forall|k: Seq<char>| #[trigger] map_of(kkv0).contains_key(k) implies (
                    exists|j: int| 0 <= j < i + 1 && (#[trigger] okv[j]).0 == k) && k != key@ by {}
                    assert forall|k: Seq<char>| ((exists|j: int|
                        0 <= j < i + 1 && (#[trigger] okv[j]).0 == k) && k != key@) implies map_of(
                        kkv0,
                    ).contains_key(k) by {
                        let j = choose|j: int| 0 <= j < i + 1 && (#[trigger] okv[j]).0 == k;
                        assert(j < i || okv[j].0 == key@);
                    }
                }
            }
            i = i + 1;
        }
        let ghost kkv0 = kv_of(kept@);
        kept.push((key, value));
        proof {
            let kkv1 = kv_of(kept@);
            assert(kkv1.drop_last() =~= kkv0);
            assert(kkv1.len() == kkv0.len() + 1);
            assert(forall|x: int| 0 <= x < kkv0.len() ==> #[trigger] kkv1[x] == kkv0[x]);
            assert(map_of(kkv1) == map_of(kkv0).insert(kkv1.last().0, kkv1.last().1));
            assert(keys_unique(kkv1)) by {
                assert forall|x: int, y: int| 0 <= x < y < kkv1.len() implies kkv1[x].0
                    != kkv1[y].0 by {
                    if y == kkv1.len() - 1 {
                        assert(kkv1[x] == kkv0[x]);
                    }
                }
            }
            assert(entries_alphabet(kkv1));
        }
        self.entries = kept;
        proof {
            let nkv = self.kv();
            let ghost kkey = nkv.last().0;
            let ghost kval = nkv.last().1;
            assert(self@ == map_of(kkv0).insert(kkey, kval));
            assert forall|k: Seq<char>| #[trigger] self@.contains_key(k) implies omap.insert(
                key@,
                value@,
            ).contains_key(k) by {
                if k != key@ {
                    let j = choose|j: int| 0 <= j < n && (#[trigger] okv[j]).0 == k;
                    lemma_map_of_index(okv, j);
                }
            }
            assert forall|k: Seq<char>| #[trigger] omap.insert(key@, value@).contains_key(
                k,
            ) implies self@.contains_key(k) && self@[k] == omap.insert(key@, value@)[k] by {
                if k == key@ {
                } else {
                    lemma_map_of_contains(okv, k);
                }
            }
            assert(self@ =~= omap.insert(key@, value@));
        }
    }
    /// Deletes every entry whose key has `target` as a literal prefix; all
    /// other entries are untouched.
    pub fn remove_map(&mut self, target: &str)
        ensures
            forall|k: Seq<char>|
                #[trigger] final(self)@.contains_key(k) <==> old(self)@.contains_key(k)
                    && !target@.is_prefix_of(k),
            forall|k: Seq<char>|
                #[trigger] final(self)@.contains_key(k) ==> final(self)@[k] == old(self)@[k],
    {
        proof {
            use_type_invariant(&*self);
            self.lemma_kv_facts();
        }
        let ghost okv = self.kv();
        let ghost omap = self@;
        let n = self.entries.len();
        let mut kept: Vec<(String, String)> = Vec::new();
        let mut i: usize = 0;
        while i < n
            invariant
                i <= n,
                n == okv.len(),
                self.kv() == okv,
                self@ == omap,
                keys_unique(okv),
                entries_alphabet(okv),
                keys_unique(kv_of(kept@)),
                entries_alphabet(kv_of(kept@)),
                forall|k: Seq<char>|
                    #[trigger] map_of(kv_of(kept@)).contains_key(k) <==> (exists|j: int|
                        0 <= j < i && (#[trigger] okv[j]).0 == k) && !target@.is_prefix_of(k),
                forall|k: Seq<char>|
                    #[trigger] map_of(kv_of(kept@)).contains_key(k) ==> map_of(kv_of(kept@))[k]
                        == omap[k],
                forall|j: int|
                    0 <= j < self.kv().len() ==> self@.contains_key((#[trigger] self.kv()[j]).0)
                        && self@[self.kv()[j].0] == self.kv()[j].1,
            decreases n - i,
        {
            let ghost kkv0 = kv_of(kept@);
            let ghost okept = kept@;
            let e = &self.entries[i];
            if !one_is_prefix_of_two(target, e.0.as_str()) {
                kept.push((e.0.clone(), e.1.clone()));
                proof {
                    assert(okv[i as int] == (
                        self.entries@[i as int].0@,
                        self.entries@[i as int].1@,
                    ));
                    let kkv1 = kv_of(kept@);
                    assert(kkv1.drop_last() =~= kkv0);
                    assert(kkv1.len() == kkv0.len() + 1);
                    assert(forall|x: int| 0 <= x < kkv0.len() ==> #[trigger] kkv1[x] == kkv0[x]);
                    assert(kkv1.last() == (okv[i as int].0, okv[i as int].1));
                    assert(entries_alphabet(kkv1));
                    assert(map_of(kkv1) == map_of(kkv0).insert(okv[i as int].0, okv[i as int].1));
                    assert(omap[okv[i as int].0] == okv[i as int].1);
                    assert forall|k: Seq<char>| #[trigger] map_of(kkv1).contains_key(k) implies (
                    exists|j: int| 0 <= j < i + 1 && (#[trigger] okv[j]).0 == k)
                        && !target@.is_prefix_of(k) by {
                        if k == okv[i as int].0 {
                            assert(okv[i as int].0 == k);
                        }
                    }
                    assert(keys_unique(kkv1)) by {
                        assert forall|x: int, y: int| 0 <= x < y < kkv1.len() implies kkv1[x].0
                            != kkv1[y].0 by {
                            if y == kkv1.len() - 1 {
                                if kkv1[x].0 == okv[i as int].0 {
                                    assert(kkv0[x].0 == okv[i as int].0);
                                    lemma_map_of_contains(kkv0, okv[i as int].0);
                                    assert(map_of(kkv0).contains_key(okv[i as int].0));
                                    let j = choose|j: int|
                                        0 <= j < i && (#[trigger] okv[j]).0 == okv[i as int].0;
                                    assert(false);
                                }
                            }
                        }
                    }
                }
            } else {
                proof {
                    assert(okv[i as int] == (
                        self.entries@[i as int].0@,
                        self.entries@[i as int].1@,
                    ));
                    assert forall|k: Seq<char>| #[trigger] map_of(kkv0).contains_key(k) implies (
                    exists|j: int| 0 <= j < i + 1 && (#[trigger] okv[j]).0 == k)
                        && !target@.is_prefix_of(k) by {}
                    assert forall|k: Seq<char>|
                        ((exists|j: int| 0 <= j < i + 1 && (#[trigger] okv[j]).0 == k)
                            && !target@.is_prefix_of(k)) implies map_of(kkv0).contains_key(k) by {
                        let j = choose|j: int| 0 <= j < i + 1 && (#[trigger] okv[j]).0 == k;
                        assert(j < i || target@.is_prefix_of(okv[j].0));
                    }
                }
            }
            i = i + 1;
        }
        self.entries = kept;
        proof {
            assert forall|k: Seq<char>| #[trigger] self@.contains_key(k) implies omap.contains_key(
                k,
            ) && !target@.is_prefix_of(k) by {
                let j = choose|j: int| 0 <= j < n && (#[trigger] okv[j]).0 == k;
                lemma_map_of_index(okv, j);
            }
            assert forall|k: Seq<char>|
                omap.contains_key(k) && !target@.is_prefix_of(k) implies #[trigger] self@
                    .contains_key(k) by {
                lemma_map_of_contains(okv, k);
            }
        }
    }
}

} // verus!
