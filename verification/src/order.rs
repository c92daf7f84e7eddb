//! Numeral ordering: a total order over alphabet strings that compares
//! symbol by symbol using numeral ranks (not character codes) up to the
//! common length, and falls back to "shorter orders first".

use vstd::prelude::*;
use vstd::string::StrSliceExecFns;
use core::cmp::Ordering;
use crate::symbols::alphabet_seq;
use crate::symbols::digitize_char;
use crate::symbols::lemma_rank_injective;
use crate::symbols::rank;

verus! {

/// Three-way numeral comparison of two character sequences: the first
/// position where the characters differ decides by rank; if none differs
/// within the common length, the shorter sequence orders first.
pub open spec fn numeral_cmp(a: Seq<char>, b: Seq<char>) -> Ordering
    decreases a.len() + b.len(),
{
    if a.len() == 0 && b.len() == 0 {
        Ordering::Equal
    } else if a.len() == 0 {
        Ordering::Less
    } else if b.len() == 0 {
        Ordering::Greater
    } else if a[0] == b[0] {
        numeral_cmp(a.skip(1), b.skip(1))
    } else if rank(a[0]) < rank(b[0]) {
        Ordering::Less
    } else if rank(a[0]) == rank(b[0]) {
        Ordering::Equal
    } else {
        Ordering::Greater
    }
}

/// Swapping the operands of the numeral comparison mirrors the answer.
pub proof fn lemma_numeral_cmp_flip(a: Seq<char>, b: Seq<char>)
    ensures
        numeral_cmp(b, a) == (match numeral_cmp(a, b) {
            Ordering::Less => Ordering::Greater,
            Ordering::Equal => Ordering::Equal,
            Ordering::Greater => Ordering::Less,
        }),
    decreases a.len() + b.len(),
{
    if a.len() > 0 && b.len() > 0 && a[0] == b[0] {
        lemma_numeral_cmp_flip(a.skip(1), b.skip(1));
    }
}

/// Over alphabet strings the numeral comparison answers `Equal` exactly on
/// equal strings.
pub proof fn lemma_numeral_cmp_equal_iff(a: Seq<char>, b: Seq<char>)
    requires
        alphabet_seq(a),
        alphabet_seq(b),
    ensures
        numeral_cmp(a, b) == Ordering::Equal <==> a == b,
    decreases a.len() + b.len(),
{
    if a.len() == 0 && b.len() == 0 {
        assert(a =~= b);
    } else if a.len() > 0 && b.len() > 0 {
        if a[0] == b[0] {
            assert(forall|i: int|
                0 <= i < a.skip(1).len() ==> #[trigger] a.skip(1)[i] == a[i + 1]);
            assert(forall|i: int|
                0 <= i < b.skip(1).len() ==> #[trigger] b.skip(1)[i] == b[i + 1]);
            assert(alphabet_seq(a.skip(1)) && alphabet_seq(b.skip(1)));
            lemma_numeral_cmp_equal_iff(a.skip(1), b.skip(1));
            if a.skip(1) == b.skip(1) {
                assert forall|i: int| 0 <= i < a.len() implies a[i] == b[i] by {
                    if i >= 1 {
                        assert(a[i] == a.skip(1)[i - 1]);
                        assert(b[i] == b.skip(1)[i - 1]);
                    }
                }
                assert(a =~= b);
            }
            if a == b {
                assert(a.skip(1) =~= b.skip(1));
            }
        } else {
            if rank(a[0]) == rank(b[0])  {
                lemma_rank_injective(a[0], b[0]);
            }
            assert(a != b);
        }
    }
}

/// The numeral order is transitive.
pub proof fn lemma_numeral_cmp_trans(a: Seq<char>, b: Seq<char>, c: Seq<char>)
    requires
        numeral_cmp(a, b) == Ordering::Less,
        numeral_cmp(b, c) == Ordering::Less,
    ensures
        numeral_cmp(a, c) == Ordering::Less,
    decreases a.len() + b.len() + c.len(),
{
    if a.len() == 0 {
        assert(b.len() > 0);
        assert(c.len() > 0);
    } else {
        assert(b.len() > 0);
        assert(c.len() > 0);
        if a[0] == b[0] && b[0] == c[0] {
            lemma_numeral_cmp_trans(a.skip(1), b.skip(1), c.skip(1));
        } else if a[0] == b[0] {
            assert(rank(b[0]) < rank(c[0]));
        } else if b[0] == c[0] {
            assert(rank(a[0]) < rank(b[0]));
        } else {
            assert(rank(a[0]) < rank(b[0]) < rank(c[0]));
        }
    }
}

/// Where the first differing position within the common length carries a
/// rank difference, the numeral order is decided by the ranks alone, not by
/// the character codes.
pub proof fn lemma_rank_decides(a: Seq<char>, b: Seq<char>, i: int)
    requires
        0 <= i < a.len(),
        i < b.len(),
        forall|j: int| 0 <= j < i ==> a[j] == b[j],
        a[i] != b[i],
        rank(a[i]) != rank(b[i]),
    ensures
        numeral_cmp(a, b) == (if rank(a[i]) < rank(b[i]) {
            Ordering::Less
        } else {
            Ordering::Greater
        }),
    decreases i,
{
    if i == 0 {
    } else {
        assert(a[0] == b[0]);
        let sa = a.skip(1);
        let sb = b.skip(1);
        assert(forall|j: int| 0 <= j < sa.len() ==> #[trigger] sa[j] == a[j + 1]);
        assert(forall|j: int| 0 <= j < sb.len() ==> #[trigger] sb[j] == b[j + 1]);
        lemma_rank_decides(sa, sb, i - 1);
    }
}

/// Executable numeral comparison of two strings.
pub fn numeral_cmp_strings(a: &str, b: &str) -> (r: Ordering)
    requires
        alphabet_seq(a@),
        alphabet_seq(b@),
    ensures
        r == numeral_cmp(a@, b@),
{
    let alen = a.unicode_len();
    let blen = b.unicode_len();
    let len: usize = if blen < alen {
        blen
    } else {
        alen
    };
    let mut i: usize = 0;
    proof {
        assert(a@.skip(0) =~= a@);
        assert(b@.skip(0) =~= b@);
    }
    while i < len
        invariant
            i <= len,
            len <= alen,
            len <= blen,
            len == if blen < alen { blen } else { alen },
            alen == a@.len(),
            blen == b@.len(),
            alphabet_seq(a@),
            alphabet_seq(b@),
            numeral_cmp(a@, b@) == numeral_cmp(a@.skip(i as int), b@.skip(i as int)),
            forall|j: int| 0 <= j < i ==> a@[j] == b@[j],
        decreases len - i,
    {
        let ca = a.get_char(i);
        let cb = b.get_char(i);
        if ca != cb {
            let ra = digitize_char(ca);
            let rb = digitize_char(cb);
            proof {
                let sa = a@.skip(i as int);
                let sb = b@.skip(i as int);
                assert(sa[0] == a@[i as int] && sb[0] == b@[i as int]);
            }
            if ra < rb {
                return Ordering::Less;
            } else if ra == rb {
                return Ordering::Equal;
            } else {
                return Ordering::Greater;
            }
        }
        proof {
            let sa = a@.skip(i as int);
            let sb = b@.skip(i as int);
            assert(sa.len() > 0 && sb.len() > 0);
            assert(sa[0] == a@[i as int] && sb[0] == b@[i as int]);
            assert(sa.skip(1) =~= a@.skip(i + 1));
            assert(sb.skip(1) =~= b@.skip(i + 1));
        }
        i = i + 1;
    }
    proof {
        let sa = a@.skip(i as int);
        let sb = b@.skip(i as int);
        if alen == blen {
            assert(sa.len() == 0 && sb.len() == 0);
        } else if alen > blen {
            assert(sb.len() == 0 && sa.len() > 0);
        } else {
            assert(sa.len() == 0 && sb.len() > 0);
        }
    }
    if alen == blen {
        Ordering::Equal
    } else if alen > blen {
        Ordering::Greater
    } else {
        Ordering::Less
    }
}

/// A string of alphabet symbols, compared and equated by numeral order.
pub struct StringWrapper {
    wrapped: String,
}

impl View for StringWrapper {
    type V = Seq<char>;

    closed spec fn view(&self) -> Seq<char> {
        self.wrapped@
    }
}

impl StringWrapper {
    #[verifier::type_invariant]
    spec fn alphabet_inv(&self) -> bool {
        alphabet_seq(self.wrapped@)
    }

    pub fn new(string: String) -> (r: StringWrapper)
        requires
            alphabet_seq(string@),
        ensures
            r@ == string@,
    {
        StringWrapper { wrapped: string }
    }
}

impl PartialEq for StringWrapper {
    fn eq(&self, other: &Self) -> (r: bool) {
        self.wrapped == other.wrapped
    }
}

impl vstd::std_specs::cmp::PartialEqSpecImpl for StringWrapper {
    open spec fn obeys_eq_spec() -> bool {
        true
    }

    open spec fn eq_spec(&self, other: &StringWrapper) -> bool {
        self@ == other@
    }
}

impl Eq for StringWrapper {

}

impl PartialOrd for StringWrapper {
    fn partial_cmp(&self, other: &Self) -> (r: Option<Ordering>) {
        proof {
            use_type_invariant(&*self);
            use_type_invariant(&*other);
        }
        Some(numeral_cmp_strings(self.wrapped.as_str(), other.wrapped.as_str()))
    }
}

impl vstd::std_specs::cmp::PartialOrdSpecImpl for StringWrapper {
    open spec fn obeys_partial_cmp_spec() -> bool {
        true
    }

    open spec fn partial_cmp_spec(&self, other: &StringWrapper) -> Option<Ordering> {
        Some(numeral_cmp(self@, other@))
    }
}

/// Whether the strings of `s` are in strictly ascending numeral order.
pub open spec fn sorted_strict(s: Seq<String>) -> bool {
    forall|i: int, j: int|
        0 <= i < j < s.len() ==> numeral_cmp(s[i]@, s[j]@) == Ordering::Less
}

/// Whether every string of `s` consists of alphabet symbols.
pub open spec fn all_alphabet(s: Seq<String>) -> bool {
    forall|i: int| 0 <= i < s.len() ==> alphabet_seq((#[trigger] s[i])@)
}

/// The set of character sequences held by the strings of `s`.
pub open spec fn elems(s: Seq<String>) -> Set<Seq<char>> {
    Set::new(|c: Seq<char>| exists|i: int| 0 <= i < s.len() && (#[trigger] s[i])@ == c)
}

/// Puts `s` into the strictly ascending vector `v`, keeping it strictly
/// ascending; a string already present is not added twice.
pub fn sorted_insert(v: &mut Vec<String>, s: String)
    requires
        sorted_strict(old(v)@),
        all_alphabet(old(v)@),
        alphabet_seq(s@),
    ensures
        sorted_strict(final(v)@),
        all_alphabet(final(v)@),
        elems(final(v)@) == elems(old(v)@).insert(s@),
{
    let n = v.len();
    let mut i: usize = 0;
    let mut stop = false;
    while i < n && !stop
        invariant
            i <= n,
            n == v@.len(),
            v@ == old(v)@,
            sorted_strict(v@),
            all_alphabet(v@),
            alphabet_seq(s@),
            forall|j: int| 0 <= j < i ==> numeral_cmp(v@[j]@, s@) == Ordering::Less,
            stop ==> i < n && numeral_cmp(v@[i as int]@, s@) == Ordering::Greater,
        decreases n - i + (if stop { 0int } else { 1int }),
    {
        let c = numeral_cmp_strings(v[i].as_str(), s.as_str());
        match c {
            Ordering::Less => {
                i = i + 1;
            },
            Ordering::Equal => {
                proof {
                    lemma_numeral_cmp_equal_iff(v@[i as int]@, s@);
                    assert(elems(v@).contains(s@));
                    assert(elems(v@).insert(s@) =~= elems(v@));
                }
                return ;
            },
            Ordering::Greater => {
                stop = true;
            },
        }
    }
    proof {
        if i < n {
            lemma_numeral_cmp_flip(v@[i as int]@, s@);
        }
    }
    let ghost pre = v@;
    v.insert(i, s);
    proof {
        let post = v@;
        assert(post.len() == pre.len() + 1);
        assert(forall|j: int| 0 <= j < i ==> post[j] == pre[j]);
        assert(post[i as int]@ == s@);
        assert(forall|j: int| i < j < post.len() ==> post[j] == pre[j - 1]);
        assert forall|j1: int, j2: int| 0 <= j1 < j2 < post.len() implies numeral_cmp(
            post[j1]@,
            post[j2]@,
        ) == Ordering::Less by {
            if j1 == i && j2 > i {
                if j2 - 1 > i {
                    lemma_numeral_cmp_trans(s@, pre[i as int]@, pre[j2 - 1]@);
                }
            } else if j1 < i && j2 == i {
            } else if j1 < i && j2 > i {
                if j2 - 1 == j1 {
                    lemma_numeral_cmp_trans(pre[j1]@, s@, pre[i as int]@);
                }
            }
        }
        assert forall|c: Seq<char>| #[trigger] elems(post).contains(c) implies elems(
            pre,
        ).insert(s@).contains(c) by {
            let idx = choose|idx: int| 0 <= idx < post.len() && post[idx]@ == c;
            if idx < i {
                assert(pre[idx]@ == c);
            } else if idx > i {
                assert(pre[idx - 1]@ == c);
            }
        }
        assert forall|c: Seq<char>| #[trigger] elems(pre).insert(s@).contains(c) implies elems(
            post,
        ).contains(c) by {
            if c == s@ {
                assert(post[i as int]@ == c);
            } else {
                let idx = choose|idx: int| 0 <= idx < pre.len() && pre[idx]@ == c;
                if idx < i {
                    assert(post[idx]@ == c);
                } else {
                    assert(post[idx + 1]@ == c);
                }
            }
        }
        assert(elems(post) =~= elems(pre).insert(s@));
    }
}

} // verus!
