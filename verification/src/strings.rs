//! Character-exact helpers on string slices: equality and literal-prefix
//! tests, specified over the `Seq<char>` views.

use vstd::prelude::*;
use vstd::string::StrSliceExecFns;

verus! {

/// Whether `pref` is a literal prefix of `num`, compared character by
/// character.
pub fn one_is_prefix_of_two(pref: &str, num: &str) -> (r: bool)
    ensures
        r == pref@.is_prefix_of(num@),
{
    let plen = pref.unicode_len();
    let nlen = num.unicode_len();
    if plen > nlen {
        return false;
    }
    let mut i: usize = 0;
    while i < plen
        invariant
            i <= plen,
            plen <= nlen,
            plen == pref@.len(),
            nlen == num@.len(),
            forall|j: int| 0 <= j < i ==> pref@[j] == num@[j],
        decreases plen - i,
    {
        if pref.get_char(i) != num.get_char(i) {
            assert(pref@[i as int] != num@.subrange(0, plen as int)[i as int]);
            return false;
        }
        i = i + 1;
    }
    assert(pref@ =~= num@.subrange(0, plen as int));
    true
}

/// Whether the two slices hold the same characters.
pub fn str_eq(a: &str, b: &str) -> (r: bool)
    ensures
        r == (a@ == b@),
{
    let alen = a.unicode_len();
    let blen = b.unicode_len();
    if alen != blen {
        return false;
    }
    let r = one_is_prefix_of_two(a, b);
    proof {
        if r {
            assert(a@ =~= b@);
        } else {
            assert(!a@.is_prefix_of(b@));
            assert(a@ == b@ ==> a@.is_prefix_of(b@));
        }
    }
    r
}

} // verus!
