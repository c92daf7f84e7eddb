//! Random draws for the generator. The calls into the `rand` crate stand
//! behind trusted wrappers; everything built on top of them is verified for
//! every outcome the wrappers allow.

use vstd::prelude::*;
use vstd::string::StringExecFns;
use rand::Rng;
use crate::symbols::MAX_RANK;
use crate::symbols::MAX_SIZE;
use crate::symbols::MIN_SIZE;
use crate::symbols::alphabet_seq;
use crate::symbols::digitize_number;

verus! {

#[verifier::external_type_specification]
#[verifier::external_body]
pub struct ExThreadRng(rand::rngs::ThreadRng);

/// Relies on rand's `Rng::gen_range` on the inclusive range `lo..=hi`: it
/// panics on an empty range and otherwise samples a value within the range.
#[verifier::external_body]
pub(crate) fn rand_in_range(rng: &mut rand::rngs::ThreadRng, lo: usize, hi: usize) -> (r: usize)
    requires
        lo <= hi,
    ensures
        lo <= r <= hi,
{
    rng.gen_range(lo..=hi)
}

/// Relies on rand's `Rng::gen_ratio`: it panics when the denominator is zero
/// or smaller than the numerator; it is sure to answer true when numerator
/// and denominator agree and false when the numerator is zero.
#[verifier::external_body]
pub(crate) fn chance(rng: &mut rand::rngs::ThreadRng, num: u32, den: u32) -> (r: bool)
    requires
        0 < den,
        num <= den,
    ensures
        num == 0 ==> !r,
        num == den ==> r,
{
    rng.gen_ratio(num, den)
}

/// A random string: its length is drawn uniformly from
/// `MIN_SIZE..=MAX_SIZE`, and each symbol independently and uniformly from
/// the alphabet.
pub fn random_sequence(rng: &mut rand::rngs::ThreadRng) -> (r: String)
    ensures
        MIN_SIZE <= r@.len() <= MAX_SIZE,
        alphabet_seq(r@),
{
    let len = rand_in_range(rng, MIN_SIZE, MAX_SIZE);
    let mut res = String::new();
    let mut i: usize = 0;
    while i < len
        invariant
            i <= len,
            MIN_SIZE <= len <= MAX_SIZE,
            res@.len() == i,
            alphabet_seq(res@),
        decreases len - i,
    {
        let sym = rand_in_range(rng, 0, MAX_RANK as usize);
        let piece = digitize_number(sym as i32);
        res.append(piece.as_str());
        i = i + 1;
    }
    res
}

} // verus!
