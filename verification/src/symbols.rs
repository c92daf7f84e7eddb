//! The symbol alphabet: twelve symbols, the digits `'0'..='9'` with numeral
//! ranks 0..=9 and the two extra symbols `'*'` (rank 10) and `'#'` (rank 11).

use vstd::prelude::*;

verus! {

/// Smallest length of a generated key or value.
pub const MIN_SIZE: usize = 2;

/// Largest length of a generated key or value.
pub const MAX_SIZE: usize = 20;

/// Rank of the largest symbol of the alphabet.
pub const MAX_RANK: i32 = 11;

/// Whether `c` belongs to the twelve-symbol alphabet.
pub open spec fn in_alphabet(c: char) -> bool {
    ('0' as int) <= (c as int) <= ('9' as int) || c == '*' || c == '#'
}

/// Whether every character of `s` belongs to the alphabet.
pub open spec fn alphabet_seq(s: Seq<char>) -> bool {
    forall|i: int| 0 <= i < s.len() ==> in_alphabet(#[trigger] s[i])
}

/// The numeral rank of a symbol: its digit value for `'0'..='9'`,
/// 10 for `'*'` and 11 for `'#'`.
pub open spec fn rank(c: char) -> int {
    if c == '*' {
        10
    } else if c == '#' {
        11
    } else {
        (c as int) - ('0' as int)
    }
}

/// Within the alphabet, no two distinct symbols share a rank.
pub proof fn lemma_rank_injective(a: char, b: char)
    requires
        in_alphabet(a),
        in_alphabet(b),
        rank(a) == rank(b),
    ensures
        a == b,
{
    assert(a as int == b as int ==> a == b);
}

/// Joining two alphabet strings yields an alphabet string.
pub proof fn lemma_alphabet_concat(a: Seq<char>, b: Seq<char>)
    requires
        alphabet_seq(a),
        alphabet_seq(b),
    ensures
        alphabet_seq(a + b),
{
    assert forall|i: int| 0 <= i < (a + b).len() implies in_alphabet(#[trigger] (a + b)[i]) by {
        if i < a.len() {
            assert((a + b)[i] == a[i]);
        } else {
            assert((a + b)[i] == b[i - a.len()]);
        }
    }
}

/// A suffix of an alphabet string is an alphabet string.
pub proof fn lemma_alphabet_skip(a: Seq<char>, n: int)
    requires
        alphabet_seq(a),
        0 <= n <= a.len(),
    ensures
        alphabet_seq(a.skip(n)),
{
    assert forall|i: int| 0 <= i < a.skip(n).len() implies in_alphabet(
        #[trigger] a.skip(n)[i],
    ) by {
        assert(a.skip(n)[i] == a[i + n]);
    }
}

/// Numeral rank of one symbol of the alphabet.
pub fn digitize_char(number: char) -> (r: u8)
    requires
        in_alphabet(number),
    ensures
        r as int == rank(number),
{
    match number {
        '*' => 10,
        '#' => 11,
        otherwise => {
            assert(('0' as int) <= (otherwise as int) <= ('9' as int));
            ((otherwise as u32) - ('0' as u32)) as u8
        },
    }
}

/// One-symbol string for a numeral rank: `"0"`..`"9"`, `"*"` for 10,
/// `"#"` for 11.
pub fn digitize_number(number: i32) -> (r: String)
    requires
        0 <= number <= MAX_RANK,
    ensures
        r@.len() == 1,
        in_alphabet(r@[0]),
        rank(r@[0]) == number as int,
{
    let s: &str = match number {
        0 => "0",
        1 => "1",
        2 => "2",
        3 => "3",
        4 => "4",
        5 => "5",
        6 => "6",
        7 => "7",
        8 => "8",
        9 => "9",
        10 => "*",
        _ => "#",
    };
    proof {
        reveal_strlit("0");
        reveal_strlit("1");
        reveal_strlit("2");
        reveal_strlit("3");
        reveal_strlit("4");
        reveal_strlit("5");
        reveal_strlit("6");
        reveal_strlit("7");
        reveal_strlit("8");
        reveal_strlit("9");
        reveal_strlit("*");
        reveal_strlit("#");
    }
    s.to_owned()
}

} // verus!
