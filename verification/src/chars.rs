//! The character order used to compare non-digit runs.
//!
//! Version sort ranks single characters (and the end of a string) like this:
//! `~` comes first, then the end of the string, then ASCII letters by code
//! point, then every other character by code point.

use core::cmp::Ordering;
use vstd::prelude::*;

verus! {

broadcast use vstd::utf8::char_is_scalar, vstd::utf8::char_u32_cast;

/// `c` is an ASCII decimal digit.
pub open spec fn is_digit(c: char) -> bool {
    '0' as u32 <= c as u32 && c as u32 <= '9' as u32
}

/// `c` is an ASCII letter.
pub open spec fn is_ascii_letter(c: char) -> bool {
    ('a' as u32 <= c as u32 && c as u32 <= 'z' as u32) || ('A' as u32 <= c as u32 && c as u32
        <= 'Z' as u32)
}

/// The rank of a character, or of the end of a string (`None`), in the
/// version-sort character order. Ranks compare by integer value: `~` is
/// lowest, then end-of-string, then ASCII letters by code point, then all
/// remaining characters by code point (shifted above every letter).
pub open spec fn char_rank(oc: Option<char>) -> int {
    match oc {
        Some(c) => if c == '~' {
            -2
        } else if is_ascii_letter(c) {
            c as u32 as int
        } else {
            0x110000 + c as u32 as int
        },
        None => -1,
    }
}

/// The rank of a present character is never the end-of-string rank.
proof fn lemma_char_rank_some_not_none(c: char)
    ensures
        char_rank(Some(c)) != char_rank(None),
{
    vstd::utf8::char_is_scalar(c);
    if c == '~' {
    } else if is_ascii_letter(c) {
        assert(char_rank(Some(c)) == c as u32 >= 0);
    } else {
        assert(char_rank(Some(c)) >= 0x110000);
    }
}

/// Distinct values of `Option<char>` have distinct ranks, so rank order is a
/// total order on characters extended with the end-of-string marker.
pub proof fn lemma_char_rank_injective(a: Option<char>, b: Option<char>)
    requires
        char_rank(a) == char_rank(b),
    ensures
        a == b,
{
    match (a, b) {
        (Some(x), Some(y)) => {
            vstd::utf8::char_is_scalar(x);
            vstd::utf8::char_is_scalar(y);
            vstd::utf8::char_u32_cast(x, x as u32);
            vstd::utf8::char_u32_cast(y, y as u32);
            if x == '~' {
                if y != '~' && is_ascii_letter(y) {
                    assert(char_rank(b) == y as u32 >= 0);
                }
                assert(y == '~');
            } else if is_ascii_letter(x) {
                assert(char_rank(a) == x as u32 <= 0x10FFFF);
                if y != '~' && !is_ascii_letter(y) {
                    assert(char_rank(b) >= 0x110000);
                }
                assert(x as u32 == y as u32);
            } else {
                assert(char_rank(a) == 0x110000 + x as u32);
                if y != '~' && is_ascii_letter(y) {
                    assert(char_rank(b) == y as u32 <= 0x10FFFF);
                }
                assert(x as u32 == y as u32);
            }
        },
        (Some(x), None) => {
            lemma_char_rank_some_not_none(x);
        },
        (None, Some(y)) => {
            lemma_char_rank_some_not_none(y);
        },
        (None, None) => {},
    }
}

/// The order result with the two sides exchanged.
pub open spec fn flip_of(o: Ordering) -> Ordering {
    match o {
        Ordering::Less => Ordering::Greater,
        Ordering::Equal => Ordering::Equal,
        Ordering::Greater => Ordering::Less,
    }
}

/// Decides whether `c` is an ASCII decimal digit.
pub fn digit_char(c: char) -> (r: bool)
    ensures
        r == is_digit(c),
{
    let u = c as u32;
    48 <= u && u <= 57
}

/// The rank of `oc`, shifted by two so that it fits an unsigned integer.
fn char_rank_key(oc: Option<char>) -> (r: u32)
    ensures
        r == char_rank(oc) + 2,
{
    match oc {
        Some(c) => {
            let u = c as u32;
            proof {
                vstd::utf8::char_is_scalar(c);
                assert(u <= 0x10FFFF);
                vstd::utf8::char_u32_cast(c, u);
                vstd::utf8::char_u32_cast('~', '~' as u32);
                assert(u == 126 <==> c == '~');
            }
            if u == 126 {
                0
            } else if (97 <= u && u <= 122) || (65 <= u && u <= 90) {
                u + 2
            } else {
                0x110002 + u
            }
        },
        None => 1,
    }
}

/// Compares a character of each string, or the end of a string (`None`), by
/// rank: `~` first, then end-of-string, then ASCII letters, then the rest.
pub fn compare_chars(a: Option<char>, b: Option<char>) -> (r: Ordering)
    ensures
        r == Ordering::Less <==> char_rank(a) < char_rank(b),
        r == Ordering::Greater <==> char_rank(a) > char_rank(b),
        r == Ordering::Equal <==> a == b,
{
    proof {
        if char_rank(a) == char_rank(b) {
            lemma_char_rank_injective(a, b);
        }
    }
    let ka = char_rank_key(a);
    let kb = char_rank_key(b);
    if ka < kb {
        Ordering::Less
    } else if ka > kb {
        Ordering::Greater
    } else {
        Ordering::Equal
    }
}

} // verus!
