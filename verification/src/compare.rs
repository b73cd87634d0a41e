//! The comparator: GNU-style version sort over whole strings.
//!
//! The order first gives the privileged names `""`, `"."` and `".."` absolute
//! priority, then ranks hidden names (a leading dot) before all others, then
//! compares the strings without their extensions chunk by chunk, then with
//! them, and finally breaks remaining ties by raw code-point order.

use core::cmp::Ordering;
use vstd::prelude::*;

use crate::chunks::cmp_chunked;
use crate::extension::split_idx;

verus! {

/// Raw lexicographic order by code point; a proper prefix comes first.
pub open spec fn lex_cmp(a: Seq<char>, b: Seq<char>) -> Ordering
    decreases a.len() + b.len(),
{
    if a.len() == 0 && b.len() == 0 {
        Ordering::Equal
    } else if a.len() == 0 {
        Ordering::Less
    } else if b.len() == 0 {
        Ordering::Greater
    } else if (a[0] as u32) < (b[0] as u32) {
        Ordering::Less
    } else if (b[0] as u32) < (a[0] as u32) {
        Ordering::Greater
    } else {
        lex_cmp(a.drop_first(), b.drop_first())
    }
}

/// Exchanging the strings reverses the raw verdict.
pub proof fn lemma_lex_flip(a: Seq<char>, b: Seq<char>)
    ensures
        lex_cmp(b, a) == crate::chars::flip_of(lex_cmp(a, b)),
    decreases a.len() + b.len(),
{
    if a.len() > 0 && b.len() > 0 && a[0] as u32 == b[0] as u32 {
        lemma_lex_flip(a.drop_first(), b.drop_first());
    }
}

/// Two strings compare raw-equal exactly when they are the same sequence.
pub proof fn lemma_lex_equal_iff(a: Seq<char>, b: Seq<char>)
    ensures
        lex_cmp(a, b) == Ordering::Equal <==> a == b,
    decreases a.len() + b.len(),
{
    if a.len() == 0 && b.len() == 0 {
        assert(a =~= b);
    } else if a.len() > 0 && b.len() > 0 && a[0] as u32 == b[0] as u32 {
        vstd::utf8::char_u32_cast(a[0], a[0] as u32);
        vstd::utf8::char_u32_cast(b[0], b[0] as u32);
        lemma_lex_equal_iff(a.drop_first(), b.drop_first());
        if lex_cmp(a, b) == Ordering::Equal {
            assert forall|i: int| 0 <= i < a.len() implies a[i] == b[i] by {
                if i > 0 {
                    assert(a.drop_first()[i - 1] == b.drop_first()[i - 1]);
                }
            }
            assert(a =~= b);
        } else {
            assert(a != b) by {
                if a == b {
                    assert(a.drop_first() =~= b.drop_first());
                }
            }
        }
    }
}

/// The raw order is transitive.
pub proof fn lemma_lex_trans(a: Seq<char>, b: Seq<char>, c: Seq<char>)
    requires
        lex_cmp(a, b) != Ordering::Greater,
        lex_cmp(b, c) != Ordering::Greater,
    ensures
        lex_cmp(a, c) != Ordering::Greater,
        lex_cmp(a, b) == Ordering::Less || lex_cmp(b, c) == Ordering::Less ==> lex_cmp(a, c)
            == Ordering::Less,
    decreases a.len() + b.len() + c.len(),
{
    if a.len() == 0 && b.len() == 0 {
        assert(a =~= b);
    } else if b.len() == 0 && c.len() == 0 {
        assert(b =~= c);
    } else if a.len() > 0 && b.len() > 0 && c.len() > 0 && a[0] as u32 == b[0] as u32 && b[0]
        as u32 == c[0] as u32 {
        lemma_lex_trans(a.drop_first(), b.drop_first(), c.drop_first());
    }
}

/// The priority of the privileged names: `""` first, then `"."`, then `".."`,
/// then everything else.
pub open spec fn special_rank(s: Seq<char>) -> int {
    if s.len() == 0 {
        0
    } else if s.len() == 1 && s[0] == '.' {
        1
    } else if s.len() == 2 && s[0] == '.' && s[1] == '.' {
        2
    } else {
        3
    }
}

/// `s` is one of the privileged names `""`, `"."`, `".."`.
pub open spec fn is_special(s: Seq<char>) -> bool {
    special_rank(s) < 3
}

/// `s` is a hidden name: it starts with a dot and is not `"."` or `".."`.
pub open spec fn is_hidden(s: Seq<char>) -> bool {
    !is_special(s) && s.len() > 0 && s[0] == '.'
}

/// The generic comparison, applied once privileged and hidden names have been
/// handled: compare the strings without their extensions chunk by chunk, then
/// the whole strings the same way, then break the tie by raw code points.
pub open spec fn cmp_tail(a: Seq<char>, b: Seq<char>) -> Ordering {
    let c1 = cmp_chunked(a.take(split_idx(a) as int), b.take(split_idx(b) as int));
    if c1 != Ordering::Equal {
        c1
    } else {
        let c2 = cmp_chunked(a, b);
        if c2 != Ordering::Equal {
            c2
        } else {
            lex_cmp(a, b)
        }
    }
}

/// The version-sort order on whole strings.
pub open spec fn spec_compare(a: Seq<char>, b: Seq<char>) -> Ordering {
    if is_special(a) || is_special(b) {
        if special_rank(a) < special_rank(b) {
            Ordering::Less
        } else if special_rank(b) < special_rank(a) {
            Ordering::Greater
        } else {
            Ordering::Equal
        }
    } else if a[0] == '.' && b[0] != '.' {
        Ordering::Less
    } else if a[0] != '.' && b[0] == '.' {
        Ordering::Greater
    } else if a[0] == '.' && b[0] == '.' {
        cmp_tail(a.drop_first(), b.drop_first())
    } else {
        cmp_tail(a, b)
    }
}

/// The privileged-name priority of `v`, as a small integer.
fn special_key(v: &Vec<char>) -> (k: u8)
    ensures
        k == special_rank(v@),
{
    if v.len() == 0 {
        0
    } else if v.len() == 1 && v[0] == '.' {
        1
    } else if v.len() == 2 && v[0] == '.' && v[1] == '.' {
        2
    } else {
        3
    }
}

/// Compares the characters of `a` and `b` by raw code points.
fn lex_cmp_chars(a: &Vec<char>, b: &Vec<char>) -> (r: Ordering)
    ensures
        r == lex_cmp(a@, b@),
{
    let la = a.len();
    let lb = b.len();
    proof {
        assert(a@.skip(0) =~= a@);
        assert(b@.skip(0) =~= b@);
    }
    let mut k: usize = 0;
    loop
        invariant
            k <= la,
            k <= lb,
            la == a@.len(),
            lb == b@.len(),
            lex_cmp(a@, b@) == lex_cmp(a@.skip(k as int), b@.skip(k as int)),
        decreases la - k,
    {
        if k == la && k == lb {
            return Ordering::Equal;
        }
        if k == la {
            return Ordering::Less;
        }
        if k == lb {
            return Ordering::Greater;
        }
        let ca = a[k] as u32;
        let cb = b[k] as u32;
        proof {
            assert(a@.skip(k as int)[0] == a@[k as int]);
            assert(b@.skip(k as int)[0] == b@[k as int]);
        }
        if ca < cb {
            return Ordering::Less;
        }
        if cb < ca {
            return Ordering::Greater;
        }
        proof {
            assert(a@.skip(k as int).drop_first() =~= a@.skip(k + 1));
            assert(b@.skip(k as int).drop_first() =~= b@.skip(k + 1));
        }
        k = k + 1;
    }
}

/// The generic comparison on character vectors: base without extension, then
/// the full strings, then the raw tie-break.
fn compare_tail(a: &Vec<char>, b: &Vec<char>) -> (r: Ordering)
    ensures
        r == cmp_tail(a@, b@),
{
    let ia = crate::extension::split_point(a);
    let ib = crate::extension::split_point(b);
    proof {
        crate::extension::lemma_split_idx_props(a@);
        crate::extension::lemma_split_idx_props(b@);
        assert(a@.subrange(0, ia as int) =~= a@.take(split_idx(a@) as int));
        assert(b@.subrange(0, ib as int) =~= b@.take(split_idx(b@) as int));
    }
    let base_a = crate::strings::subvec(a, 0, ia);
    let base_b = crate::strings::subvec(b, 0, ib);
    let c1 = crate::chunks::sequence_cmp_chars(&base_a, &base_b);
    match c1 {
        Ordering::Equal => {},
        _ => {
            return c1;
        },
    }
    let c2 = crate::chunks::sequence_cmp_chars(a, b);
    match c2 {
        Ordering::Equal => {},
        _ => {
            return c2;
        },
    }
    lex_cmp_chars(a, b)
}

/// Compares `a` and `b` in the version-sort order: the privileged names `""`,
/// `"."` and `".."` come first in that order, then hidden names (one leading
/// dot is stripped from both before comparing), then all other strings by the
/// generic rules.
pub fn compare(a: &str, b: &str) -> (r: Ordering)
    ensures
        r == spec_compare(a@, b@),
{
    let va = crate::strings::chars_of(a);
    let vb = crate::strings::chars_of(b);
    let ka = special_key(&va);
    let kb = special_key(&vb);
    if ka < 3 || kb < 3 {
        return if ka < kb {
            Ordering::Less
        } else if kb < ka {
            Ordering::Greater
        } else {
            Ordering::Equal
        };
    }
    let ha = va[0] == '.';
    let hb = vb[0] == '.';
    if ha && !hb {
        return Ordering::Less;
    }
    if !ha && hb {
        return Ordering::Greater;
    }
    if ha && hb {
        let ta = crate::strings::subvec(&va, 1, va.len());
        let tb = crate::strings::subvec(&vb, 1, vb.len());
        proof {
            assert(ta@ =~= a@.drop_first());
            assert(tb@ =~= b@.drop_first());
        }
        compare_tail(&ta, &tb)
    } else {
        compare_tail(&va, &vb)
    }
}

} // verus!
