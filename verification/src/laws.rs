//! The order laws of the comparator.
//!
//! `spec_compare` is a strict total order on strings: exchanging the
//! arguments reverses the verdict, `Equal` holds exactly for identical
//! strings, and the order is transitive.

use core::cmp::Ordering;
use vstd::prelude::*;

use crate::chars::flip_of;
use crate::chunks::{
    cmp_chunked, digit_run_len, lemma_cmp_chunked_flip, lemma_cmp_chunked_trans,
    lemma_cmp_nondigit_append, lemma_cmp_nondigit_equal_iff, lemma_digit_run_len_props,
    lemma_digit_run_len_unique, lemma_non_digit_run_len_props, lemma_non_digit_run_len_unique,
    non_digit_run_len,
};
use crate::numeric::{lemma_num_val_all_zeros, num_val};
use crate::compare::{
    cmp_tail, is_hidden, is_special, lemma_lex_equal_iff, lemma_lex_flip, lemma_lex_trans,
    lex_cmp, spec_compare, special_rank,
};
use crate::extension::split_idx;

verus! {

/// Every string compares chunk-equal to itself.
proof fn lemma_cmp_chunked_reflexive(a: Seq<char>)
    ensures
        cmp_chunked(a, a) == Ordering::Equal,
{
    lemma_cmp_chunked_flip(a, a);
}

/// Chunk-equality is transitive.
proof fn lemma_cmp_chunked_equal_trans(x: Seq<char>, y: Seq<char>, z: Seq<char>)
    requires
        cmp_chunked(x, y) == Ordering::Equal,
        cmp_chunked(y, z) == Ordering::Equal,
    ensures
        cmp_chunked(x, z) == Ordering::Equal,
{
    lemma_cmp_chunked_trans(x, y, z);
    lemma_cmp_chunked_flip(x, y);
    lemma_cmp_chunked_flip(y, z);
    lemma_cmp_chunked_trans(z, y, x);
    lemma_cmp_chunked_flip(x, z);
}

/// Exchanging the strings reverses the generic comparison.
proof fn lemma_cmp_tail_flip(a: Seq<char>, b: Seq<char>)
    ensures
        cmp_tail(b, a) == flip_of(cmp_tail(a, b)),
{
    lemma_cmp_chunked_flip(a.take(split_idx(a) as int), b.take(split_idx(b) as int));
    lemma_cmp_chunked_flip(a, b);
    lemma_lex_flip(a, b);
}

/// The generic comparison returns `Equal` exactly for identical strings.
proof fn lemma_cmp_tail_equal_iff(a: Seq<char>, b: Seq<char>)
    ensures
        cmp_tail(a, b) == Ordering::Equal <==> a == b,
{
    lemma_lex_equal_iff(a, b);
    if a == b {
        lemma_cmp_chunked_reflexive(a.take(split_idx(a) as int));
        lemma_cmp_chunked_reflexive(a);
        assert(a.take(split_idx(a) as int) == b.take(split_idx(b) as int));
    }
}

/// The generic comparison is transitive.
proof fn lemma_cmp_tail_trans(a: Seq<char>, b: Seq<char>, c: Seq<char>)
    requires
        cmp_tail(a, b) != Ordering::Greater,
        cmp_tail(b, c) != Ordering::Greater,
    ensures
        cmp_tail(a, c) != Ordering::Greater,
        cmp_tail(a, b) == Ordering::Less || cmp_tail(b, c) == Ordering::Less ==> cmp_tail(a, c)
            == Ordering::Less,
{
    let ba = a.take(split_idx(a) as int);
    let bb = b.take(split_idx(b) as int);
    let bc = c.take(split_idx(c) as int);
    let c1_ab = cmp_chunked(ba, bb);
    let c1_bc = cmp_chunked(bb, bc);
    lemma_cmp_chunked_trans(ba, bb, bc);
    if c1_ab == Ordering::Less || c1_bc == Ordering::Less {
        // The base comparison already decides the outer pair.
    } else {
        lemma_cmp_chunked_equal_trans(ba, bb, bc);
        let c2_ab = cmp_chunked(a, b);
        let c2_bc = cmp_chunked(b, c);
        lemma_cmp_chunked_trans(a, b, c);
        if c2_ab == Ordering::Less || c2_bc == Ordering::Less {
        } else {
            lemma_cmp_chunked_equal_trans(a, b, c);
            lemma_lex_trans(a, b, c);
        }
    }
}

/// Extending a string with a suffix that starts with a non-digit decides the
/// chunked comparison against the bare string by that first extra character:
/// a `~` overhang sorts below, any other non-digit overhang above.
pub proof fn lemma_cmp_chunked_append_nondigit(p: Seq<char>, q: Seq<char>)
    requires
        q.len() > 0,
        !crate::chars::is_digit(q[0]),
    ensures
        cmp_chunked(p + q, p) == if q[0] == '~' {
            Ordering::Less
        } else {
            Ordering::Greater
        },
    decreases p.len(),
{
    let t = p + q;
    let np = non_digit_run_len(p) as int;
    lemma_non_digit_run_len_props(p);
    if np < p.len() {
        // The leading non-digit run ends at a digit inside `p`, so both
        // strings produce the same first chunk; peel it and recurse.
        lemma_non_digit_run_len_unique(t, np);
        assert(t.take(np) =~= p.take(np));
        lemma_cmp_nondigit_equal_iff(t.take(np), p.take(np));
        let p1 = p.skip(np);
        let t1 = t.skip(np);
        assert(t1 =~= p1 + q);
        let dp = digit_run_len(p1) as int;
        lemma_digit_run_len_props(p1);
        lemma_digit_run_len_unique(t1, dp);
        assert(t1.take(dp) =~= p1.take(dp));
        assert(t1.skip(dp) =~= p1.skip(dp) + q);
        lemma_cmp_chunked_append_nondigit(p1.skip(dp), q);
    } else {
        // All of `p` is one non-digit run, which `q` extends: its first extra
        // character decides.
        lemma_non_digit_run_len_props(q);
        let nq = non_digit_run_len(q) as int;
        let w = q.take(nq);
        assert(w.len() > 0);
        lemma_non_digit_run_len_unique(t, p.len() + nq);
        assert(t.take(p.len() + nq) =~= p + w);
        assert(p.take(np) =~= p);
        lemma_cmp_nondigit_append(p, w);
        assert(w[0] == q[0]);
    }
}

/// Appending zeros behind a string whose last character is not a digit does
/// not change the chunked comparison: the zeros form a digit run of value
/// zero, which the bare string matches with its empty run.
pub proof fn lemma_cmp_chunked_append_zeros(p: Seq<char>, z: Seq<char>)
    requires
        forall|k: int| 0 <= k < z.len() ==> #[trigger] z[k] == '0',
        p.len() == 0 || !crate::chars::is_digit(p.last()),
    ensures
        cmp_chunked(p + z, p) == Ordering::Equal,
    decreases p.len(),
{
    let t = p + z;
    if z.len() == 0 {
        assert(t =~= p);
        lemma_cmp_chunked_reflexive(p);
    } else if p.len() == 0 {
        assert(t =~= z);
        assert(crate::chars::is_digit(z[0]));
        lemma_non_digit_run_len_unique(t, 0);
        assert(non_digit_run_len(p) == 0);
        assert(t.take(0) =~= p.take(0));
        lemma_cmp_nondigit_equal_iff(t.take(0), p.take(0));
        assert(t.skip(0) =~= z);
        assert(p.skip(0) =~= p);
        lemma_digit_run_len_unique(z, z.len() as int);
        assert(digit_run_len(p) == 0);
        assert(z.take(z.len() as int) =~= z);
        lemma_num_val_all_zeros(z);
        assert(num_val(p.take(0)) == 0);
        assert(z.skip(z.len() as int).len() == 0);
        assert(cmp_chunked(z.skip(z.len() as int), p.skip(0).skip(0)) == Ordering::Equal);
    } else {
        let np = non_digit_run_len(p) as int;
        lemma_non_digit_run_len_props(p);
        if np < p.len() {
            lemma_non_digit_run_len_unique(t, np);
            assert(t.take(np) =~= p.take(np));
            lemma_cmp_nondigit_equal_iff(t.take(np), p.take(np));
            let p1 = p.skip(np);
            let t1 = t.skip(np);
            assert(t1 =~= p1 + z);
            let dp = digit_run_len(p1) as int;
            lemma_digit_run_len_props(p1);
            assert(p1.last() == p.last());
            assert(dp < p1.len());
            lemma_digit_run_len_unique(t1, dp);
            assert(t1.take(dp) =~= p1.take(dp));
            assert(t1.skip(dp) =~= p1.skip(dp) + z);
            assert(p1.skip(dp).len() > 0 ==> p1.skip(dp).last() == p.last());
            lemma_cmp_chunked_append_zeros(p1.skip(dp), z);
        } else {
            // All of `p` is one non-digit run; the zeros follow as a digit
            // run of value zero, matched by the empty run of the bare string.
            assert(crate::chars::is_digit(z[0]));
            lemma_non_digit_run_len_unique(t, p.len() as int);
            assert(t.take(p.len() as int) =~= p);
            assert(p.take(np) =~= p);
            lemma_cmp_nondigit_equal_iff(t.take(p.len() as int), p.take(np));
            let t1 = t.skip(p.len() as int);
            let p1 = p.skip(np);
            assert(t1 =~= z);
            assert(p1.len() == 0);
            lemma_digit_run_len_unique(t1, z.len() as int);
            assert(digit_run_len(p1) == 0);
            assert(t1.take(z.len() as int) =~= z);
            lemma_num_val_all_zeros(z);
            assert(num_val(p1.take(0)) == 0);
            assert(t1.skip(z.len() as int).len() == 0);
            assert(cmp_chunked(t1.skip(z.len() as int), p1.skip(0)) == Ordering::Equal);
        }
    }
}

/// Appending `~` makes a string sort strictly earlier under the generic
/// comparison, whatever the extension splitter does to either string.
proof fn lemma_cmp_tail_tilde(s: Seq<char>)
    ensures
        cmp_tail(s + seq!['~'], s) == Ordering::Less,
{
    let t = s + seq!['~'];
    crate::extension::lemma_split_idx_props(s);
    crate::extension::lemma_split_idx_props(t);
    let sig = split_idx(s) as int;
    let tau = split_idx(t) as int;
    lemma_cmp_chunked_append_nondigit(s, seq!['~']);
    assert(seq!['~'][0] == '~');
    assert(cmp_chunked(t, s) == Ordering::Less);
    if tau == sig {
        // Same split point: the bases are identical, so the full-string
        // comparison decides, and it sees the trailing tilde.
        assert(t.take(tau) =~= s.take(sig));
        lemma_cmp_chunked_reflexive(s.take(sig));
    } else if tau < sig {
        // The tilde created an earlier extension: the base of the extended
        // string is a proper prefix of the other base, cut at a dot.
        assert(crate::extension::is_ext(t.skip(tau)));
        assert(t.skip(tau).len() > 0);
        assert(t.skip(tau)[0] == t[tau]);
        assert(t[tau] == s[tau]);
        let p = s.take(tau);
        let q = s.subrange(tau, sig);
        assert(s.take(sig) =~= p + q);
        assert(t.take(tau) =~= p);
        assert(q.len() > 0 && q[0] == '.');
        lemma_cmp_chunked_append_nondigit(p, q);
        lemma_cmp_chunked_flip(p + q, p);
        assert(cmp_chunked(t.take(tau), s.take(sig)) == Ordering::Less);
    } else {
        // The split point moved right: that can only happen when `s` has no
        // extension, so both bases are the whole strings.
        if sig < s.len() {
            crate::extension::lemma_is_ext_append_tilde(s.skip(sig));
            assert(t.skip(sig) =~= s.skip(sig) + seq!['~']);
            assert(false);
        }
        assert(tau == t.len());
        assert(t.take(tau) =~= t);
        assert(s.take(sig) =~= s);
    }
}

/// Tilde law: appending `~` to any string other than the privileged names
/// `""`, `"."` and `".."` makes it sort strictly earlier. (The privileged
/// names sort before everything, including their own tilde forms.)
pub proof fn lemma_tilde_law(s: Seq<char>)
    requires
        !is_special(s),
    ensures
        spec_compare(s + seq!['~'], s) == Ordering::Less,
{
    let t = s + seq!['~'];
    assert(s.len() > 0);
    assert(t[t.len() - 1] == '~');
    assert(!is_special(t));
    assert(t[0] == s[0]);
    if s[0] == '.' {
        assert(t.drop_first() =~= s.drop_first() + seq!['~']);
        lemma_cmp_tail_tilde(s.drop_first());
    } else {
        lemma_cmp_tail_tilde(s);
    }
}

/// Numeric-magnitude law: with the surrounding non-digit context held equal,
/// two strings whose first digit runs differ compare by those runs' numeric
/// values, whatever follows them.
pub proof fn lemma_numeric_magnitude(
    u: Seq<char>,
    d1: Seq<char>,
    v1: Seq<char>,
    d2: Seq<char>,
    v2: Seq<char>,
)
    requires
        forall|k: int| 0 <= k < u.len() ==> !crate::chars::is_digit(#[trigger] u[k]),
        d1.len() > 0,
        crate::numeric::all_digits(d1),
        d2.len() > 0,
        crate::numeric::all_digits(d2),
        v1.len() > 0 ==> !crate::chars::is_digit(v1[0]),
        v2.len() > 0 ==> !crate::chars::is_digit(v2[0]),
        num_val(d1) < num_val(d2),
    ensures
        cmp_chunked(u + d1 + v1, u + d2 + v2) == Ordering::Less,
{
    let x = u + d1 + v1;
    let y = u + d2 + v2;
    assert(x.len() > 0);
    lemma_non_digit_run_len_unique(x, u.len() as int);
    lemma_non_digit_run_len_unique(y, u.len() as int);
    assert(x.take(u.len() as int) =~= u);
    assert(y.take(u.len() as int) =~= u);
    lemma_cmp_nondigit_equal_iff(x.take(u.len() as int), y.take(u.len() as int));
    let x1 = x.skip(u.len() as int);
    let y1 = y.skip(u.len() as int);
    assert(x1 =~= d1 + v1);
    assert(y1 =~= d2 + v2);
    lemma_digit_run_len_unique(x1, d1.len() as int);
    lemma_digit_run_len_unique(y1, d2.len() as int);
    assert(x1.take(d1.len() as int) =~= d1);
    assert(y1.take(d2.len() as int) =~= d2);
}

/// Totality and consistency: exchanging the arguments of `compare` reverses
/// its verdict, so for every pair exactly one of "less", "equal", "greater"
/// holds, the same in both directions.
pub proof fn lemma_compare_flip(a: Seq<char>, b: Seq<char>)
    ensures
        spec_compare(b, a) == flip_of(spec_compare(a, b)),
{
    if is_special(a) || is_special(b) {
    } else if is_hidden(a) && is_hidden(b) {
        lemma_cmp_tail_flip(a.drop_first(), b.drop_first());
    } else {
        lemma_cmp_tail_flip(a, b);
    }
}

/// The final tie-break makes the order strict: `compare` returns `Equal`
/// exactly for identical strings, so two distinct strings always have a
/// definite order.
pub proof fn lemma_compare_equal_iff(a: Seq<char>, b: Seq<char>)
    ensures
        spec_compare(a, b) == Ordering::Equal <==> a == b,
{
    if is_special(a) && is_special(b) {
        if special_rank(a) == special_rank(b) {
            assert(a =~= b);
        }
    } else if is_special(a) || is_special(b) {
        assert(a != b);
    } else if is_hidden(a) == is_hidden(b) {
        if is_hidden(a) {
            lemma_cmp_tail_equal_iff(a.drop_first(), b.drop_first());
            if cmp_tail(a.drop_first(), b.drop_first()) == Ordering::Equal {
                assert forall|i: int| 0 <= i < a.len() implies a[i] == b[i] by {
                    if i > 0 {
                        assert(a.drop_first()[i - 1] == b.drop_first()[i - 1]);
                    } else {
                        assert(a[0] == '.' && b[0] == '.');
                    }
                }
                assert(a =~= b);
            } else {
                assert(a != b) by {
                    if a == b {
                        assert(a.drop_first() =~= b.drop_first());
                    }
                }
            }
        } else {
            lemma_cmp_tail_equal_iff(a, b);
        }
    } else {
        assert(a != b) by {
            if a == b {
                assert(is_hidden(a) == is_hidden(b));
            }
        }
    }
}

/// Transitivity: a string that sorts no later than a second, which sorts no
/// later than a third, sorts no later than the third; and strictly earlier as
/// soon as either step is strict.
pub proof fn lemma_compare_trans(a: Seq<char>, b: Seq<char>, c: Seq<char>)
    requires
        spec_compare(a, b) != Ordering::Greater,
        spec_compare(b, c) != Ordering::Greater,
    ensures
        spec_compare(a, c) != Ordering::Greater,
        spec_compare(a, b) == Ordering::Less || spec_compare(b, c) == Ordering::Less
            ==> spec_compare(a, c) == Ordering::Less,
{
    if is_special(a) || is_special(b) || is_special(c) {
        // Privileged names compare by rank against each other and sort before
        // everything else; the requires rule out every rank inversion.
    } else {
        // None is privileged, so the hidden flags decide first: the requires
        // force them to be monotone along the chain.
        if is_hidden(a) && is_hidden(b) && is_hidden(c) {
            lemma_cmp_tail_trans(a.drop_first(), b.drop_first(), c.drop_first());
        } else if !is_hidden(a) && !is_hidden(b) && !is_hidden(c) {
            lemma_cmp_tail_trans(a, b, c);
        }
    }
}

} // verus!
