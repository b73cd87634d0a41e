//! The chunk tokenizer and chunked comparison.
//!
//! A string is scanned left to right as an alternating sequence of chunks: a
//! non-digit run (possibly empty) followed by a digit run (possibly empty).
//! Two strings compare chunk by chunk: non-digit runs by the character order
//! of [`crate::chars`], digit runs by numeric magnitude. A string that runs
//! out of chunks supplies the empty chunk (no characters, value zero), so a
//! trailing `~` can still rank below a shorter string.

use core::cmp::Ordering;
use vstd::prelude::*;
use vstd::string::StrSliceExecFns;

use crate::chars::{char_rank, is_digit, lemma_char_rank_injective};

verus! {

/// The length of the leading run of non-digit characters of `s`.
pub open spec fn non_digit_run_len(s: Seq<char>) -> nat
    decreases s.len(),
{
    if s.len() == 0 {
        0
    } else if is_digit(s[0]) {
        0
    } else {
        1 + non_digit_run_len(s.drop_first())
    }
}

/// The length of the leading run of digit characters of `s`.
pub open spec fn digit_run_len(s: Seq<char>) -> nat
    decreases s.len(),
{
    if s.len() == 0 {
        0
    } else if !is_digit(s[0]) {
        0
    } else {
        1 + digit_run_len(s.drop_first())
    }
}

/// The leading non-digit run is the longest prefix without a digit.
pub proof fn lemma_non_digit_run_len_props(s: Seq<char>)
    ensures
        non_digit_run_len(s) <= s.len(),
        forall|k: int| 0 <= k < non_digit_run_len(s) ==> !is_digit(#[trigger] s[k]),
        non_digit_run_len(s) < s.len() ==> is_digit(s[non_digit_run_len(s) as int]),
    decreases s.len(),
{
    if s.len() > 0 && !is_digit(s[0]) {
        lemma_non_digit_run_len_props(s.drop_first());
        assert forall|k: int| 0 <= k < non_digit_run_len(s) implies !is_digit(
            #[trigger] s[k],
        ) by {
            if k > 0 {
                assert(s.drop_first()[k - 1] == s[k]);
            }
        }
        if non_digit_run_len(s) < s.len() {
            assert(s.drop_first()[non_digit_run_len(s.drop_first()) as int] == s[
                non_digit_run_len(s) as int]);
        }
    }
}

/// The leading digit run is the longest prefix of digits.
pub proof fn lemma_digit_run_len_props(s: Seq<char>)
    ensures
        digit_run_len(s) <= s.len(),
        forall|k: int| 0 <= k < digit_run_len(s) ==> is_digit(#[trigger] s[k]),
        digit_run_len(s) < s.len() ==> !is_digit(s[digit_run_len(s) as int]),
    decreases s.len(),
{
    if s.len() > 0 && is_digit(s[0]) {
        lemma_digit_run_len_props(s.drop_first());
        assert forall|k: int| 0 <= k < digit_run_len(s) implies is_digit(#[trigger] s[k]) by {
            if k > 0 {
                assert(s.drop_first()[k - 1] == s[k]);
            }
        }
        if digit_run_len(s) < s.len() {
            assert(s.drop_first()[digit_run_len(s.drop_first()) as int] == s[digit_run_len(
                s,
            ) as int]);
        }
    }
}

/// A prefix of non-digits bounded by a digit (or the end) is the leading
/// non-digit run.
pub proof fn lemma_non_digit_run_len_unique(s: Seq<char>, n: int)
    requires
        0 <= n <= s.len(),
        forall|k: int| 0 <= k < n ==> !is_digit(#[trigger] s[k]),
        n == s.len() || is_digit(s[n]),
    ensures
        non_digit_run_len(s) == n,
{
    lemma_non_digit_run_len_props(s);
    let rl = non_digit_run_len(s) as int;
    if rl < n {
        assert(is_digit(s[rl]));
        assert(false);
    }
    if rl > n {
        assert(!is_digit(s[n]));
        assert(false);
    }
}

/// A prefix of digits bounded by a non-digit (or the end) is the leading
/// digit run.
pub proof fn lemma_digit_run_len_unique(s: Seq<char>, n: int)
    requires
        0 <= n <= s.len(),
        forall|k: int| 0 <= k < n ==> is_digit(#[trigger] s[k]),
        n == s.len() || !is_digit(s[n]),
    ensures
        digit_run_len(s) == n,
{
    lemma_digit_run_len_props(s);
    let rl = digit_run_len(s) as int;
    if rl < n {
        assert(!is_digit(s[rl]));
        assert(false);
    }
    if rl > n {
        assert(is_digit(s[n]));
        assert(false);
    }
}

/// The first character of `s`, or `None` when `s` is exhausted.
pub open spec fn head(s: Seq<char>) -> Option<char> {
    if s.len() == 0 {
        None
    } else {
        Some(s[0])
    }
}

/// Compares two non-digit runs character by character in the version-sort
/// character order. A run that ends while the other continues counts as the
/// end-of-string marker, which ranks above `~` and below everything else.
pub open spec fn cmp_nondigit(a: Seq<char>, b: Seq<char>) -> Ordering
    decreases a.len() + b.len(),
{
    if a.len() == 0 && b.len() == 0 {
        Ordering::Equal
    } else if a.len() == 0 {
        if b[0] == '~' {
            Ordering::Greater
        } else {
            Ordering::Less
        }
    } else if b.len() == 0 {
        if a[0] == '~' {
            Ordering::Less
        } else {
            Ordering::Greater
        }
    } else if char_rank(Some(a[0])) < char_rank(Some(b[0])) {
        Ordering::Less
    } else if char_rank(Some(b[0])) < char_rank(Some(a[0])) {
        Ordering::Greater
    } else {
        cmp_nondigit(a.drop_first(), b.drop_first())
    }
}

/// One step of `cmp_nondigit`, phrased over character ranks: the lower rank
/// of the two heads decides, and equal ranks mean equal heads, in which case
/// the comparison continues behind them.
pub proof fn lemma_cmp_nondigit_step(a: Seq<char>, b: Seq<char>)
    ensures
        a.len() == 0 && b.len() == 0 ==> cmp_nondigit(a, b) == Ordering::Equal,
        char_rank(head(a)) < char_rank(head(b)) ==> cmp_nondigit(a, b) == Ordering::Less,
        char_rank(head(a)) > char_rank(head(b)) ==> cmp_nondigit(a, b) == Ordering::Greater,
        !(a.len() == 0 && b.len() == 0) && char_rank(head(a)) == char_rank(head(b)) ==> (a.len()
            > 0 && b.len() > 0 && a[0] == b[0] && cmp_nondigit(a, b) == cmp_nondigit(
            a.drop_first(),
            b.drop_first(),
        )),
{
    if char_rank(head(a)) == char_rank(head(b)) {
        lemma_char_rank_injective(head(a), head(b));
    }
    if a.len() == 0 && b.len() > 0 {
        if b[0] == '~' {
            assert(char_rank(head(b)) == -2 < char_rank(head(a)));
        } else if crate::chars::is_ascii_letter(b[0]) {
            assert(char_rank(head(b)) == b[0] as u32 >= 0 > char_rank(head(a)));
        } else {
            assert(char_rank(head(b)) >= 0x110000 > char_rank(head(a)));
        }
    }
    if b.len() == 0 && a.len() > 0 {
        if a[0] == '~' {
            assert(char_rank(head(a)) == -2 < char_rank(head(b)));
        } else if crate::chars::is_ascii_letter(a[0]) {
            assert(char_rank(head(a)) == a[0] as u32 >= 0 > char_rank(head(b)));
        } else {
            assert(char_rank(head(a)) >= 0x110000 > char_rank(head(b)));
        }
    }
}

/// Two runs compare equal exactly when they are the same sequence.
pub proof fn lemma_cmp_nondigit_equal_iff(a: Seq<char>, b: Seq<char>)
    ensures
        cmp_nondigit(a, b) == Ordering::Equal <==> a == b,
    decreases a.len() + b.len(),
{
    lemma_cmp_nondigit_step(a, b);
    if a.len() == 0 && b.len() == 0 {
        assert(a =~= b);
    } else if char_rank(head(a)) == char_rank(head(b)) {
        lemma_cmp_nondigit_equal_iff(a.drop_first(), b.drop_first());
        if cmp_nondigit(a, b) == Ordering::Equal {
            assert forall|i: int| 0 <= i < a.len() implies a[i] == b[i] by {
                if i > 0 {
                    assert(a.drop_first()[i - 1] == b.drop_first()[i - 1]);
                }
            }
            assert(a =~= b);
        } else {
            assert(a != b) by {
                if a == b {
                    assert(a.drop_first() =~= b.drop_first());
                }
            }
        }
    } else {
        assert(a != b) by {
            if a == b {
                assert(head(a) == head(b));
            }
        }
    }
}

/// Extending a run decides against the shorter one by the first extra
/// character: a `~` overhang ranks below the bare run, anything else above.
pub proof fn lemma_cmp_nondigit_append(p: Seq<char>, w: Seq<char>)
    requires
        w.len() > 0,
    ensures
        cmp_nondigit(p + w, p) == if w[0] == '~' {
            Ordering::Less
        } else {
            Ordering::Greater
        },
    decreases p.len(),
{
    if p.len() == 0 {
        assert(p + w =~= w);
    } else {
        assert((p + w)[0] == p[0]);
        assert((p + w).len() > 0);
        lemma_cmp_nondigit_step(p + w, p);
        lemma_cmp_nondigit_append(p.drop_first(), w);
        assert((p + w).drop_first() =~= p.drop_first() + w);
    }
}

/// Exchanging the runs reverses the verdict.
pub proof fn lemma_cmp_nondigit_flip(a: Seq<char>, b: Seq<char>)
    ensures
        cmp_nondigit(b, a) == crate::chars::flip_of(cmp_nondigit(a, b)),
    decreases a.len() + b.len(),
{
    lemma_cmp_nondigit_step(a, b);
    lemma_cmp_nondigit_step(b, a);
    if !(a.len() == 0 && b.len() == 0) && char_rank(head(a)) == char_rank(head(b)) {
        lemma_cmp_nondigit_flip(a.drop_first(), b.drop_first());
    }
}

/// The run order is transitive: a run no greater than a second, which is no
/// greater than a third, is no greater than the third, and strictly below it
/// as soon as either step is strict.
pub proof fn lemma_cmp_nondigit_trans(a: Seq<char>, b: Seq<char>, c: Seq<char>)
    requires
        cmp_nondigit(a, b) != Ordering::Greater,
        cmp_nondigit(b, c) != Ordering::Greater,
    ensures
        cmp_nondigit(a, c) != Ordering::Greater,
        cmp_nondigit(a, b) == Ordering::Less || cmp_nondigit(b, c) == Ordering::Less
            ==> cmp_nondigit(a, c) == Ordering::Less,
    decreases a.len() + b.len() + c.len(),
{
    lemma_cmp_nondigit_step(a, b);
    lemma_cmp_nondigit_step(b, c);
    lemma_cmp_nondigit_step(a, c);
    let ra = char_rank(head(a));
    let rb = char_rank(head(b));
    let rc = char_rank(head(c));
    if ra == rb && rb == rc {
        if a.len() == 0 && b.len() == 0 && c.len() == 0 {
        } else {
            // Equal ranks force every head to be present, or none of them.
            assert(a.len() > 0 && b.len() > 0 && c.len() > 0) by {
                if a.len() == 0 && b.len() > 0 {
                    assert(false);
                }
                if b.len() == 0 && c.len() > 0 {
                    assert(false);
                }
                if b.len() == 0 && a.len() > 0 {
                    assert(false);
                }
                if c.len() == 0 && b.len() > 0 {
                    assert(false);
                }
            }
            lemma_cmp_nondigit_trans(a.drop_first(), b.drop_first(), c.drop_first());
        }
    }
}

/// When two strings produce equal leading chunks, at least one of them loses
/// at least one character to those chunks, so chunked comparison advances.
pub proof fn lemma_chunk_progress(a: Seq<char>, b: Seq<char>)
    requires
        !(a.len() == 0 && b.len() == 0),
        cmp_nondigit(
            a.take(non_digit_run_len(a) as int),
            b.take(non_digit_run_len(b) as int),
        ) == Ordering::Equal,
    ensures
        a.skip(non_digit_run_len(a) as int).skip(
            digit_run_len(a.skip(non_digit_run_len(a) as int)) as int,
        ).len() + b.skip(non_digit_run_len(b) as int).skip(
            digit_run_len(b.skip(non_digit_run_len(b) as int)) as int,
        ).len() < a.len() + b.len(),
{
    let na = non_digit_run_len(a) as int;
    let nb = non_digit_run_len(b) as int;
    let a1 = a.skip(na);
    let b1 = b.skip(nb);
    let da = digit_run_len(a1) as int;
    let db = digit_run_len(b1) as int;
    lemma_non_digit_run_len_props(a);
    lemma_non_digit_run_len_props(b);
    lemma_digit_run_len_props(a1);
    lemma_digit_run_len_props(b1);
    lemma_cmp_nondigit_equal_iff(a.take(na), b.take(nb));
    if a.len() > 0 && na == 0 {
        assert(is_digit(a[0]));
        assert(a1[0] == a[0]);
        assert(da >= 1);
    }
    if b.len() > 0 && nb == 0 {
        assert(is_digit(b[0]));
        assert(b1[0] == b[0]);
        assert(db >= 1);
    }
    if a.len() == 0 {
        assert(a.take(na).len() == 0);
        assert(b.take(nb).len() == 0);
        assert(nb == 0);
    }
    if b.len() == 0 {
        assert(b.take(nb).len() == 0);
        assert(a.take(na).len() == 0);
        assert(na == 0);
    }
}

/// Compares two strings chunk by chunk: the leading non-digit runs by
/// character rank, then the following digit runs by numeric value, then the
/// remainders of the strings in the same way. An exhausted string keeps
/// supplying empty chunks until both are exhausted.
pub open spec fn cmp_chunked(a: Seq<char>, b: Seq<char>) -> Ordering
    decreases a.len() + b.len(),
{
    if a.len() == 0 && b.len() == 0 {
        Ordering::Equal
    } else {
        let na = non_digit_run_len(a) as int;
        let nb = non_digit_run_len(b) as int;
        let c1 = cmp_nondigit(a.take(na), b.take(nb));
        if c1 != Ordering::Equal {
            c1
        } else {
            let a1 = a.skip(na);
            let b1 = b.skip(nb);
            let da = digit_run_len(a1) as int;
            let db = digit_run_len(b1) as int;
            let va = crate::numeric::num_val(a1.take(da));
            let vb = crate::numeric::num_val(b1.take(db));
            if va < vb {
                Ordering::Less
            } else if vb < va {
                Ordering::Greater
            } else {
                proof {
                    lemma_chunk_progress(a, b);
                }
                cmp_chunked(a1.skip(da), b1.skip(db))
            }
        }
    }
}

/// Exchanging the strings reverses the chunked verdict.
pub proof fn lemma_cmp_chunked_flip(a: Seq<char>, b: Seq<char>)
    ensures
        cmp_chunked(b, a) == crate::chars::flip_of(cmp_chunked(a, b)),
    decreases a.len() + b.len(),
{
    if a.len() == 0 && b.len() == 0 {
    } else {
        let na = non_digit_run_len(a) as int;
        let nb = non_digit_run_len(b) as int;
        let pa = a.take(na);
        let pb = b.take(nb);
        lemma_cmp_nondigit_flip(pa, pb);
        if cmp_nondigit(pa, pb) == Ordering::Equal {
            let a1 = a.skip(na);
            let b1 = b.skip(nb);
            let da = digit_run_len(a1) as int;
            let db = digit_run_len(b1) as int;
            let va = crate::numeric::num_val(a1.take(da));
            let vb = crate::numeric::num_val(b1.take(db));
            if va == vb {
                lemma_chunk_progress(a, b);
                lemma_cmp_chunked_flip(a1.skip(da), b1.skip(db));
            }
        }
    }
}

/// The chunked order is transitive: a string no greater than a second, which
/// is no greater than a third, is no greater than the third, and strictly
/// below it as soon as either step is strict.
pub proof fn lemma_cmp_chunked_trans(a: Seq<char>, b: Seq<char>, c: Seq<char>)
    requires
        cmp_chunked(a, b) != Ordering::Greater,
        cmp_chunked(b, c) != Ordering::Greater,
    ensures
        cmp_chunked(a, c) != Ordering::Greater,
        cmp_chunked(a, b) == Ordering::Less || cmp_chunked(b, c) == Ordering::Less
            ==> cmp_chunked(a, c) == Ordering::Less,
    decreases a.len() + b.len() + c.len(),
{
    if a.len() == 0 && b.len() == 0 {
        // The first comparison is Equal, and the second starts from the same
        // empty string, so it already decides the pair (a, c).
        assert(a =~= b);
    } else if b.len() == 0 && c.len() == 0 {
        assert(b =~= c);
    } else if a.len() == 0 && c.len() == 0 {
        // b is squeezed between two empty strings: both comparisons can only
        // be Equal, and the empty pair compares Equal.
        assert(a =~= c);
        lemma_cmp_chunked_flip(a, b);
        assert(cmp_chunked(b, c) == cmp_chunked(b, a));
    } else {
        let na = non_digit_run_len(a) as int;
        let nb = non_digit_run_len(b) as int;
        let nc = non_digit_run_len(c) as int;
        let pa = a.take(na);
        let pb = b.take(nb);
        let pc = c.take(nc);
        lemma_cmp_nondigit_equal_iff(pa, pb);
        lemma_cmp_nondigit_equal_iff(pb, pc);
        lemma_cmp_nondigit_equal_iff(pa, pc);
        lemma_cmp_nondigit_trans(pa, pb, pc);
        if cmp_nondigit(pa, pb) == Ordering::Equal && cmp_nondigit(pb, pc) == Ordering::Equal {
            let a1 = a.skip(na);
            let b1 = b.skip(nb);
            let c1 = c.skip(nc);
            let da = digit_run_len(a1) as int;
            let db = digit_run_len(b1) as int;
            let dc = digit_run_len(c1) as int;
            let va = crate::numeric::num_val(a1.take(da));
            let vb = crate::numeric::num_val(b1.take(db));
            let vc = crate::numeric::num_val(c1.take(dc));
            if va == vb && vb == vc {
                lemma_non_digit_run_len_props(a);
                lemma_non_digit_run_len_props(b);
                lemma_non_digit_run_len_props(c);
                lemma_digit_run_len_props(a1);
                lemma_digit_run_len_props(b1);
                lemma_digit_run_len_props(c1);
                lemma_chunk_progress(a, b);
                lemma_chunk_progress(b, c);
                lemma_cmp_chunked_trans(a1.skip(da), b1.skip(db), c1.skip(dc));
            }
        }
    }
}

/// The index just past the non-digit run of `v` that starts at `start`.
fn non_digit_run_end(v: &Vec<char>, start: usize) -> (e: usize)
    requires
        start <= v@.len(),
    ensures
        start <= e <= v@.len(),
        e - start == non_digit_run_len(v@.skip(start as int)),
{
    let n = v.len();
    let mut k = start;
    while k < n
        invariant
            start <= k <= n,
            n == v@.len(),
            forall|m: int| start <= m < k ==> !is_digit(#[trigger] v@[m]),
        ensures
            start <= k <= n,
            n == v@.len(),
            forall|m: int| start <= m < k ==> !is_digit(#[trigger] v@[m]),
            k == n || is_digit(v@[k as int]),
        decreases n - k,
    {
        if crate::chars::digit_char(v[k]) {
            break ;
        }
        k = k + 1;
    }
    proof {
        let s = v@.skip(start as int);
        lemma_non_digit_run_len_props(s);
        let rl = non_digit_run_len(s) as int;
        if rl < k - start {
            assert(s[rl] == v@[start + rl]);
            assert(false);
        }
        if rl > k - start {
            assert(s[k - start] == v@[k as int]);
            assert(false);
        }
    }
    k
}

/// The index just past the digit run of `v` that starts at `start`.
fn digit_run_end(v: &Vec<char>, start: usize) -> (e: usize)
    requires
        start <= v@.len(),
    ensures
        start <= e <= v@.len(),
        e - start == digit_run_len(v@.skip(start as int)),
        forall|m: int| start <= m < e ==> is_digit(#[trigger] v@[m]),
{
    let n = v.len();
    let mut k = start;
    while k < n
        invariant
            start <= k <= n,
            n == v@.len(),
            forall|m: int| start <= m < k ==> is_digit(#[trigger] v@[m]),
        ensures
            start <= k <= n,
            n == v@.len(),
            forall|m: int| start <= m < k ==> is_digit(#[trigger] v@[m]),
            k == n || !is_digit(v@[k as int]),
        decreases n - k,
    {
        if !crate::chars::digit_char(v[k]) {
            break ;
        }
        k = k + 1;
    }
    proof {
        let s = v@.skip(start as int);
        lemma_digit_run_len_props(s);
        let rl = digit_run_len(s) as int;
        if rl < k - start {
            assert(s[rl] == v@[start + rl]);
            assert(false);
        }
        if rl > k - start {
            assert(s[k - start] == v@[k as int]);
            assert(false);
        }
    }
    k
}

/// Compares the non-digit runs `a[ai..ae]` and `b[bi..be]` in the
/// version-sort character order.
fn compare_non_digit_runs(
    a: &Vec<char>,
    ai: usize,
    ae: usize,
    b: &Vec<char>,
    bi: usize,
    be: usize,
) -> (r: Ordering)
    requires
        ai <= ae <= a@.len(),
        bi <= be <= b@.len(),
    ensures
        r == cmp_nondigit(a@.subrange(ai as int, ae as int), b@.subrange(bi as int, be as int)),
{
    let ghost ra = a@.subrange(ai as int, ae as int);
    let ghost rb = b@.subrange(bi as int, be as int);
    let la = ae - ai;
    let lb = be - bi;
    let ghost mx: int = if la <= lb {
        la as int
    } else {
        lb as int
    };
    proof {
        assert(ra.skip(0) =~= ra);
        assert(rb.skip(0) =~= rb);
    }
    let mut k: usize = 0;
    loop
        invariant
            k <= la,
            k <= lb,
            ai <= ae <= a@.len(),
            bi <= be <= b@.len(),
            la == ae - ai,
            lb == be - bi,
            mx == if la <= lb {
                la as int
            } else {
                lb as int
            },
            ra == a@.subrange(ai as int, ae as int),
            rb == b@.subrange(bi as int, be as int),
            cmp_nondigit(ra, rb) == cmp_nondigit(ra.skip(k as int), rb.skip(k as int)),
        decreases mx - k,
    {
        let oa = if k < la {
            Some(a[ai + k])
        } else {
            None
        };
        let ob = if k < lb {
            Some(b[bi + k])
        } else {
            None
        };
        proof {
            if k < la {
                assert(ra.skip(k as int)[0] == a@[ai + k]);
            } else {
                assert(ra.skip(k as int).len() == 0);
            }
            if k < lb {
                assert(rb.skip(k as int)[0] == b@[bi + k]);
            } else {
                assert(rb.skip(k as int).len() == 0);
            }
            assert(head(ra.skip(k as int)) == oa);
            assert(head(rb.skip(k as int)) == ob);
            lemma_cmp_nondigit_step(ra.skip(k as int), rb.skip(k as int));
        }
        let r = crate::chars::compare_chars(oa, ob);
        match r {
            Ordering::Equal => {
                if k >= la {
                    // Both runs are exhausted: they compared equal throughout.
                    return Ordering::Equal;
                }
                proof {
                    assert(ra.skip(k as int).drop_first() =~= ra.skip(k + 1));
                    assert(rb.skip(k as int).drop_first() =~= rb.skip(k + 1));
                }
                k = k + 1;
            },
            _ => {
                return r;
            },
        }
    }
}

/// Compares the characters of `a` and `b` chunk by chunk.
pub(crate) fn sequence_cmp_chars(a: &Vec<char>, b: &Vec<char>) -> (r: Ordering)
    ensures
        r == cmp_chunked(a@, b@),
{
    let mut i: usize = 0;
    let mut j: usize = 0;
    proof {
        assert(a@.skip(0) =~= a@);
        assert(b@.skip(0) =~= b@);
    }
    loop
        invariant
            i <= a@.len(),
            j <= b@.len(),
            cmp_chunked(a@, b@) == cmp_chunked(a@.skip(i as int), b@.skip(j as int)),
        decreases a@.len() - i + b@.len() - j,
    {
        if i == a.len() && j == b.len() {
            return Ordering::Equal;
        }
        let ghost sa = a@.skip(i as int);
        let ghost sb = b@.skip(j as int);
        let ni = non_digit_run_end(a, i);
        let nj = non_digit_run_end(b, j);
        proof {
            assert(a@.subrange(i as int, ni as int) =~= sa.take(non_digit_run_len(sa) as int));
            assert(b@.subrange(j as int, nj as int) =~= sb.take(non_digit_run_len(sb) as int));
        }
        let c1 = compare_non_digit_runs(a, i, ni, b, j, nj);
        match c1 {
            Ordering::Equal => {},
            _ => {
                return c1;
            },
        }
        let ghost sa1 = sa.skip(non_digit_run_len(sa) as int);
        let ghost sb1 = sb.skip(non_digit_run_len(sb) as int);
        proof {
            assert(a@.skip(ni as int) =~= sa1);
            assert(b@.skip(nj as int) =~= sb1);
        }
        let di = digit_run_end(a, ni);
        let dj = digit_run_end(b, nj);
        proof {
            assert(a@.subrange(ni as int, di as int) =~= sa1.take(digit_run_len(sa1) as int));
            assert(b@.subrange(nj as int, dj as int) =~= sb1.take(digit_run_len(sb1) as int));
            assert(crate::numeric::all_digits(a@.subrange(ni as int, di as int)));
            assert(crate::numeric::all_digits(b@.subrange(nj as int, dj as int)));
        }
        let c2 = crate::numeric::compare_digit_runs(a, ni, di, b, nj, dj);
        match c2 {
            Ordering::Equal => {},
            _ => {
                return c2;
            },
        }
        proof {
            lemma_chunk_progress(sa, sb);
            assert(a@.skip(di as int) =~= sa1.skip(digit_run_len(sa1) as int));
            assert(b@.skip(dj as int) =~= sb1.skip(digit_run_len(sb1) as int));
        }
        i = di;
        j = dj;
    }
}

/// Splits `a` into its leading non-digit run and the remaining suffix.
pub fn non_digit_seq(a: &str) -> (r: (&str, &str))
    ensures
        r.0@ == a@.take(non_digit_run_len(a@) as int),
        r.1@ == a@.skip(non_digit_run_len(a@) as int),
{
    let v = crate::strings::chars_of(a);
    proof {
        assert(v@.skip(0) =~= a@);
        lemma_non_digit_run_len_props(a@);
    }
    let e = non_digit_run_end(&v, 0);
    let n = a.unicode_len();
    (a.substring_char(0, e), a.substring_char(e, n))
}

/// Splits `a` into its leading digit run and the remaining suffix.
pub fn digit_seq(a: &str) -> (r: (&str, &str))
    ensures
        r.0@ == a@.take(digit_run_len(a@) as int),
        r.1@ == a@.skip(digit_run_len(a@) as int),
{
    let v = crate::strings::chars_of(a);
    proof {
        assert(v@.skip(0) =~= a@);
        lemma_digit_run_len_props(a@);
    }
    let e = digit_run_end(&v, 0);
    let n = a.unicode_len();
    (a.substring_char(0, e), a.substring_char(e, n))
}

/// Compares `a` and `b` as non-digit runs, character by character in the
/// version-sort character order.
pub fn compare_non_digit_seq(a: &str, b: &str) -> (r: Ordering)
    ensures
        r == cmp_nondigit(a@, b@),
{
    let va = crate::strings::chars_of(a);
    let vb = crate::strings::chars_of(b);
    proof {
        assert(va@.subrange(0, va@.len() as int) =~= a@);
        assert(vb@.subrange(0, vb@.len() as int) =~= b@);
    }
    compare_non_digit_runs(&va, 0, va.len(), &vb, 0, vb.len())
}

/// Compares `a` and `b` chunk by chunk: alternating non-digit runs (by
/// character rank) and digit runs (by numeric magnitude), until a chunk
/// decides or both strings are exhausted.
pub fn sequence_cmp(a: &str, b: &str) -> (r: Ordering)
    ensures
        r == cmp_chunked(a@, b@),
{
    let va = crate::strings::chars_of(a);
    let vb = crate::strings::chars_of(b);
    sequence_cmp_chars(&va, &vb)
}

} // verus!
