//! Numeric comparison of digit runs.
//!
//! A digit run stands for its numeric value, which may be arbitrarily large:
//! runs are compared by magnitude (strip leading zeros, then compare by
//! length, then digit by digit), never through a fixed-width integer.

use core::cmp::Ordering;
use vstd::prelude::*;

use crate::chars::is_digit;

verus! {

/// The value of a single digit character.
pub open spec fn digit_val(c: char) -> nat {
    if is_digit(c) {
        (c as u32 - '0' as u32) as nat
    } else {
        0
    }
}

/// Every character of `s` is an ASCII decimal digit.
pub open spec fn all_digits(s: Seq<char>) -> bool {
    forall|i: int| 0 <= i < s.len() ==> is_digit(#[trigger] s[i])
}

/// The numeric value of a digit run, read in base ten.
pub open spec fn num_val(s: Seq<char>) -> nat
    recommends
        all_digits(s),
    decreases s.len(),
{
    if s.len() == 0 {
        0
    } else {
        num_val(s.drop_last()) * 10 + digit_val(s.last())
    }
}

/// Ten to the power `n`.
pub open spec fn pow10(n: nat) -> nat
    decreases n,
{
    if n == 0 {
        1
    } else {
        10 * pow10((n - 1) as nat)
    }
}

proof fn lemma_num_val_empty(s: Seq<char>)
    requires
        s.len() == 0,
    ensures
        num_val(s) == 0,
{
}

proof fn lemma_pow10_positive(n: nat)
    ensures
        pow10(n) >= 1,
    decreases n,
{
    if n > 0 {
        lemma_pow10_positive((n - 1) as nat);
    }
}

proof fn lemma_pow10_monotone(m: nat, n: nat)
    requires
        m <= n,
    ensures
        pow10(m) <= pow10(n),
    decreases n,
{
    if m < n {
        lemma_pow10_monotone(m, (n - 1) as nat);
        lemma_pow10_positive((n - 1) as nat);
    }
}

/// A run of `n` digits has value below ten to the `n`.
proof fn lemma_num_val_upper(s: Seq<char>)
    ensures
        num_val(s) < pow10(s.len()),
    decreases s.len(),
{
    if s.len() > 0 {
        lemma_num_val_upper(s.drop_last());
    }
}

/// A run that starts with a nonzero digit has value at least ten to the
/// length minus one.
proof fn lemma_num_val_lower(s: Seq<char>)
    requires
        s.len() > 0,
        is_digit(s[0]),
        s[0] != '0',
    ensures
        num_val(s) >= pow10((s.len() - 1) as nat),
    decreases s.len(),
{
    vstd::utf8::char_u32_cast(s[0], s[0] as u32);
    vstd::utf8::char_u32_cast('0', '0' as u32);
    if s.len() == 1 {
        assert(digit_val(s[0]) >= 1);
    } else {
        lemma_num_val_lower(s.drop_last());
    }
}

/// A leading zero does not change the value of a run.
proof fn lemma_num_val_drop_leading_zero(s: Seq<char>)
    requires
        s.len() > 0,
        s[0] == '0',
    ensures
        num_val(s) == num_val(s.drop_first()),
    decreases s.len(),
{
    if s.len() == 1 {
        lemma_num_val_empty(s.drop_first());
        lemma_num_val_empty(s.drop_last());
        assert(digit_val(s.last()) == 0);
    } else {
        let t = s.drop_last();
        assert(t[0] == s[0]);
        lemma_num_val_drop_leading_zero(t);
        assert(s.drop_first().drop_last() =~= t.drop_first());
        assert(s.drop_first().last() == s.last());
        assert(num_val(s) == num_val(t) * 10 + digit_val(s.last()));
        assert(num_val(s.drop_first()) == num_val(s.drop_first().drop_last()) * 10 + digit_val(
            s.drop_first().last(),
        ));
    }
}

/// Peeling the first digit off a run: the run's value is that digit scaled by
/// ten to the remaining length, plus the value of the rest.
proof fn lemma_num_val_first_digit(s: Seq<char>)
    requires
        s.len() > 0,
    ensures
        num_val(s) == digit_val(s[0]) * pow10((s.len() - 1) as nat) + num_val(s.drop_first()),
    decreases s.len(),
{
    if s.len() == 1 {
        lemma_num_val_empty(s.drop_first());
        lemma_num_val_empty(s.drop_last());
        assert(s.last() == s[0]);
        assert(pow10((s.len() - 1) as nat) == 1);
        assert(num_val(s) == digit_val(s[0]) * pow10((s.len() - 1) as nat) + num_val(
            s.drop_first(),
        ));
    } else {
        let t = s.drop_last();
        lemma_num_val_first_digit(t);
        assert(s.drop_first().drop_last() =~= t.drop_first());
        assert(s.drop_first().last() == s.last());
        assert(t[0] == s[0]);
        let d0 = digit_val(s[0]);
        let p = pow10((t.len() - 1) as nat);
        assert(num_val(s) == num_val(t) * 10 + digit_val(s.last()));
        assert(num_val(t) == d0 * p + num_val(t.drop_first()));
        assert(num_val(s) == (d0 * p + num_val(t.drop_first())) * 10 + digit_val(s.last()));
        assert((d0 * p + num_val(t.drop_first())) * 10 == d0 * p * 10 + num_val(t.drop_first())
            * 10) by (nonlinear_arith);
        assert(d0 * p * 10 == d0 * (p * 10)) by (nonlinear_arith);
        assert(p * 10 == pow10((s.len() - 1) as nat));
        assert(num_val(s.drop_first()) == num_val(t.drop_first()) * 10 + digit_val(
            s.drop_first().last(),
        ));
        assert(num_val(s) == d0 * pow10((s.len() - 1) as nat) + num_val(s.drop_first()));
    }
}

/// Two runs of equal length whose first digits differ compare by that digit.
proof fn lemma_num_val_first_digit_decides(a: Seq<char>, b: Seq<char>)
    requires
        a.len() == b.len(),
        a.len() > 0,
        digit_val(a[0]) < digit_val(b[0]),
    ensures
        num_val(a) < num_val(b),
{
    lemma_num_val_first_digit(a);
    lemma_num_val_first_digit(b);
    let p = pow10((a.len() - 1) as nat);
    lemma_num_val_upper(a.drop_first());
    assert(num_val(a) < (digit_val(a[0]) + 1) * p) by (nonlinear_arith)
        requires
            num_val(a) == digit_val(a[0]) * p + num_val(a.drop_first()),
            num_val(a.drop_first()) < p,
    ;
    assert((digit_val(a[0]) + 1) * p <= digit_val(b[0]) * p) by (nonlinear_arith)
        requires
            digit_val(a[0]) + 1 <= digit_val(b[0]),
            p >= 0,
    ;
    assert(digit_val(b[0]) * p <= num_val(b));
}

/// A strictly longer run with no leading zero has the strictly larger value.
proof fn lemma_num_val_longer(a: Seq<char>, b: Seq<char>)
    requires
        a.len() < b.len(),
        b.len() > 0,
        is_digit(b[0]),
        b[0] != '0',
    ensures
        num_val(a) < num_val(b),
{
    lemma_num_val_upper(a);
    lemma_num_val_lower(b);
    lemma_pow10_monotone(a.len(), (b.len() - 1) as nat);
}

/// A run of zeros has value zero.
pub proof fn lemma_num_val_all_zeros(s: Seq<char>)
    requires
        forall|k: int| 0 <= k < s.len() ==> #[trigger] s[k] == '0',
    ensures
        num_val(s) == 0,
    decreases s.len(),
{
    if s.len() > 0 {
        lemma_num_val_all_zeros(s.drop_last());
        assert(digit_val(s.last()) == 0);
    }
}

/// Runs of equal length that agree on their first `k` digits compare exactly
/// as the parts after those digits do.
proof fn lemma_num_val_equal_prefix(x: Seq<char>, y: Seq<char>, k: int)
    requires
        x.len() == y.len(),
        0 <= k <= x.len(),
        forall|m: int| 0 <= m < k ==> x[m] == y[m],
    ensures
        num_val(x) < num_val(y) <==> num_val(x.skip(k)) < num_val(y.skip(k)),
        num_val(x) == num_val(y) <==> num_val(x.skip(k)) == num_val(y.skip(k)),
    decreases k,
{
    if k == 0 {
        assert(x.skip(0) =~= x);
        assert(y.skip(0) =~= y);
    } else {
        lemma_num_val_equal_prefix(x, y, k - 1);
        let xs = x.skip(k - 1);
        let ys = y.skip(k - 1);
        lemma_num_val_first_digit(xs);
        lemma_num_val_first_digit(ys);
        assert(xs.drop_first() =~= x.skip(k));
        assert(ys.drop_first() =~= y.skip(k));
        assert(xs[0] == ys[0]);
    }
}

/// Decides the order of two digit characters by value.
fn compare_digit_chars(c: char, d: char) -> (r: Ordering)
    requires
        is_digit(c),
        is_digit(d),
    ensures
        r == Ordering::Less <==> digit_val(c) < digit_val(d),
        r == Ordering::Greater <==> digit_val(c) > digit_val(d),
        r == Ordering::Equal <==> digit_val(c) == digit_val(d),
{
    let u = c as u32;
    let v = d as u32;
    if u < v {
        Ordering::Less
    } else if u > v {
        Ordering::Greater
    } else {
        Ordering::Equal
    }
}

/// Compares the digit runs `a[ai..ae]` and `b[bi..be]` by numeric magnitude:
/// leading zeros are skipped, then a longer remaining run wins, then the runs
/// compare digit by digit.
pub fn compare_digit_runs(
    a: &Vec<char>,
    ai: usize,
    ae: usize,
    b: &Vec<char>,
    bi: usize,
    be: usize,
) -> (r: Ordering)
    requires
        ai <= ae <= a@.len(),
        bi <= be <= b@.len(),
        all_digits(a@.subrange(ai as int, ae as int)),
        all_digits(b@.subrange(bi as int, be as int)),
    ensures
        r == Ordering::Less <==> num_val(a@.subrange(ai as int, ae as int)) < num_val(
            b@.subrange(bi as int, be as int),
        ),
        r == Ordering::Greater <==> num_val(a@.subrange(ai as int, ae as int)) > num_val(
            b@.subrange(bi as int, be as int),
        ),
        r == Ordering::Equal <==> num_val(a@.subrange(ai as int, ae as int)) == num_val(
            b@.subrange(bi as int, be as int),
        ),
{
    let ghost va = num_val(a@.subrange(ai as int, ae as int));
    let ghost vb = num_val(b@.subrange(bi as int, be as int));

    // Skip the leading zeros of each run; the value is unchanged.
    let mut i = ai;
    while i < ae && a[i] == '0'
        invariant
            ai <= i <= ae <= a@.len(),
            all_digits(a@.subrange(ai as int, ae as int)),
            num_val(a@.subrange(i as int, ae as int)) == va,
        decreases ae - i,
    {
        proof {
            let cur = a@.subrange(i as int, ae as int);
            lemma_num_val_drop_leading_zero(cur);
            assert(cur.drop_first() =~= a@.subrange(i + 1, ae as int));
        }
        i = i + 1;
    }
    let mut j = bi;
    while j < be && b[j] == '0'
        invariant
            bi <= j <= be <= b@.len(),
            all_digits(b@.subrange(bi as int, be as int)),
            num_val(b@.subrange(j as int, be as int)) == vb,
        decreases be - j,
    {
        proof {
            let cur = b@.subrange(j as int, be as int);
            lemma_num_val_drop_leading_zero(cur);
            assert(cur.drop_first() =~= b@.subrange(j + 1, be as int));
        }
        j = j + 1;
    }

    let ghost sa = a@.subrange(i as int, ae as int);
    let ghost sb = b@.subrange(j as int, be as int);
    proof {
        assert(forall|m: int| 0 <= m < sa.len() ==> sa[m] == a@.subrange(ai as int, ae as int)[m
            + i - ai]);
        assert(forall|m: int| 0 <= m < sb.len() ==> sb[m] == b@.subrange(bi as int, be as int)[m
            + j - bi]);
    }
    let la = ae - i;
    let lb = be - j;

    // A strictly longer remaining run (which starts with a nonzero digit) has
    // the strictly larger value.
    if la < lb {
        proof {
            lemma_num_val_longer(sa, sb);
        }
        return Ordering::Less;
    }
    if lb < la {
        proof {
            lemma_num_val_longer(sb, sa);
        }
        return Ordering::Greater;
    }

    // Equal lengths: the first position where the runs differ decides.
    let mut k: usize = 0;
    while k < la
        invariant
            0 <= k <= la,
            la == lb,
            ai <= i <= ae <= a@.len(),
            bi <= j <= be <= b@.len(),
            la == ae - i,
            lb == be - j,
            sa == a@.subrange(i as int, ae as int),
            sb == b@.subrange(j as int, be as int),
            all_digits(sa),
            all_digits(sb),
            num_val(sa) == va,
            num_val(sb) == vb,
            num_val(a@.subrange(ai as int, ae as int)) == va,
            num_val(b@.subrange(bi as int, be as int)) == vb,
            forall|m: int| 0 <= m < k ==> sa[m] == sb[m],
        decreases la - k,
    {
        let ca = a[i + k];
        let cb = b[j + k];
        proof {
            assert(ca == sa[k as int]);
            assert(cb == sb[k as int]);
        }
        if ca != cb {
            let r = compare_digit_chars(ca, cb);
            proof {
                lemma_num_val_equal_prefix(sa, sb, k as int);
                let xs = sa.skip(k as int);
                let ys = sb.skip(k as int);
                assert(xs[0] == ca);
                assert(ys[0] == cb);
                if digit_val(ca) < digit_val(cb) {
                    lemma_num_val_first_digit_decides(xs, ys);
                    assert(num_val(xs) < num_val(ys));
                    assert(va < vb);
                    assert(r == Ordering::Less);
                } else {
                    vstd::utf8::char_u32_cast(ca, ca as u32);
                    vstd::utf8::char_u32_cast(cb, cb as u32);
                    assert(digit_val(ca) > digit_val(cb));
                    lemma_num_val_first_digit_decides(ys, xs);
                    assert(num_val(ys) < num_val(xs));
                    assert(vb < va);
                    assert(r == Ordering::Greater);
                }
            }
            return r;
        }
        k = k + 1;
    }
    proof {
        lemma_num_val_equal_prefix(sa, sb, la as int);
        lemma_num_val_empty(sa.skip(la as int));
        lemma_num_val_empty(sb.skip(lb as int));
    }
    Ordering::Equal
}

} // verus!
