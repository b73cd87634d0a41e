//! The filename-extension splitter.
//!
//! An extension is a maximal trailing run of segments, each a dot followed by
//! an ASCII letter or `~` followed by any number of ASCII letters, digits or
//! `~`, anchored at the end of the string. The split point is the leftmost
//! position whose suffix consists entirely of such segments.

use vstd::prelude::*;
use vstd::string::StrSliceExecFns;

use crate::chars::{is_ascii_letter, is_digit};

verus! {

/// `c` may start an extension segment, right after the dot.
pub open spec fn is_seg_start(c: char) -> bool {
    is_ascii_letter(c) || c == '~'
}

/// `c` may stand in the body of an extension segment.
pub open spec fn is_seg_body(c: char) -> bool {
    is_ascii_letter(c) || is_digit(c) || c == '~'
}

/// The length of the leading run of segment-body characters of `s`.
pub open spec fn seg_body_len(s: Seq<char>) -> nat
    decreases s.len(),
{
    if s.len() == 0 {
        0
    } else if !is_seg_body(s[0]) {
        0
    } else {
        1 + seg_body_len(s.drop_first())
    }
}

/// The leading segment-body run is the longest prefix of body characters.
pub proof fn lemma_seg_body_len_props(s: Seq<char>)
    ensures
        seg_body_len(s) <= s.len(),
        forall|k: int| 0 <= k < seg_body_len(s) ==> is_seg_body(#[trigger] s[k]),
        seg_body_len(s) < s.len() ==> !is_seg_body(s[seg_body_len(s) as int]),
    decreases s.len(),
{
    if s.len() > 0 && is_seg_body(s[0]) {
        lemma_seg_body_len_props(s.drop_first());
        assert forall|k: int| 0 <= k < seg_body_len(s) implies is_seg_body(#[trigger] s[k]) by {
            if k > 0 {
                assert(s.drop_first()[k - 1] == s[k]);
            }
        }
        if seg_body_len(s) < s.len() {
            assert(s.drop_first()[seg_body_len(s.drop_first()) as int] == s[seg_body_len(
                s,
            ) as int]);
        }
    }
}

/// A prefix of body characters bounded by a non-body character (or the end)
/// is the leading segment-body run.
pub proof fn lemma_seg_body_len_unique(s: Seq<char>, n: int)
    requires
        0 <= n <= s.len(),
        forall|k: int| 0 <= k < n ==> is_seg_body(#[trigger] s[k]),
        n == s.len() || !is_seg_body(s[n]),
    ensures
        seg_body_len(s) == n,
{
    lemma_seg_body_len_props(s);
    let rl = seg_body_len(s) as int;
    if rl < n {
        assert(!is_seg_body(s[rl]));
        assert(false);
    }
    if rl > n {
        assert(is_seg_body(s[n]));
        assert(false);
    }
}

/// `s` consists entirely of extension segments (possibly none): each is a
/// dot, a letter or `~`, and a run of letters, digits and `~`.
pub open spec fn is_ext(s: Seq<char>) -> bool
    decreases s.len(),
{
    if s.len() == 0 {
        true
    } else if s[0] != '.' {
        false
    } else if s.len() == 1 {
        false
    } else if !is_seg_start(s[1]) {
        false
    } else {
        proof {
            lemma_seg_body_len_props(s.skip(2));
        }
        is_ext(s.skip(2 + seg_body_len(s.skip(2)) as int))
    }
}

/// The split point of `s`: the leftmost position whose suffix is entirely
/// extension segments. It always exists, because the empty suffix qualifies.
pub open spec fn split_idx(s: Seq<char>) -> nat
    decreases s.len(),
{
    if is_ext(s) {
        0
    } else {
        1 + split_idx(s.drop_first())
    }
}

/// The split point lies in the string, its suffix is an extension, and no
/// earlier suffix is one.
pub proof fn lemma_split_idx_props(s: Seq<char>)
    ensures
        split_idx(s) <= s.len(),
        is_ext(s.skip(split_idx(s) as int)),
        forall|i: int| 0 <= i < split_idx(s) ==> !is_ext(#[trigger] s.skip(i)),
    decreases s.len(),
{
    if is_ext(s) {
        assert(s.skip(0) =~= s);
    } else {
        lemma_split_idx_props(s.drop_first());
        assert(split_idx(s) == 1 + split_idx(s.drop_first()));
        assert(is_ext(s.drop_first().skip(split_idx(s.drop_first()) as int)));
        assert(s.skip(split_idx(s) as int) =~= s.drop_first().skip(split_idx(s.drop_first()) as int));
        assert forall|i: int| 0 <= i < split_idx(s) implies !is_ext(#[trigger] s.skip(i)) by {
            if i > 0 {
                assert(s.skip(i) =~= s.drop_first().skip(i - 1));
            } else {
                assert(s.skip(0) =~= s);
            }
        }
    }
}

/// Every character of an extension is a segment-body character or a dot, and
/// every dot is followed, inside the extension, by a segment-start character.
pub proof fn lemma_ext_struct(t: Seq<char>)
    requires
        is_ext(t),
    ensures
        forall|k: int| 0 <= k < t.len() ==> is_seg_body(#[trigger] t[k]) || t[k] == '.',
        forall|k: int|
            0 <= k < t.len() && #[trigger] t[k] == '.' ==> k + 1 < t.len() && is_seg_start(
                t[k + 1],
            ),
    decreases t.len(),
{
    if t.len() > 0 {
        let k = seg_body_len(t.skip(2)) as int;
        let rest = t.skip(2 + k);
        lemma_seg_body_len_props(t.skip(2));
        lemma_ext_struct(rest);
        assert forall|m: int| 0 <= m < t.len() implies is_seg_body(#[trigger] t[m]) || t[m]
            == '.' by {
            if m == 0 {
            } else if m == 1 {
            } else if m < 2 + k {
                assert(t[m] == t.skip(2)[m - 2]);
            } else {
                assert(t[m] == rest[m - (2 + k)]);
            }
        }
        assert forall|m: int|
            0 <= m < t.len() && #[trigger] t[m] == '.' implies m + 1 < t.len() && is_seg_start(
            t[m + 1],
        ) by {
            if m == 0 {
            } else if m == 1 {
                // The segment-start character is never a dot.
                assert(false);
            } else if 2 <= m < 2 + k {
                // A body character is never a dot.
                assert(t[m] == t.skip(2)[m - 2]);
                assert(false);
            } else {
                assert(t[m] == rest[m - (2 + k)]);
                assert(rest[m - (2 + k)] == '.');
                assert(m - (2 + k) + 1 < rest.len());
                assert(t[m + 1] == rest[m - (2 + k) + 1]);
            }
        }
    }
}

/// Inside a span whose characters are all body characters or dots, and whose
/// dots are each followed by a segment-start character, every dot starts an
/// extension that runs to the end of the string.
pub proof fn lemma_region_ext(s: Seq<char>, lo: int, d: int)
    requires
        0 <= lo <= d < s.len(),
        s[d] == '.',
        forall|k: int| lo <= k < s.len() ==> is_seg_body(#[trigger] s[k]) || s[k] == '.',
        forall|k: int|
            lo <= k < s.len() && #[trigger] s[k] == '.' ==> k + 1 < s.len() && is_seg_start(
                s[k + 1],
            ),
    ensures
        is_ext(s.skip(d)),
    decreases s.len() - d,
{
    let t = s.skip(d);
    assert(t[0] == s[d]);
    assert(d + 1 < s.len() && is_seg_start(s[d + 1]));
    assert(t[1] == s[d + 1]);
    let body = t.skip(2);
    assert(body =~= s.skip(d + 2));
    let k = seg_body_len(body) as int;
    lemma_seg_body_len_props(body);
    let m = d + 2 + k;
    if m == s.len() {
        assert(t.skip(2 + k).len() == 0);
        assert(is_ext(t.skip(2 + k)));
    } else {
        // The body run stops at a character that is not body material; inside
        // the span that can only be a dot, which starts the next segment.
        assert(body[k] == s[m]);
        assert(!is_seg_body(s[m]));
        assert(s[m] == '.');
        lemma_region_ext(s, lo, m);
        assert(t.skip(2 + k) =~= s.skip(m));
    }
}

/// A nonempty extension stays an extension when a `~` is appended: the tilde
/// joins the body of the last segment.
pub proof fn lemma_is_ext_append_tilde(x: Seq<char>)
    requires
        is_ext(x),
        x.len() > 0,
    ensures
        is_ext(x + seq!['~']),
    decreases x.len(),
{
    let t = x + seq!['~'];
    let k = seg_body_len(x.skip(2)) as int;
    let rest = x.skip(2 + k);
    lemma_seg_body_len_props(x.skip(2));
    assert(t[0] == x[0] && t[1] == x[1]);
    if rest.len() == 0 {
        // The whole tail of `x` is the last segment's body; `~` extends it.
        assert forall|m: int| 0 <= m < k + 1 implies is_seg_body(#[trigger] t.skip(2)[m]) by {
            if m < k {
                assert(t.skip(2)[m] == x.skip(2)[m]);
            } else {
                assert(t.skip(2)[m] == '~');
            }
        }
        lemma_seg_body_len_unique(t.skip(2), k + 1);
        assert(t.skip(2 + (k + 1)).len() == 0);
        assert(is_ext(t.skip(2 + (k + 1))));
    } else {
        // Another segment follows; the body run is unchanged and the tilde
        // lands in that later segment.
        reveal_with_fuel(is_ext, 2);
        assert(is_ext(rest));
        assert(rest[0] == '.');
        assert forall|m: int| 0 <= m < k implies is_seg_body(#[trigger] t.skip(2)[m]) by {
            assert(t.skip(2)[m] == x.skip(2)[m]);
        }
        assert(t.skip(2)[k] == rest[0]);
        lemma_seg_body_len_unique(t.skip(2), k);
        assert(t.skip(2 + k) =~= rest + seq!['~']);
        lemma_is_ext_append_tilde(rest);
    }
}

/// The index just past the segment-body run of `v` that starts at `start`.
fn seg_body_run_end(v: &Vec<char>, start: usize) -> (e: usize)
    requires
        start <= v@.len(),
    ensures
        start <= e <= v@.len(),
        e - start == seg_body_len(v@.skip(start as int)),
{
    let n = v.len();
    let mut k = start;
    while k < n
        invariant
            start <= k <= n,
            n == v@.len(),
            forall|m: int| start <= m < k ==> is_seg_body(#[trigger] v@[m]),
        ensures
            start <= k <= n,
            n == v@.len(),
            forall|m: int| start <= m < k ==> is_seg_body(#[trigger] v@[m]),
            k == n || !is_seg_body(v@[k as int]),
        decreases n - k,
    {
        if !seg_body_char(v[k]) {
            break ;
        }
        k = k + 1;
    }
    proof {
        let s = v@.skip(start as int);
        lemma_seg_body_len_props(s);
        let rl = seg_body_len(s) as int;
        if rl < k - start {
            assert(s[rl] == v@[start + rl]);
            assert(false);
        }
        if rl > k - start {
            assert(s[k - start] == v@[k as int]);
            assert(false);
        }
    }
    k
}

/// Decides whether `c` may start an extension segment.
fn seg_start_char(c: char) -> (r: bool)
    ensures
        r == is_seg_start(c),
{
    let u = c as u32;
    (97 <= u && u <= 122) || (65 <= u && u <= 90) || u == 126
}

/// Decides whether `c` may stand in the body of an extension segment.
fn seg_body_char(c: char) -> (r: bool)
    ensures
        r == is_seg_body(c),
{
    let u = c as u32;
    (97 <= u && u <= 122) || (65 <= u && u <= 90) || (48 <= u && u <= 57) || u == 126
}

/// The split point of `v`: the leftmost position whose suffix consists
/// entirely of extension segments. One right-to-left pass suffices: the scan
/// stops at the first character that no extension may contain, and remembers
/// the leftmost dot that opens a valid chain of segments.
pub(crate) fn split_point(v: &Vec<char>) -> (r: usize)
    ensures
        r == split_idx(v@),
{
    let n = v.len();
    let mut i = n;
    let mut split = n;
    while i > 0
        invariant
            i <= split <= n,
            n == v@.len(),
            forall|k: int| i <= k < n ==> is_seg_body(#[trigger] v@[k]) || v@[k] == '.',
            forall|k: int|
                i <= k < n && #[trigger] v@[k] == '.' ==> k + 1 < n && is_seg_start(v@[k + 1]),
            forall|k: int| i <= k < split ==> #[trigger] v@[k] != '.',
            split < n ==> v@[split as int] == '.',
        ensures
            i == 0 || (!is_seg_body(v@[i - 1]) && v@[i - 1] != '.') || (v@[i - 1] == '.' && (i
                == n || !is_seg_start(v@[i as int]))),
        decreases i,
    {
        let c = v[i - 1];
        if c == '.' {
            if i == n {
                break ;
            }
            if !seg_start_char(v[i]) {
                break ;
            }
            split = i - 1;
            i = i - 1;
        } else if seg_body_char(c) {
            i = i - 1;
        } else {
            break ;
        }
    }
    proof {
        // The remembered dot (or the string's end) starts an extension.
        if split < n {
            lemma_region_ext(v@, i as int, split as int);
        } else {
            assert(v@.skip(split as int).len() == 0);
            assert(is_ext(v@.skip(split as int)));
        }
        // No earlier suffix is one: left of the remembered dot the scanned
        // span holds no dot at all, and the character the scan stopped at can
        // stand nowhere in an extension.
        assert forall|m: int| 0 <= m < split implies !is_ext(#[trigger] v@.skip(m)) by {
            if is_ext(v@.skip(m)) {
                assert(v@.skip(m).len() > 0);
                assert(v@.skip(m)[0] == v@[m]);
                if m >= i {
                    assert(v@[m] != '.');
                    assert(false);
                } else {
                    lemma_ext_struct(v@.skip(m));
                    let k = i - 1 - m;
                    assert(v@.skip(m)[k] == v@[i - 1]);
                    if v@[i - 1] == '.' {
                        assert(k + 1 < v@.skip(m).len() && is_seg_start(v@.skip(m)[k + 1]));
                        assert(i < n);
                        assert(v@.skip(m)[k + 1] == v@[i as int]);
                        assert(false);
                    } else {
                        assert(is_seg_body(v@.skip(m)[k]) || v@.skip(m)[k] == '.');
                        assert(false);
                    }
                }
            }
        }
        if split != split_idx(v@) {
            lemma_split_idx_props(v@);
            assert(false);
        }
    }
    split
}

/// Splits `s` into `(base, extension)`: the extension is the maximal trailing
/// run of dot-introduced segments, and the base is everything before it. A
/// string without such a suffix keeps its full length as the base.
pub fn split_extension(s: &str) -> (r: (&str, &str))
    ensures
        r.0@ == s@.take(split_idx(s@) as int),
        r.1@ == s@.skip(split_idx(s@) as int),
{
    let v = crate::strings::chars_of(s);
    let i = split_point(&v);
    proof {
        lemma_split_idx_props(s@);
    }
    let nn = s.unicode_len();
    (s.substring_char(0, i), s.substring_char(i, nn))
}

} // verus!
