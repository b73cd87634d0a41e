use core::cmp::Ordering;

use vsort::{compare, compare_chars, sequence_cmp, sort};

fn assert_all_pairs_chunk_equal(list: &[&str]) {
    let end = list.len();
    for i in 0..end {
        for j in (i + 1)..end {
            assert_eq!(sequence_cmp(list[i], list[j]), Ordering::Equal);
        }
    }
}

#[test]
fn test_strings_cmp_equal_zeros_same_as_empty() {
    assert_all_pairs_chunk_equal(&["a", "a0", "a0000"]);
}

#[test]
fn test_strings_cmp_equal_non_ascii() {
    assert_all_pairs_chunk_equal(&[
        "a\u{1}c-27.txt",
        "a\u{1}c-027.txt",
        "a\u{1}c-00000000000000000000000000000000000000000000000000000027.txt",
    ]);
}

#[test]
fn test_strings_cmp_equal_non_ascii_with_leading_period() {
    assert_all_pairs_chunk_equal(&[
        ".a\u{1}c-27.txt",
        ".a\u{1}c-027.txt",
        ".a\u{1}c-00000000000000000000000000000000000000000000000000000027.txt",
    ]);
}

#[test]
fn test_strings_cmp_equal_non_ascii_without_extension() {
    assert_all_pairs_chunk_equal(&["a\u{1}c-", "a\u{1}c-0", "a\u{1}c-00"]);
}

#[test]
fn test_strings_cmp_equal_non_ascii_without_extension_and_leading_period() {
    assert_all_pairs_chunk_equal(&[".a\u{1}c-", ".a\u{1}c-0", ".a\u{1}c-00"]);
}

#[test]
fn test_strings_cmp_equal_non_ascii_with_trailing_zeros() {
    assert_all_pairs_chunk_equal(&["a\u{1}c-0.txt", "a\u{1}c-00.txt"]);
}

#[test]
fn test_strings_cmp_equal_non_ascii_with_leading_zeros_before_a_number() {
    assert_all_pairs_chunk_equal(&[".a\u{1}c-1\u{1}.txt", ".a\u{1}c-001\u{1}.txt"]);
}

// Totality and consistency over a mixed corpus: every pair gets exactly one
// verdict, the reverse pair gets the opposite one, equality holds only for a
// string and itself, and the order is transitive.
#[test]
fn test_totality_and_consistency() {
    let corpus = [
        "", ".", "..", "~", "a", "a~", "a0", "a1", "a0001", ".d3", ".d20", "8.1", "8.01",
        "b 5.txt", "b 10.txt", "αβγ1.txt", "a.tar.gz", "a%", "az",
    ];
    for x in corpus.iter() {
        for y in corpus.iter() {
            let xy = compare(x, y);
            let yx = compare(y, x);
            match xy {
                Ordering::Less => assert_eq!(yx, Ordering::Greater),
                Ordering::Equal => assert_eq!(yx, Ordering::Equal),
                Ordering::Greater => assert_eq!(yx, Ordering::Less),
            }
            assert_eq!(xy == Ordering::Equal, x == y);
        }
    }
    for x in corpus.iter() {
        for y in corpus.iter() {
            for z in corpus.iter() {
                if compare(x, y) != Ordering::Greater && compare(y, z) != Ordering::Greater {
                    assert_ne!(compare(x, z), Ordering::Greater);
                }
            }
        }
    }
}

// Idempotence: sorting a sorted list changes nothing.
#[test]
fn test_sort_idempotent() {
    let mut list = vec![
        "b 10.txt", "~", ".d20", "a0001", "..", "8.01", "a~", "", "a", ".d3", "8.1", "a1",
    ];
    sort(&mut list);
    let once = list.clone();
    sort(&mut list);
    assert_eq!(list, once);
}

// Numeric magnitude: digit runs compare by value, not by textual length.
#[test]
fn test_numeric_magnitude_chain() {
    let chain = ["8.01", "8.1", "8.5", "8.010", "8.10", "8.49", "8.100"];
    for w in chain.windows(2) {
        assert_eq!(compare(w[0], w[1]), Ordering::Less);
    }
}

// Digit runs longer than any fixed-width integer still compare by magnitude.
#[test]
fn test_huge_digit_runs() {
    // 2^64 and 2^64 - 1: both beyond what a 64-bit parse could order.
    assert_eq!(
        compare("a-18446744073709551616.txt", "a-18446744073709551615.txt"),
        Ordering::Greater
    );
    assert_eq!(
        compare(
            "a-99999999999999999999999999999999999999999999999999.txt",
            "a-100000000000000000000000000000000000000000000000000.txt"
        ),
        Ordering::Less
    );
    assert_eq!(
        sequence_cmp(
            "x00000000000000000000000000000000000000000000000000007",
            "x7"
        ),
        Ordering::Equal
    );
}

// Leading-zero equivalence at the chunk level: a trailing zero run weighs
// nothing, and leading zeros never affect a run's value. The comparator
// itself breaks such ties by raw code points, so the full strings still get
// a definite order.
#[test]
fn test_leading_zero_equivalence() {
    assert_eq!(sequence_cmp("a0", "a"), Ordering::Equal);
    assert_eq!(sequence_cmp("a0000", "a"), Ordering::Equal);
    assert_eq!(sequence_cmp("a008b", "a8b"), Ordering::Equal);
    assert_eq!(compare("a0", "a"), Ordering::Greater);
    assert_eq!(compare("a0", "a0"), Ordering::Equal);
}

// Tilde law: appending a tilde sorts strictly earlier, for every string but
// the privileged names.
#[test]
fn test_tilde_appended_sorts_earlier() {
    for s in ["a", "a1", "zz", ".hidden", "x.tar.gz", "~", "a.", "1"].iter() {
        let with_tilde = format!("{}~", s);
        assert_eq!(compare(&with_tilde, s), Ordering::Less);
    }
    // The privileged names come first regardless.
    assert_eq!(compare("~", ""), Ordering::Greater);
    assert_eq!(compare(".~", "."), Ordering::Greater);
    assert_eq!(compare("..~", ".."), Ordering::Greater);
}

// The character ranker is a total order on characters extended with the
// end-of-string marker: reflexive only on equal values, antisymmetric, and
// transitive; tilde first, then end-of-string, then letters, then the rest.
#[test]
fn test_char_ranker_total_order() {
    let corpus = [
        Some('~'),
        None,
        Some('A'),
        Some('Z'),
        Some('a'),
        Some('z'),
        Some('%'),
        Some('0'),
        Some('.'),
        Some('\u{1}'),
        Some('α'),
    ];
    for x in corpus.iter() {
        for y in corpus.iter() {
            let xy = compare_chars(*x, *y);
            let yx = compare_chars(*y, *x);
            match xy {
                Ordering::Less => assert_eq!(yx, Ordering::Greater),
                Ordering::Equal => assert_eq!(yx, Ordering::Equal),
                Ordering::Greater => assert_eq!(yx, Ordering::Less),
            }
            assert_eq!(xy == Ordering::Equal, x == y);
            for z in corpus.iter() {
                if compare_chars(*x, *y) != Ordering::Greater
                    && compare_chars(*y, *z) != Ordering::Greater
                {
                    assert_ne!(compare_chars(*x, *z), Ordering::Greater);
                }
            }
        }
    }
    assert_eq!(compare_chars(Some('~'), None), Ordering::Less);
    assert_eq!(compare_chars(None, Some('%')), Ordering::Less);
    assert_eq!(compare_chars(Some('z'), Some('%')), Ordering::Less);
    assert_eq!(compare_chars(Some('Z'), Some('a')), Ordering::Less);
    assert_eq!(compare_chars(Some('%'), Some('α')), Ordering::Less);
}

// Final tie-break: strings whose chunks all tie still compare unequal, in a
// fixed direction.
#[test]
fn test_final_tie_break() {
    assert_eq!(sequence_cmp("a0001", "a1"), Ordering::Equal);
    assert_ne!(compare("a0001", "a1"), Ordering::Equal);
    assert_eq!(compare("a0001", "a1"), Ordering::Less);
    assert_eq!(compare("a1", "a0001"), Ordering::Greater);
}
