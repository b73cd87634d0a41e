use core::cmp::Ordering;

use vsort::{compare, compare_non_digit_seq, non_digit_seq, sort, split_extension};

#[test]
fn test_empty_string_vs_tilde_in_sorted_order() {
    let mut list = vec!["", "~"];
    sort(&mut list);
    assert_eq!(list, vec!["", "~"]);
}

#[test]
fn test_empty_string_vs_tilde_in_reversed_order() {
    let mut list = vec!["~", ""];
    sort(&mut list);
    assert_eq!(list, vec!["", "~"]);
}

#[test]
fn test_non_digit_sorting() {
    let mut list = vec!["aaa", "aa", "aab", "aa&", "aa_", "aa~", "a"];
    list.sort_by(|a, b| compare_non_digit_seq(a, b));

    assert_eq!(
        list,
        vec![
            "a", // Absolute shortest comes first
            "aa~", "aa", // Tilde comes before empty string
            "aaa", "aab", "aa&", "aa_", // ASCII letters come before other bytes
        ]
    );
}

#[test]
fn test_non_digit_seq() {
    let a = "file_1.txt";
    let (seq, remainder) = non_digit_seq(a);
    assert_eq!(seq, "file_");
    assert_eq!(remainder, "1.txt");

    let (seq, remainder) = non_digit_seq(&a[5..]);
    assert_eq!(seq, "");
    assert_eq!(remainder, "1.txt");

    let (seq, remainder) = non_digit_seq(&a[6..]);
    assert_eq!(seq, ".txt");
    assert_eq!(remainder, "");
}

#[test]
fn test_unusual_test_case() {
    let mut list = vec![
        "a.txt", "b 1.txt", "b 10.txt", "b 11.txt", "b 5.txt", "Ssm.txt",
    ];
    sort(&mut list);

    assert_eq!(
        list,
        vec!["Ssm.txt", "a.txt", "b 1.txt", "b 5.txt", "b 10.txt", "b 11.txt"]
    );
}

#[test]
fn test_with_non_ascii() {
    let mut list = vec!["αβγ2.txt", "αβγ1.txt", "1αβγ.txt", "2αβγ.txt"];
    sort(&mut list);
    assert_eq!(list, vec!["1αβγ.txt", "2αβγ.txt", "αβγ1.txt", "αβγ2.txt"]);
}

#[test]
fn test_missing_number_part() {
    let mut original_list = vec!["file.txt", "file0.txt"];
    sort(&mut original_list);

    assert_eq!(original_list, vec!["file0.txt", "file.txt"]);

    let mut original_list = vec!["file0.txt", "file.txt"];
    sort(&mut original_list);

    assert_eq!(original_list, vec!["file0.txt", "file.txt"]);
}

#[test]
fn test_sort_with_numbers() {
    let mut list = vec!["8.10", "8.5", "8.1", "8.01", "8.010", "8.100", "8.49"];
    sort(&mut list);
    assert_eq!(list, vec!["8.01", "8.1", "8.5", "8.010", "8.10", "8.49", "8.100"]);
}

#[test]
fn test_period_before_underscore() {
    let mut list = vec!["1.0_src.tar.gz", "1.0.5_src.tar.gz"];
    sort(&mut list);
    assert_eq!(list, vec!["1.0.5_src.tar.gz", "1.0_src.tar.gz"]);
}

#[test]
fn test_period_before_forward_slash() {
    let mut list = vec!["3.0/", "3.0.5"];
    sort(&mut list);
    assert_eq!(list, vec!["3.0.5", "3.0/"]);
}

#[test]
fn test_letters_before_non_letters() {
    let mut list = vec!["a%", "az"];
    sort(&mut list);
    assert_eq!(list, vec!["az", "a%"]);
}

#[test]
fn test_tilde_before_all_other_strings() {
    let mut list = vec!["1", "1%", "1.2", "1~", "~"];
    sort(&mut list);
    assert_eq!(list, vec!["~", "1~", "1", "1%", "1.2"]);
}

#[test]
fn test_sort_ignores_locale() {
    let mut list = vec!["aa", "az", "a%", "aα"];
    sort(&mut list);
    assert_eq!(list, vec!["aa", "az", "a%", "aα"]);
}

#[test]
fn test_special_directories_and_hidden_files_first() {
    let mut list = vec!["a", "b", ".", "c", "..", ".d20", ".d3"];
    sort(&mut list);
    assert_eq!(list, vec![".", "..", ".d3", ".d20", "a", "b", "c"]);
}

#[test]
fn test_split_extension() {
    assert_eq!(split_extension("hello-8.txt"), ("hello-8", ".txt"));
    assert_eq!(split_extension("hello-8.2.txt"), ("hello-8.2", ".txt"));
    assert_eq!(split_extension("hello-8.0.12.tar.gz"), ("hello-8.0.12", ".tar.gz"));
    assert_eq!(split_extension("hello-8.2"), ("hello-8.2", ""));
    assert_eq!(split_extension("hello.foobar65"), ("hello", ".foobar65"));
    assert_eq!(
        split_extension("gcc-c++-10.8.12-0.7rc2.fc9.tar.bz2"),
        ("gcc-c++-10.8.12-0.7rc2", ".fc9.tar.bz2")
    );
    assert_eq!(split_extension(".autom4te.cfg"), ("", ".autom4te.cfg"));
    assert_eq!(split_extension("a.#$%"), ("a.#$%", ""));
    assert_eq!(split_extension("a.#$%.txt"), ("a.#$%", ".txt"));
}

#[test]
fn test_split_extension_edge_cases() {
    assert_eq!(split_extension(""), ("", ""));
    assert_eq!(split_extension("ab."), ("ab.", ""));
    assert_eq!(split_extension("ab.."), ("ab..", ""));
    assert_eq!(split_extension("a.b..c"), (("a.b.", ".c")));
    assert_eq!(split_extension(".9.b"), ((".9", ".b")));
    assert_eq!(split_extension("a.~b"), (("a", ".~b")));
    assert_eq!(split_extension(".x"), ("", ".x"));
}

#[test]
fn test_long_sorted_list() {
    let expected = vec![
        "",
        ".",
        "..",
        ".0",
        ".9",
        ".A",
        ".Z",
        ".a~",
        ".a",
        ".b~",
        ".b",
        ".z",
        ".zz~",
        ".zz",
        ".zz.~1~",
        ".zz.0",
        ".\u{1}",
        ".\u{1}.txt",
        ".\u{1}x",
        ".\u{1}x\u{1}",
        ".\u{1}.0",
        "0",
        "9",
        "A",
        "Z",
        "a~",
        "a",
        "a.b~",
        "a.b",
        "a.bc~",
        "a.bc",
        "a+",
        "a.",
        "a..a",
        "a.+",
        "b~",
        "b",
        "gcc-c++-10.fc9.tar.gz",
        "gcc-c++-10.fc9.tar.gz.~1~",
        "gcc-c++-10.fc9.tar.gz.~2~",
        "gcc-c++-10.8.12-0.7rc2.fc9.tar.bz2",
        "gcc-c++-10.8.12-0.7rc2.fc9.tar.bz2.~1~",
        "glibc-2-0.1.beta1.fc10.rpm",
        "glibc-common-5-0.2.beta2.fc9.ebuild",
        "glibc-common-5-0.2b.deb",
        "glibc-common-11b.ebuild",
        "glibc-common-11-0.6rc2.ebuild",
        "libstdc++-0.5.8.11-0.7rc2.fc10.tar.gz",
        "libstdc++-4a.fc8.tar.gz",
        "libstdc++-4.10.4.20040204svn.rpm",
        "libstdc++-devel-3.fc8.ebuild",
        "libstdc++-devel-3a.fc9.tar.gz",
        "libstdc++-devel-8.fc8.deb",
        "libstdc++-devel-8.6.2-0.4b.fc8",
        "nss_ldap-1-0.2b.fc9.tar.bz2",
        "nss_ldap-1-0.6rc2.fc8.tar.gz",
        "nss_ldap-1.0-0.1a.tar.gz",
        "nss_ldap-10beta1.fc8.tar.gz",
        "nss_ldap-10.11.8.6.20040204cvs.fc10.ebuild",
        "z",
        "zz~",
        "zz",
        "zz.~1~",
        "zz.0",
        "zz.0.txt",
        "\u{1}",
        "\u{1}.txt",
        "\u{1}x",
        "\u{1}x\u{1}",
        "\u{1}.0",
        "#\u{1}.b#",
        "#.b#",
    ];
    let mut list = expected.clone();
    list.reverse();
    assert_ne!(list, expected);
    sort(&mut list);
    assert_eq!(list, expected);
}

#[test]
fn test_privileged_names_alone() {
    assert_eq!(compare("", ""), Ordering::Equal);
    assert_eq!(compare(".", "."), Ordering::Equal);
    assert_eq!(compare("..", ".."), Ordering::Equal);
    assert_eq!(compare("", "."), Ordering::Less);
    assert_eq!(compare(".", ".."), Ordering::Less);
    assert_eq!(compare("..", "~"), Ordering::Less);
    assert_eq!(compare("x", ""), Ordering::Greater);
}
