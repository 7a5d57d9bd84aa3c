use btrfs_subvolume_tree::decimal::parse_u64;
use btrfs_subvolume_tree::path::{
    relative_to, same_text, skip_chars, starts_with, without_prefix, without_repeated_prefix,
    without_separator, SEPARATOR,
};

#[test]
fn separator_is_a_slash() {
    assert_eq!(SEPARATOR, '/');
}

#[test]
fn starts_with_agrees_with_std() {
    let cases = [
        ("", ""),
        ("abc", ""),
        ("", "a"),
        ("abc", "ab"),
        ("abc", "abc"),
        ("abc", "abcd"),
        ("abc", "b"),
        ("/home/alice", "/home"),
        ("héllo", "hé"),
        ("héllo", "he"),
    ];
    for (s, prefix) in cases {
        assert_eq!(starts_with(s, prefix), s.starts_with(prefix), "{s:?} {prefix:?}");
    }
}

#[test]
fn same_text_is_equality() {
    assert!(same_text("btrfs", "btrfs"));
    assert!(same_text("", ""));
    assert!(!same_text("btrfs", "btrfs2"));
    assert!(!same_text("btrfs2", "btrfs"));
    assert!(!same_text("btrfs", "ext4"));
    assert!(!same_text("abc", "abd"));
}

#[test]
fn skip_chars_counts_characters_not_bytes() {
    assert_eq!(skip_chars("héllo", 2), "llo");
    assert_eq!(skip_chars("abc", 0), "abc");
    assert_eq!(skip_chars("abc", 3), "");
}

#[test]
fn without_prefix_takes_it_once() {
    assert_eq!(without_prefix("/a/b", "/a"), "/b");
    assert_eq!(without_prefix("aab", "a"), "ab");
    assert_eq!(without_prefix("/a/b", "/c"), "/a/b");
    assert_eq!(without_prefix("/a", ""), "/a");
    assert_eq!(without_prefix("/a", "/a"), "");
}

#[test]
fn without_separator_takes_one() {
    assert_eq!(without_separator("/a"), "a");
    assert_eq!(without_separator("//a"), "/a");
    assert_eq!(without_separator("a/"), "a/");
    assert_eq!(without_separator(""), "");
    assert_eq!(without_separator("/"), "");
}

#[test]
fn relative_to_a_known_parent() {
    assert_eq!(relative_to("/a/b", &Some("/a".to_owned())), "b");
    assert_eq!(relative_to("/a/b/c", &Some("/a".to_owned())), "b/c");
    assert_eq!(relative_to("/a", &Some("".to_owned())), "a");
    assert_eq!(relative_to("/ab", &Some("/a".to_owned())), "b");
    assert_eq!(relative_to("/x/y", &Some("/a".to_owned())), "x/y");
    assert_eq!(relative_to("/a", &Some("/a".to_owned())), "");
}

#[test]
fn relative_to_an_unknown_parent_changes_nothing() {
    assert_eq!(relative_to("/a/b", &None), "/a/b");
}

#[test]
fn repeated_prefix_is_taken_as_often_as_it_stands() {
    assert_eq!(without_repeated_prefix("subvolid=5", "subvolid="), "5");
    assert_eq!(without_repeated_prefix("subvolid=subvolid=5", "subvolid="), "5");
    assert_eq!(without_repeated_prefix("aaab", "a"), "b");
    assert_eq!(without_repeated_prefix("abab", "ab"), "");
    assert_eq!(without_repeated_prefix("xab", "ab"), "xab");
    assert_eq!(without_repeated_prefix("abc", ""), "abc");
    assert_eq!(
        without_repeated_prefix("subvolid=subvolid=5", "subvolid="),
        "subvolid=subvolid=5".trim_start_matches("subvolid=")
    );
}

#[test]
fn parse_u64_reads_digits() {
    assert_eq!(parse_u64("0"), Some(0));
    assert_eq!(parse_u64("5"), Some(5));
    assert_eq!(parse_u64("256"), Some(256));
    assert_eq!(parse_u64("007"), Some(7));
    assert_eq!(parse_u64("+42"), Some(42));
    assert_eq!(parse_u64("18446744073709551615"), Some(u64::MAX));
}

#[test]
fn parse_u64_refuses_what_is_no_number() {
    for text in [
        "",
        "+",
        "-",
        "-5",
        "++5",
        "+-5",
        "5 ",
        " 5",
        "5a",
        "a5",
        "1_000",
        "0x10",
        "5.0",
        "18446744073709551616",
        "99999999999999999999999",
        "1844674407370955161a",
        "٥",
    ] {
        assert_eq!(parse_u64(text), None, "{text:?}");
    }
}

#[test]
fn parse_u64_agrees_with_std() {
    for text in [
        "", "+", "0", "+0", "00", "1", "+1", "-1", "12345678901234567890", "18446744073709551615",
        "18446744073709551616", "18446744073709551614", "184467440737095516150", "1 ", "x", "+x",
        "9999999999999999999", "09999999999999999999", "000000000000000000000000001",
    ] {
        assert_eq!(parse_u64(text), text.parse::<u64>().ok(), "{text:?}");
    }
}
