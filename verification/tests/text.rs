use nailgun::text::{begins_with, decimal, equal, join, less};

#[test]
fn decimal_writes_digits_most_significant_first() {
    assert_eq!(decimal(0), "0");
    assert_eq!(decimal(7), "7");
    assert_eq!(decimal(10), "10");
    assert_eq!(decimal(4096), "4096");
    assert_eq!(decimal(65535), "65535");
    assert_eq!(decimal(usize::MAX), usize::MAX.to_string());
}

#[test]
fn join_keeps_the_order() {
    assert_eq!(join("nailgun_server_", "a.B"), "nailgun_server_a.B");
    assert_eq!(join("", ""), "");
}

#[test]
fn equal_compares_characters() {
    assert!(equal("-cp", "-cp"));
    assert!(!equal("-cp", "-classpath"));
    assert!(!equal("-cp", "-cq"));
    assert!(equal("", ""));
    assert!(equal("caf\u{e9}", "caf\u{e9}"));
}

#[test]
fn begins_with_looks_at_the_first_character_only() {
    assert!(begins_with("-Xmx1g", '-'));
    assert!(!begins_with("x-", '-'));
    assert!(!begins_with("", '-'));
    assert!(begins_with("\u{e9}t\u{e9}", '\u{e9}'));
}

#[test]
fn less_is_the_order_of_the_bytes() {
    assert!(less("a", "b"));
    assert!(!less("b", "a"));
    assert!(!less("a", "a"));
    assert!(less("", "a"));
    assert!(!less("a", ""));
    assert!(!less("", ""));
    assert!(less("ab", "abc"));
    assert!(!less("abc", "ab"));
    assert!(less("Z", "a"));
    assert!(less("a", "\u{e9}"));
    assert!(less("\u{e9}", "\u{4e2d}"));
    let words = ["", "A", "AB", "B", "a", "ab", "b", "\u{e9}", "\u{4e2d}", "\u{1f600}"];
    for x in words {
        for y in words {
            assert_eq!(less(x, y), x < y);
        }
    }
}
