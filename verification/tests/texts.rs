//! Text helpers, held against those of the standard library.

use francis::names::NameSet;
use francis::text::{
    chars_of, decimal_text, occurs, pad_right, parse_i64, replace_all, same_text,
    signed_decimal_text, trim_trailing_slashes,
};

#[test]
fn numerals() {
    for n in [0u64, 1, 9, 10, 99, 100, 12_345, u64::MAX] {
        assert_eq!(decimal_text(n), n.to_string());
    }
    for n in [0i64, -1, 1, -10, 4_200, i64::MAX, i64::MIN] {
        assert_eq!(signed_decimal_text(n), n.to_string());
        assert_eq!(parse_i64(&n.to_string()), Some(n));
    }
}

#[test]
fn reading_numerals() {
    let texts = [
        "", "+", "-", "0", "-0", "+0", "007", "+7", "-7", "--7", "+-7", "7 ", " 7", "7a", "1_000",
        "9223372036854775807", "9223372036854775808", "-9223372036854775808",
        "-9223372036854775809", "00000000000000000000000000001", "99999999999999999999999999",
        "\u{0663}", "1.5", "1704110400000000000",
    ];
    for text in texts {
        assert_eq!(parse_i64(text), text.parse::<i64>().ok(), "{:?}", text);
    }
}

#[test]
fn trailing_slashes() {
    for url in ["", "/", "//", "http://localhost:3100", "http://localhost:3100//", "/a/", "a/b"] {
        assert_eq!(trim_trailing_slashes(url), url.trim_end_matches('/'));
    }
}

#[test]
fn padding() {
    for (text, width) in [("", 3), ("ab", 2), ("ab", 5), ("abc", 1), ("\u{e9}\u{1F600}", 4)] {
        assert_eq!(pad_right(text, width), format!("{:<width$}", text, width = width));
    }
}

#[test]
fn replacement() {
    let cases = [
        ("", "a", "b"),
        ("aaa", "aa", "b"),
        ("abab", "ab", ""),
        ("${a}${a}", "${a}", "x${a}"),
        ("\\\"x\\\"", "\\\"", "\""),
        ("caf\u{e9}", "\u{e9}", "e"),
    ];
    for (text, from, to) in cases {
        assert_eq!(replace_all(text, from, to), text.replace(from, to));
    }
}

#[test]
fn characters() {
    assert_eq!(chars_of("a\u{e9}"), vec!['a', '\u{e9}']);
    assert!(same_text("now", "now"));
    assert!(!same_text("now", "no"));
    let text = chars_of("abcab");
    let part = chars_of("ab");
    assert!(occurs(&text, &part, 0));
    assert!(!occurs(&text, &part, 1));
    assert!(occurs(&text, &part, 3));
    assert!(!occurs(&text, &part, 4));
}

#[test]
fn sets_of_names() {
    let mut a = NameSet::new();
    assert!(a.insert("x".to_owned()));
    assert!(!a.insert("x".to_owned()));
    let mut b = a.duplicate();
    assert!(b.insert("y".to_owned()));
    assert!(!a.contains(&"y".to_owned()));
    let mut c = NameSet::new();
    c.insert("y".to_owned());
    c.insert("z".to_owned());
    let both = b.common(&c);
    assert!(both.contains(&"y".to_owned()));
    assert!(!both.contains(&"x".to_owned()) && !both.contains(&"z".to_owned()));
    a.extend(&c);
    assert!(a.contains(&"x".to_owned()) && a.contains(&"z".to_owned()));
}
