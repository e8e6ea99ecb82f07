//! Captures from log lines and their use in patterns.

use francis::captures::{apply_captures, extract_regexp_captures, store_groups, CaptureStore};
use francis::pattern::template_refs;

fn store(pairs: &[(&str, &str)]) -> CaptureStore {
    let mut captures = CaptureStore::new();
    for (name, value) in pairs {
        captures.insert((*name).to_owned(), (*value).to_owned());
    }
    captures
}

fn get(captures: &CaptureStore, name: &str) -> Option<String> {
    captures.get(&name.to_owned())
}

#[test]
fn the_last_value_of_a_name_counts() {
    let mut captures = store(&[("a", "1"), ("b", "2"), ("a", "3")]);
    assert_eq!(captures.len(), 2);
    assert_eq!(get(&captures, "a").as_deref(), Some("3"));
    assert_eq!(get(&captures, "b").as_deref(), Some("2"));
    assert_eq!(get(&captures, "c"), None);
    captures.extend(&store(&[("b", "4"), ("c", "5")]));
    assert_eq!(captures.len(), 3);
    assert_eq!(get(&captures, "a").as_deref(), Some("3"));
    assert_eq!(get(&captures, "b").as_deref(), Some("4"));
    assert_eq!(get(&captures, "c").as_deref(), Some("5"));
}

#[test]
fn captures_are_filled_in() {
    let captures = store(&[("conn_id", "ab-12"), ("user", "eve")]);
    assert_eq!(
        apply_captures("|= \"${user}\" |= \"id=${conn_id}\" |~ \"${user}$\" ${other}", &captures),
        "|= \"eve\" |= \"id=ab-12\" |~ \"eve$\" ${other}"
    );
    assert_eq!(apply_captures("no placeholders {user} $user", &captures), "no placeholders {user} $user");
    assert_eq!(apply_captures("${user}", &CaptureStore::new()), "${user}");
}

#[test]
fn no_reference_is_left_when_all_are_captured() {
    let captures = store(&[("a", "x$y"), ("b", "{a}")]);
    let pattern = "|= \"${a}\" |= \"${b}${a}\"";
    assert_eq!(template_refs(pattern), vec!["a", "b", "a"]);
    let filled = apply_captures(pattern, &captures);
    assert_eq!(filled, "|= \"x$y\" |= \"{a}x$y\"");
    assert!(template_refs(&filled).is_empty());
}

#[test]
fn captures_of_a_line() {
    let pattern = "|= \"accepted\" | regexp \"conn_id=(?P<conn_id>[a-f0-9-]+)\" \
                   | regexp \"user=\\\"(?P<user>[^\\\"]*)\\\"( as (?P<role>[a-z]+))?\"";
    let found = extract_regexp_captures(pattern, "accepted conn_id=ab-12 user=\"eve\"");
    assert_eq!(found.len(), 2);
    assert_eq!(get(&found, "conn_id").as_deref(), Some("ab-12"));
    assert_eq!(get(&found, "user").as_deref(), Some("eve"));
    assert_eq!(get(&found, "role"), None);

    let found = extract_regexp_captures(pattern, "accepted user=\"eve\" as admin");
    assert_eq!(found.len(), 2);
    assert_eq!(get(&found, "role").as_deref(), Some("admin"));
}

#[test]
fn expressions_that_do_not_match_or_compile_capture_nothing() {
    assert_eq!(extract_regexp_captures("| regexp \"(?P<a>x)\"", "y").len(), 0);
    assert_eq!(extract_regexp_captures("| regexp \"(?P<a>x\"", "x").len(), 0);
    assert_eq!(extract_regexp_captures("|= \"(?P<a>x)\"", "x").len(), 0);
    let found = extract_regexp_captures("| regexp \"(\" | regexp \"(?P<a>x+)\"", "zxx");
    assert_eq!(get(&found, "a").as_deref(), Some("xx"));
}

#[test]
fn only_named_groups_that_match_are_stored() {
    let names = vec![None, Some("a".to_owned()), None, Some("b".to_owned())];
    let groups = vec![
        Some("whole".to_owned()),
        Some("1".to_owned()),
        Some("2".to_owned()),
        None,
    ];
    let mut captures = store(&[("b", "old")]);
    store_groups(&names, &groups, &mut captures);
    assert_eq!(captures.len(), 2);
    assert_eq!(get(&captures, "a").as_deref(), Some("1"));
    assert_eq!(get(&captures, "b").as_deref(), Some("old"));
}

#[test]
fn captured_values_are_parts_of_the_line() {
    let line = "caf\u{e9} n=42 m=\u{1F600}x";
    let found = extract_regexp_captures(
        "| regexp \"(?P<n>n=[0-9]+)\" | regexp \"m=(?P<m>.)(?P<e>y*)\" | regexp \"^(?P<w>.{4})\"",
        line,
    );
    assert_eq!(found.len(), 4);
    for name in ["n", "m", "e", "w"] {
        assert!(line.contains(&get(&found, name).unwrap()));
    }
    assert_eq!(get(&found, "m").as_deref(), Some("\u{1F600}"));
    assert_eq!(get(&found, "w").as_deref(), Some("caf\u{e9}"));
}
