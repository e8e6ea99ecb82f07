//! The grammar of log patterns, held against regular expressions for it.

use francis::pattern::{
    capture_names, defined_capture_names, regexp_strings, space, template_refs,
};
use regex::Regex;

/// Every text that is made of at most `len` of the given parts.
fn texts(parts: &[&str], len: usize) -> Vec<String> {
    let mut all: Vec<String> = vec![String::new()];
    let mut last: Vec<String> = vec![String::new()];
    for _ in 0..len {
        let mut next: Vec<String> = Vec::new();
        for text in &last {
            for part in parts {
                next.push(format!("{}{}", text, part));
            }
        }
        all.extend(next.iter().cloned());
        last = next;
    }
    all
}

fn first_groups(re: &Regex, text: &str) -> Vec<String> {
    re.captures_iter(text).map(|c| c[1].to_owned()).collect()
}

#[test]
fn regexp_stages_are_those_of_the_expression() {
    let re = Regex::new(r#"\|\s*regexp\s*"((?:[^"\\]|\\.)*)""#).unwrap();
    let parts = ["|", " ", "regexp", "\"", "\\", "a", "\n", "\u{2003}"];
    for text in texts(&parts, 4) {
        let expected: Vec<String> =
            first_groups(&re, &text).iter().map(|s| s.replace("\\\"", "\"")).collect();
        assert_eq!(regexp_strings(&text), expected, "{:?}", text);
    }
    let long = ["| regexp \"", "\"", "\\", "a", "\n", "|", "\\\""];
    for text in texts(&long, 5) {
        let expected: Vec<String> =
            first_groups(&re, &text).iter().map(|s| s.replace("\\\"", "\"")).collect();
        assert_eq!(regexp_strings(&text), expected, "{:?}", text);
    }
}

#[test]
fn template_references_are_those_of_the_expression() {
    let re = Regex::new(r"\$\{([^}]+)\}").unwrap();
    for text in texts(&["$", "{", "}", "a", "${", "\u{e9}"], 6) {
        assert_eq!(template_refs(&text), first_groups(&re, &text), "{:?}", text);
    }
}

#[test]
fn capture_names_are_those_of_the_expression() {
    let re = Regex::new(r"\(\?P<([^>]+)>").unwrap();
    for text in texts(&["(", "?P", "<", ">", "a", "(?P<", "\u{1F600}"], 5) {
        assert_eq!(capture_names(&text), first_groups(&re, &text), "{:?}", text);
    }
}

#[test]
fn white_space_is_that_of_the_expression() {
    let re = Regex::new(r"^\s$").unwrap();
    let mut buffer = [0u8; 4];
    for n in 0..=0x10FFFFu32 {
        if let Some(c) = char::from_u32(n) {
            let text: &str = c.encode_utf8(&mut buffer);
            assert_eq!(space(c), re.is_match(text), "{:?}", c);
        }
    }
}

#[test]
fn stages_and_names_of_a_full_pattern() {
    let pattern = "|= \"connection accepted\" | regexp \"conn_id=(?P<conn_id>[a-f0-9-]+)\" \
                   |  regexp\t\"say \\\"(?P<word>\\\\w+)\\\"\"";
    assert_eq!(
        regexp_strings(pattern),
        vec!["conn_id=(?P<conn_id>[a-f0-9-]+)", "say \"(?P<word>\\\\w+)\""]
    );
    assert_eq!(capture_names(pattern), vec!["conn_id", "word"]);
    assert!(template_refs(pattern).is_empty());
    assert_eq!(template_refs("|= \"${a}\" |= \"${b_2}\""), vec!["a", "b_2"]);
}

#[test]
fn only_stages_define_captures() {
    assert!(defined_capture_names("|= \"(?P<x>v)\"").is_empty());
    assert_eq!(capture_names("|= \"(?P<x>v)\""), vec!["x"]);
    let pattern = "|= \"(?P<x>v)\" | regexp \"(?P<y>a)(?P<z>b)\" |~ \"(?P<w>c)\" | regexp \"(?P<y>d)\"";
    assert_eq!(defined_capture_names(pattern), vec!["y", "z", "y"]);
}
