//! The grammar of a log pattern: `| regexp "..."` stages, `(?P<name>...)`
//! capture groups and `${name}` placeholders.

use vstd::prelude::*;
use crate::text::{
    chars_of, law_occurs_at, lemma_replace_past, occurs, occurs_at, replace_all, replace_from,
    replaced, texts,
};

verus! {

broadcast use vstd::string::group_string_axioms;

/// The first position from `i` on at which `c` stands in `s`, or the end of `s`.
pub open spec fn find(s: Seq<char>, c: char, i: int) -> int
    decreases s.len() - i,
{
    if i >= s.len() || s[i] == c {
        i
    } else {
        find(s, c, i + 1)
    }
}

/// The texts, from position `i` on, that stand between an `open` and the next
/// `close`. Such a text is not empty; the search goes on behind its `close`.
pub open spec fn delimited_from(s: Seq<char>, open: Seq<char>, close: char, i: int) -> Seq<
    Seq<char>,
>
    decreases s.len() - i,
    via delimited_from_ends
{
    if i >= s.len() {
        seq![]
    } else {
        let start = i + open.len();
        let end = find(s, close, start);
        if occurs_at(s, open, i) && start < end < s.len() {
            seq![s.subrange(start, end)] + delimited_from(s, open, close, end + 1)
        } else {
            delimited_from(s, open, close, i + 1)
        }
    }
}

#[via_fn]
proof fn delimited_from_ends(s: Seq<char>, open: Seq<char>, close: char, i: int) {
}

/// The names that `s` refers to as `${name}`, in order.
pub open spec fn template_refs_of(s: Seq<char>) -> Seq<Seq<char>> {
    delimited_from(s, "${"@, '}', 0)
}

/// The names of the capture groups `(?P<name>...)` in `s`, in order.
pub open spec fn capture_names_of(s: Seq<char>) -> Seq<Seq<char>> {
    delimited_from(s, "(?P<"@, '>', 0)
}

/// Finds `c` in `s` from position `i` on.
fn find_char(s: &Vec<char>, c: char, i: usize) -> (r: usize)
    requires
        i <= s@.len(),
    ensures
        r == find(s@, c, i as int),
        i <= r <= s@.len(),
{
    let mut k: usize = i;
    while k < s.len() && s[k] != c
        invariant
            i <= k <= s@.len(),
            find(s@, c, k as int) == find(s@, c, i as int),
        decreases s@.len() - k,
    {
        k = k + 1;
    }
    k
}

/// Collects the texts of [`delimited_from`] from the beginning of `s`.
fn delimited(s: &str, open: &str, close: char) -> (r: Vec<String>)
    requires
        open@.len() > 0,
    ensures
        texts(r@) == delimited_from(s@, open@, close, 0),
{
    let text = chars_of(s);
    let mark = chars_of(open);
    let mut out: Vec<String> = Vec::new();
    let mut i: usize = 0;
    assert(texts(out@) + delimited_from(s@, open@, close, 0) =~= delimited_from(s@, open@, close, 0));
    while i < text.len()
        invariant
            text@ == s@,
            mark@ == open@,
            open@.len() > 0,
            i <= text@.len(),
            texts(out@) + delimited_from(s@, open@, close, i as int) == delimited_from(
                s@,
                open@,
                close,
                0,
            ),
        decreases text@.len() - i,
    {
        if occurs(&text, &mark, i) {
            let start: usize = i + mark.len();
            let end: usize = find_char(&text, close, start);
            if start < end && end < text.len() {
                let ghost before = out@;
                let ghost tail = delimited_from(s@, open@, close, end + 1);
                out.push(s.substring_char(start, end).to_owned());
                assert(texts(out@) =~= texts(before).push(s@.subrange(start as int, end as int)));
                assert(texts(out@) + tail =~= texts(before) + (seq![
                    s@.subrange(start as int, end as int),
                ] + tail));
                i = end + 1;
            } else {
                i = i + 1;
            }
        } else {
            i = i + 1;
        }
    }
    assert(texts(out@) =~= delimited_from(s@, open@, close, 0));
    out
}

/// Extracts the `(?P<name>...)` capture group names from a text.
pub fn capture_names(s: &str) -> (r: Vec<String>)
    ensures
        texts(r@) == capture_names_of(s@),
{
    proof {
        reveal_strlit("(?P<");
    }
    delimited(s, "(?P<", '>')
}

/// Extracts the `${name}` reference names from a text.
pub fn template_refs(s: &str) -> (r: Vec<String>)
    ensures
        texts(r@) == template_refs_of(s@),
{
    proof {
        reveal_strlit("${");
    }
    delimited(s, "${", '}')
}

/// Whether `c` is white space, as Unicode defines it.
pub open spec fn is_space(c: char) -> bool {
    ||| '\u{9}' <= c <= '\u{d}'
    ||| c == ' '
    ||| c == '\u{85}'
    ||| c == '\u{a0}'
    ||| c == '\u{1680}'
    ||| '\u{2000}' <= c <= '\u{200a}'
    ||| c == '\u{2028}'
    ||| c == '\u{2029}'
    ||| c == '\u{202f}'
    ||| c == '\u{205f}'
    ||| c == '\u{3000}'
}

/// Tests [`is_space`].
pub fn space(c: char) -> (r: bool)
    ensures
        r == is_space(c),
{
    ('\u{9}' <= c && c <= '\u{d}') || c == ' ' || c == '\u{85}' || c == '\u{a0}' || c == '\u{1680}'
        || ('\u{2000}' <= c && c <= '\u{200a}') || c == '\u{2028}' || c == '\u{2029}' || c
        == '\u{202f}' || c == '\u{205f}' || c == '\u{3000}'
}

/// The first position from `i` on that is not white space.
pub open spec fn past_spaces(s: Seq<char>, i: int) -> int
    decreases s.len() - i,
{
    if 0 <= i < s.len() && is_space(s[i]) {
        past_spaces(s, i + 1)
    } else {
        i
    }
}

/// Where the quoted text that begins at `i` ends: at the first quote that no
/// backslash escapes. A backslash escapes any character but a line feed.
pub open spec fn quote_end(s: Seq<char>, i: int) -> Option<int>
    decreases s.len() - i,
{
    if i >= s.len() {
        None
    } else if s[i] == '"' {
        Some(i)
    } else if s[i] == '\\' {
        if i + 1 < s.len() && s[i + 1] != '\n' {
            quote_end(s, i + 2)
        } else {
            None
        }
    } else {
        quote_end(s, i + 1)
    }
}

/// The bounds of the quoted text of the stage `| regexp "..."` that begins at
/// position `i`, if one does.
pub open spec fn stage_at(s: Seq<char>, i: int) -> Option<(int, int)> {
    let word = past_spaces(s, i + 1);
    let quote = past_spaces(s, word + 6);
    if 0 <= i < s.len() && s[i] == '|' && occurs_at(s, "regexp"@, word) && quote < s.len()
        && s[quote] == '"' {
        match quote_end(s, quote + 1) {
            Some(end) => Some((quote + 1, end)),
            None => None,
        }
    } else {
        None
    }
}

/// The quoted texts of the stages `| regexp "..."` from position `i` on.
pub open spec fn stages_from(s: Seq<char>, i: int) -> Seq<Seq<char>>
    decreases s.len() - i,
    via stages_from_ends
{
    if i >= s.len() {
        seq![]
    } else {
        match stage_at(s, i) {
            Some((start, end)) => seq![s.subrange(start, end)] + stages_from(s, end + 1),
            None => stages_from(s, i + 1),
        }
    }
}

#[via_fn]
proof fn stages_from_ends(s: Seq<char>, i: int) {
    if i < s.len() && stage_at(s, i) is Some {
        lemma_stage_bounds(s, i);
    }
}

/// White space is skipped forwards and within the text.
proof fn lemma_past_spaces(s: Seq<char>, i: int)
    ensures
        i <= past_spaces(s, i),
        0 <= i <= s.len() ==> past_spaces(s, i) <= s.len(),
    decreases s.len() - i,
{
    if 0 <= i < s.len() && is_space(s[i]) {
        lemma_past_spaces(s, i + 1);
    }
}

/// A quoted text ends behind its beginning and within the text.
proof fn lemma_quote_end(s: Seq<char>, i: int)
    ensures
        quote_end(s, i) matches Some(e) ==> i <= e < s.len(),
    decreases s.len() - i,
{
    if i < s.len() && s[i] != '"' {
        if s[i] == '\\' {
            if i + 1 < s.len() {
                lemma_quote_end(s, i + 2);
            }
        } else {
            lemma_quote_end(s, i + 1);
        }
    }
}

/// The quoted text of a stage lies behind the beginning of the stage.
proof fn lemma_stage_bounds(s: Seq<char>, i: int)
    ensures
        stage_at(s, i) matches Some((start, end)) ==> 0 <= i < start <= end < s.len(),
{
    let word = past_spaces(s, i + 1);
    let quote = past_spaces(s, word + 6);
    lemma_past_spaces(s, i + 1);
    lemma_past_spaces(s, word + 6);
    lemma_quote_end(s, quote + 1);
}

/// A quoted text with its escaped quotes made plain.
pub open spec fn unescaped(s: Seq<char>) -> Seq<char> {
    replaced(s, "\\\""@, "\""@)
}

/// The regular expressions of the `| regexp "..."` stages of a pattern.
pub open spec fn regexps_of(s: Seq<char>) -> Seq<Seq<char>> {
    stages_from(s, 0).map_values(|t: Seq<char>| unescaped(t))
}

/// Skips white space from position `i` on.
fn skip_spaces(s: &Vec<char>, i: usize) -> (r: usize)
    requires
        i <= s@.len(),
    ensures
        r == past_spaces(s@, i as int),
        i <= r <= s@.len(),
{
    let mut k: usize = i;
    while k < s.len() && space(s[k])
        invariant
            i <= k <= s@.len(),
            past_spaces(s@, k as int) == past_spaces(s@, i as int),
        decreases s@.len() - k,
    {
        k = k + 1;
    }
    k
}

/// Finds the end of the quoted text that begins at `i`.
fn find_quote_end(s: &Vec<char>, i: usize) -> (r: Option<usize>)
    requires
        i <= s@.len(),
    ensures
        match r {
            Some(e) => quote_end(s@, i as int) == Some(e as int) && i <= e < s@.len(),
            None => quote_end(s@, i as int) is None,
        },
{
    let mut k: usize = i;
    while k < s.len()
        invariant
            i <= k <= s@.len(),
            quote_end(s@, k as int) == quote_end(s@, i as int),
        decreases s@.len() - k,
    {
        if s[k] == '"' {
            return Some(k);
        }
        if s[k] == '\\' {
            if s.len() - k > 1 && s[k + 1] != '\n' {
                k = k + 2;
            } else {
                return None;
            }
        } else {
            k = k + 1;
        }
    }
    None
}

/// Finds the quoted text of the stage that begins at position `i`.
fn find_stage(s: &Vec<char>, i: usize) -> (r: Option<(usize, usize)>)
    requires
        i < s.len(),
    ensures
        match r {
            Some((start, end)) => stage_at(s@, i as int) == Some((start as int, end as int)) && i
                < start <= end < s@.len(),
            None => stage_at(s@, i as int) is None,
        },
{
    if s[i] != '|' {
        return None;
    }
    let word: usize = skip_spaces(s, i + 1);
    let keyword = chars_of("regexp");
    proof {
        reveal_strlit("regexp");
    }
    if !occurs(s, &keyword, word) {
        return None;
    }
    let quote: usize = skip_spaces(s, word + 6);
    if quote >= s.len() || s[quote] != '"' {
        return None;
    }
    match find_quote_end(s, quote + 1) {
        Some(end) => Some((quote + 1, end)),
        None => None,
    }
}

/// Extracts the regular expressions of the `| regexp "..."` stages of a pattern.
pub fn regexp_strings(pattern: &str) -> (r: Vec<String>)
    ensures
        texts(r@) == regexps_of(pattern@),
{
    let text = chars_of(pattern);
    let mut out: Vec<String> = Vec::new();
    let mut i: usize = 0;
    let ghost plain = |t: Seq<char>| unescaped(t);
    assert(texts(out@) + stages_from(pattern@, 0).map_values(plain) =~= regexps_of(pattern@));
    while i < text.len()
        invariant
            text@ == pattern@,
            i <= text@.len(),
            plain == (|t: Seq<char>| unescaped(t)),
            texts(out@) + stages_from(pattern@, i as int).map_values(plain) == regexps_of(pattern@),
        decreases text@.len() - i,
    {
        match find_stage(&text, i) {
            Some((start, end)) => {
                let ghost before = out@;
                let ghost tail = stages_from(pattern@, end + 1);
                proof {
                    reveal_strlit("\\\"");
                }
                let raw = replace_all(pattern.substring_char(start, end), "\\\"", "\"");
                out.push(raw);
                assert(texts(out@) =~= texts(before).push(raw@));
                assert(texts(out@) + tail.map_values(plain) =~= texts(before) + stages_from(
                    pattern@,
                    i as int,
                ).map_values(plain));
                i = end + 1;
            },
            None => {
                i = i + 1;
            },
        }
    }
    assert(texts(out@) =~= regexps_of(pattern@));
    out
}

/// The names of the capture groups in the given regular expressions, in order.
pub open spec fn group_names_of(regexps: Seq<Seq<char>>) -> Seq<Seq<char>>
    decreases regexps.len(),
{
    if regexps.len() == 0 {
        seq![]
    } else {
        group_names_of(regexps.drop_last()) + capture_names_of(regexps.last())
    }
}

/// The captures that a pattern defines: the capture groups of its
/// `| regexp "..."` stages, in order. A group anywhere else captures nothing.
pub open spec fn defined_captures(pattern: Seq<char>) -> Seq<Seq<char>> {
    group_names_of(regexps_of(pattern))
}

/// Extracts the names of the captures that a pattern defines.
pub fn defined_capture_names(pattern: &str) -> (r: Vec<String>)
    ensures
        texts(r@) == defined_captures(pattern@),
{
    let regexps = regexp_strings(pattern);
    let mut out: Vec<String> = Vec::new();
    let mut i: usize = 0;
    let ghost all = regexps_of(pattern@);
    assert(all.take(0) =~= Seq::<Seq<char>>::empty());
    assert(texts(out@) =~= group_names_of(all.take(0)));
    while i < regexps.len()
        invariant
            i <= regexps@.len(),
            all == texts(regexps@),
            texts(out@) == group_names_of(all.take(i as int)),
        decreases regexps@.len() - i,
    {
        assert(all.take(i + 1).drop_last() =~= all.take(i as int));
        assert(all[i as int] == regexps@[i as int]@);
        let mut names = capture_names(regexps[i].as_str());
        let ghost before = out@;
        let ghost added = names@;
        out.append(&mut names);
        assert(texts(out@) =~= texts(before) + texts(added));
        i = i + 1;
    }
    assert(all.take(i as int) =~= all);
    out
}

/// What [`find`] finds: the first occurrence, or the end.
pub proof fn lemma_find(s: Seq<char>, c: char, i: int)
    requires
        0 <= i <= s.len(),
    ensures
        i <= find(s, c, i) <= s.len(),
        find(s, c, i) < s.len() ==> s[find(s, c, i)] == c,
        forall|m: int| i <= m < find(s, c, i) ==> #[trigger] s[m] != c,
    decreases s.len() - i,
{
    if i < s.len() && s[i] != c {
        lemma_find(s, c, i + 1);
    }
}

proof fn lemma_find_shift(s: Seq<char>, c: char, k: int, i: int)
    requires
        0 <= k <= i,
        k <= s.len(),
    ensures
        find(s, c, i) == find(s.skip(k), c, i - k) + k,
    decreases s.len() - i,
{
    if i < s.len() {
        assert(s.skip(k)[i - k] == s[i]);
        lemma_find_shift(s, c, k, i + 1);
    }
}

/// Where the beginning of a text is cut off, the rest is searched as before.
proof fn lemma_delimited_shift(s: Seq<char>, open: Seq<char>, close: char, k: int, i: int)
    requires
        0 <= k <= i,
        k <= s.len(),
    ensures
        delimited_from(s, open, close, i) == delimited_from(s.skip(k), open, close, i - k),
    decreases s.len() - i,
{
    let r = s.skip(k);
    if i < s.len() {
        let start = i + open.len();
        let end = find(s, close, start);
        lemma_find_shift(s, close, k, start);
        assert(occurs_at(s, open, i) == occurs_at(r, open, i - k)) by {
            if i + open.len() <= s.len() {
                assert(s.subrange(i, i + open.len()) =~= r.subrange(i - k, i - k + open.len()));
            }
        }
        if occurs_at(s, open, i) && start < end < s.len() {
            lemma_delimited_shift(s, open, close, k, end + 1);
            assert(s.subrange(start, end) =~= r.subrange(start - k, end - k));
        } else {
            lemma_delimited_shift(s, open, close, k, i + 1);
        }
    }
}

/// Where nothing is enclosed, nothing is found up to there.
proof fn lemma_delimited_none(s: Seq<char>, open: Seq<char>, close: char, i: int, k: int)
    requires
        open.len() > 0,
        0 <= i <= k <= s.len(),
        forall|j: int|
            i <= j < k && open.is_prefix_of(#[trigger] s.skip(j)) ==> (j + open.len() < s.len()
                && s[j + open.len()] == close) || (forall|m: int|
                j + open.len() <= m < s.len() ==> #[trigger] s[m] != close),
    ensures
        delimited_from(s, open, close, i) == delimited_from(s, open, close, k),
    decreases k - i,
{
    if i < k {
        law_occurs_at(s, open, i);
        let start = i + open.len();
        if occurs_at(s, open, i) {
            assert(open.is_prefix_of(s.skip(i)));
            lemma_find(s, close, start);
        }
        lemma_delimited_none(s, open, close, i + 1, k);
    }
}

proof fn lemma_delimited_first(s: Seq<char>, open: Seq<char>, close: char, i: int, e: int)
    requires
        open.len() > 0,
        0 <= i,
        i + open.len() < e < s.len(),
        open.is_prefix_of(s.skip(i)),
        s[e] == close,
        forall|m: int| i + open.len() <= m < e ==> #[trigger] s[m] != close,
        forall|j: int|
            0 <= j < i && open.is_prefix_of(#[trigger] s.skip(j)) ==> s[j + open.len()] == close,
    ensures
        delimited_from(s, open, close, 0) == seq![s.subrange(i + open.len(), e)] + delimited_from(
            s.skip(e + 1),
            open,
            close,
            0,
        ),
{
    lemma_delimited_none(s, open, close, 0, i);
    law_occurs_at(s, open, i);
    lemma_find(s, close, i + open.len());
    assert(find(s, close, i + open.len()) == e);
    lemma_delimited_shift(s, open, close, e + 1, e + 1);
}

/// The first name in `${` and `}` is found, whatever it is, and what stands behind
/// it is searched as a text of its own. A `${` that is closed at once holds no
/// name.
pub proof fn law_first_template_ref(s: Seq<char>, i: int, e: int)
    requires
        0 <= i,
        i + 2 < e < s.len(),
        seq!['$', '{'].is_prefix_of(s.skip(i)),
        s[e] == '}',
        forall|m: int| i + 2 <= m < e ==> #[trigger] s[m] != '}',
        forall|j: int|
            0 <= j < i && seq!['$', '{'].is_prefix_of(#[trigger] s.skip(j)) ==> s[j + 2] == '}',
    ensures
        template_refs_of(s) == seq![s.subrange(i + 2, e)] + template_refs_of(s.skip(e + 1)),
{
    reveal_strlit("${");
    assert("${"@ =~= seq!['$', '{']);
    lemma_delimited_first(s, "${"@, '}', i, e);
}

/// A text in which every `${` is closed at once, or not at all, holds no
/// reference.
pub proof fn law_no_template_ref(s: Seq<char>)
    requires
        forall|j: int|
            0 <= j < s.len() && seq!['$', '{'].is_prefix_of(#[trigger] s.skip(j)) ==> (j + 2 < s.len()
                && s[j + 2] == '}') || (forall|m: int| j + 2 <= m < s.len() ==> #[trigger] s[m] != '}'),
    ensures
        template_refs_of(s).len() == 0,
{
    reveal_strlit("${");
    assert("${"@ =~= seq!['$', '{']);
    lemma_delimited_none(s, "${"@, '}', 0, s.len() as int);
}

/// The first name in `(?P<` and `>` is found, whatever it is, and what stands
/// behind it is searched as a text of its own.
pub proof fn law_first_capture_name(s: Seq<char>, i: int, e: int)
    requires
        0 <= i,
        i + 4 < e < s.len(),
        seq!['(', '?', 'P', '<'].is_prefix_of(s.skip(i)),
        s[e] == '>',
        forall|m: int| i + 4 <= m < e ==> #[trigger] s[m] != '>',
        forall|j: int|
            0 <= j < i && seq!['(', '?', 'P', '<'].is_prefix_of(#[trigger] s.skip(j)) ==> s[j + 4]
                == '>',
    ensures
        capture_names_of(s) == seq![s.subrange(i + 4, e)] + capture_names_of(s.skip(e + 1)),
{
    reveal_strlit("(?P<");
    assert("(?P<"@ =~= seq!['(', '?', 'P', '<']);
    lemma_delimited_first(s, "(?P<"@, '>', i, e);
}

/// A text in which every `(?P<` is closed at once, or not at all, names no group.
pub proof fn law_no_capture_name(s: Seq<char>)
    requires
        forall|j: int|
            0 <= j < s.len() && seq!['(', '?', 'P', '<'].is_prefix_of(#[trigger] s.skip(j)) ==> (j + 4
                < s.len() && s[j + 4] == '>') || (forall|m: int|
                j + 4 <= m < s.len() ==> #[trigger] s[m] != '>'),
    ensures
        capture_names_of(s).len() == 0,
{
    reveal_strlit("(?P<");
    assert("(?P<"@ =~= seq!['(', '?', 'P', '<']);
    lemma_delimited_none(s, "(?P<"@, '>', 0, s.len() as int);
}

/// Every name that is written in a stage of a pattern counts as defined by it, and
/// no other name does.
pub proof fn law_defined_captures(pattern: Seq<char>)
    ensures
        forall|i: int, j: int|
            #![trigger capture_names_of(regexps_of(pattern)[i])[j]]
            0 <= i < regexps_of(pattern).len() && 0 <= j < capture_names_of(
                regexps_of(pattern)[i],
            ).len() ==> defined_captures(pattern).contains(
                capture_names_of(regexps_of(pattern)[i])[j],
            ),
        forall|k: int|
            0 <= k < defined_captures(pattern).len() ==> exists|i: int|
                0 <= i < regexps_of(pattern).len() && capture_names_of(
                    #[trigger] regexps_of(pattern)[i],
                ).contains(#[trigger] defined_captures(pattern)[k]),
{
    let rs = regexps_of(pattern);
    lemma_group_names(rs);
    assert forall|i: int, j: int|
        #![trigger capture_names_of(rs[i])[j]]
        0 <= i < rs.len() && 0 <= j < capture_names_of(rs[i]).len() implies group_names_of(
        rs,
    ).contains(capture_names_of(rs[i])[j]) by {
        assert(capture_names_of(rs[i]).contains(capture_names_of(rs[i])[j]));
    }
}

proof fn lemma_group_names(rs: Seq<Seq<char>>)
    ensures
        forall|i: int, name: Seq<char>|
            0 <= i < rs.len() && #[trigger] capture_names_of(rs[i]).contains(name)
                ==> group_names_of(rs).contains(name),
        forall|k: int|
            0 <= k < group_names_of(rs).len() ==> exists|i: int|
                0 <= i < rs.len() && capture_names_of(#[trigger] rs[i]).contains(
                    #[trigger] group_names_of(rs)[k],
                ),
    decreases rs.len(),
{
    if rs.len() > 0 {
        let front = rs.drop_last();
        let last = rs.len() - 1;
        let a = group_names_of(front);
        let b = capture_names_of(rs.last());
        lemma_group_names(front);
        assert forall|i: int, name: Seq<char>|
            0 <= i < rs.len() && #[trigger] capture_names_of(rs[i]).contains(name) implies group_names_of(
            rs,
        ).contains(name) by {
            if i < last {
                assert(front[i] == rs[i]);
                assert(capture_names_of(front[i]).contains(name));
                let k = choose|k: int| 0 <= k < a.len() && a[k] == name;
                assert((a + b)[k] == name);
            } else {
                let k = choose|k: int| 0 <= k < b.len() && b[k] == name;
                assert((a + b)[a.len() + k] == name);
            }
        }
        assert forall|k: int| 0 <= k < group_names_of(rs).len() implies exists|i: int|
            0 <= i < rs.len() && capture_names_of(#[trigger] rs[i]).contains(
                #[trigger] group_names_of(rs)[k],
            ) by {
            if k < a.len() {
                assert(group_names_of(rs)[k] == a[k]);
                let i = choose|i: int|
                    0 <= i < front.len() && capture_names_of(#[trigger] front[i]).contains(a[k]);
                assert(rs[i] == front[i]);
            } else {
                assert(b[k - a.len()] == group_names_of(rs)[k]);
                assert(capture_names_of(rs[last]).contains(group_names_of(rs)[k]));
            }
        }
    }
}

/// A word of a quoted text: one character, or a backslash and what it escapes.
pub open spec fn is_quoted_word(w: Seq<char>) -> bool {
    ||| w.len() == 1 && w[0] != '"' && w[0] != '\\'
    ||| w.len() == 2 && w[0] == '\\' && w[1] != '\n'
}

/// Words one after the other.
pub open spec fn joined(words: Seq<Seq<char>>) -> Seq<char>
    decreases words.len(),
{
    if words.len() == 0 {
        seq![]
    } else {
        words.first() + joined(words.drop_first())
    }
}

/// A word without the backslash of an escaped quote.
pub open spec fn unquoted_word(w: Seq<char>) -> Seq<char> {
    if w == seq!['\\', '"'] {
        seq!['"']
    } else {
        w
    }
}

proof fn lemma_words(words: Seq<Seq<char>>)
    requires
        forall|k: int| 0 <= k < words.len() ==> is_quoted_word(#[trigger] words[k]),
        words.len() > 0,
    ensures
        is_quoted_word(words.first()),
        forall|k: int|
            0 <= k < words.drop_first().len() ==> is_quoted_word(#[trigger] words.drop_first()[k]),
        joined(words) == words.first() + joined(words.drop_first()),
{
    assert(is_quoted_word(words[0]));
    assert forall|k: int| 0 <= k < words.drop_first().len() implies is_quoted_word(
        #[trigger] words.drop_first()[k],
    ) by {
        assert(is_quoted_word(words[k + 1]));
    }
}

/// Quoted words end at the quote behind them.
proof fn lemma_quoted_words_end(pre: Seq<char>, words: Seq<Seq<char>>, post: Seq<char>)
    requires
        forall|k: int| 0 <= k < words.len() ==> is_quoted_word(#[trigger] words[k]),
        post.len() > 0,
        post[0] == '"',
    ensures
        quote_end(pre + joined(words) + post, pre.len() as int) == Some(
            pre.len() as int + joined(words).len(),
        ),
    decreases words.len(),
{
    let s = pre + joined(words) + post;
    let i = pre.len() as int;
    if words.len() == 0 {
        assert(s[i] == post[0]);
    } else {
        lemma_words(words);
        let w = words.first();
        let rest = words.drop_first();
        let next = pre + w;
        lemma_quoted_words_end(next, rest, post);
        assert(next + joined(rest) + post =~= s);
        assert(s[i] == w[0]);
        if w.len() == 2 {
            assert(s[i + 1] == w[1]);
        }
    }
}

/// In quoted words a quote behind a backslash is an escaped quote.
proof fn lemma_unescaped_words(pre: Seq<char>, words: Seq<Seq<char>>)
    requires
        forall|k: int| 0 <= k < words.len() ==> is_quoted_word(#[trigger] words[k]),
    ensures
        replace_from(pre + joined(words), seq!['\\', '"'], seq!['"'], pre.len() as int) == joined(
            words.map_values(|w: Seq<char>| unquoted_word(w)),
        ),
    decreases words.len(),
{
    let s = pre + joined(words);
    let from = seq!['\\', '"'];
    let to = seq!['"'];
    let i = pre.len() as int;
    let after = words.map_values(|w: Seq<char>| unquoted_word(w));
    if words.len() > 0 {
        lemma_words(words);
        let w = words.first();
        let rest = words.drop_first();
        let next = pre + w;
        lemma_unescaped_words(next, rest);
        assert(next + joined(rest) =~= s);
        assert(after.drop_first() =~= rest.map_values(|w: Seq<char>| unquoted_word(w)));
        assert(after.first() == unquoted_word(w));
        assert(s[i] == w[0]);
        if w.len() == 2 {
            assert(s[i + 1] == w[1]);
        }
        if w =~= from {
            assert(s.subrange(i, i + 2) =~= from);
            assert(occurs_at(s, from, i));
        } else {
            assert forall|p: int| i <= p < i + w.len() implies !#[trigger] occurs_at(s, from, p) by {
                if occurs_at(s, from, p) {
                    let part = s.subrange(p, p + 2);
                    assert(part[0] == s[p] && part[1] == s[p + 1]);
                    if p == i + w.len() - 1 {
                        assert(rest.len() > 0);
                        lemma_words(rest);
                        assert(s[p + 1] == rest.first()[0]);
                    }
                }
            }
            lemma_replace_past(s, from, to, i, i + w.len());
            assert(s.subrange(i, i + w.len()) =~= w);
        }
    }
}

proof fn lemma_past_spaces_to(s: Seq<char>, i: int, k: int)
    requires
        0 <= i <= k <= s.len(),
        forall|m: int| i <= m < k ==> is_space(#[trigger] s[m]),
        k < s.len() ==> !is_space(s[k]),
    ensures
        past_spaces(s, i) == k,
    decreases k - i,
{
    if i < k {
        lemma_past_spaces_to(s, i + 1, k);
    }
}

/// What [`past_spaces`] passes is white space.
proof fn lemma_passed_spaces(s: Seq<char>, i: int)
    requires
        0 <= i,
    ensures
        forall|m: int| i <= m < past_spaces(s, i) ==> is_space(#[trigger] s[m]),
        i <= past_spaces(s, i),
    decreases s.len() - i,
{
    if i < s.len() && is_space(s[i]) {
        lemma_passed_spaces(s, i + 1);
    }
}

proof fn lemma_quote_end_shift(s: Seq<char>, k: int, i: int)
    requires
        0 <= k <= i,
        k <= s.len(),
    ensures
        quote_end(s.skip(k), i - k) == (match quote_end(s, i) {
            Some(e) => Some(e - k),
            None => None,
        }),
    decreases s.len() - i,
{
    let r = s.skip(k);
    if i < s.len() {
        assert(r[i - k] == s[i]);
        if s[i] == '\\' {
            if i + 1 < s.len() {
                assert(r[i + 1 - k] == s[i + 1]);
                lemma_quote_end_shift(s, k, i + 2);
            }
        } else {
            lemma_quote_end_shift(s, k, i + 1);
        }
    }
}

proof fn lemma_past_spaces_shift(s: Seq<char>, k: int, i: int)
    requires
        0 <= k <= i,
        k <= s.len(),
    ensures
        past_spaces(s, i) == past_spaces(s.skip(k), i - k) + k,
    decreases s.len() - i,
{
    if i < s.len() {
        assert(s.skip(k)[i - k] == s[i]);
        lemma_past_spaces_shift(s, k, i + 1);
    }
}

proof fn lemma_stages_shift(s: Seq<char>, k: int, i: int)
    requires
        0 <= k <= i,
        k <= s.len(),
    ensures
        stages_from(s, i) == stages_from(s.skip(k), i - k),
    decreases s.len() - i,
{
    let r = s.skip(k);
    if i < s.len() {
        reveal_strlit("regexp");
        let word = past_spaces(s, i + 1);
        let quote = past_spaces(s, word + 6);
        lemma_past_spaces(s, i + 1);
        lemma_past_spaces(s, word + 6);
        lemma_past_spaces_shift(s, k, i + 1);
        lemma_past_spaces_shift(s, k, word + 6);
        lemma_quote_end_shift(s, k, quote + 1);
        lemma_stage_bounds(s, i);
        assert(r[i - k] == s[i]);
        assert(occurs_at(s, "regexp"@, word) == occurs_at(r, "regexp"@, word - k)) by {
            if word + 6 <= s.len() {
                assert(s.subrange(word, word + 6) =~= r.subrange(word - k, word - k + 6));
            }
        }
        if quote < s.len() {
            assert(r[quote - k] == s[quote]);
        }
        match stage_at(s, i) {
            Some((start, end)) => {
                assert(stage_at(r, i - k) == Some((start - k, end - k)));
                lemma_stages_shift(s, k, end + 1);
                assert(s.subrange(start, end) =~= r.subrange(start - k, end - k));
            },
            None => {
                assert(stage_at(r, i - k) is None);
                lemma_stages_shift(s, k, i + 1);
            },
        }
    }
}

proof fn lemma_no_stage(s: Seq<char>, i: int, k: int)
    requires
        0 <= i <= k <= s.len(),
        forall|j: int, w: int|
            #![trigger s[j], s.skip(w)]
            i <= j < k && j < w <= s.len() && s[j] == '|' && "regexp"@.is_prefix_of(s.skip(w))
                ==> exists|m: int| j < m < w && !is_space(#[trigger] s[m]),
    ensures
        stages_from(s, i) == stages_from(s, k),
    decreases k - i,
{
    if i < k {
        let word = past_spaces(s, i + 1);
        lemma_past_spaces(s, i + 1);
        lemma_passed_spaces(s, i + 1);
        law_occurs_at(s, "regexp"@, word);
        if stage_at(s, i) is Some {
            assert(s[i] == '|' && "regexp"@.is_prefix_of(s.skip(word)));
        }
        lemma_no_stage(s, i + 1, k);
    }
}

/// A pattern in which no `|` is followed, past white space, by `regexp` has no
/// such stage.
pub proof fn law_no_regexp_stage(s: Seq<char>)
    requires
        forall|j: int, w: int|
            #![trigger s[j], s.skip(w)]
            0 <= j < s.len() && j < w <= s.len() && s[j] == '|' && "regexp"@.is_prefix_of(s.skip(w))
                ==> exists|m: int| j < m < w && !is_space(#[trigger] s[m]),
    ensures
        regexps_of(s).len() == 0,
{
    lemma_no_stage(s, 0, s.len() as int);
}

/// The text of a pattern with a stage in it, between what stands before it and
/// behind it.
#[verifier::opaque]
spec fn staged_text(
    pre: Seq<char>,
    before: Seq<char>,
    between: Seq<char>,
    body: Seq<char>,
    post: Seq<char>,
) -> Seq<char> {
    pre + seq!['|'] + before + "regexp"@ + between + seq!['"'] + body + seq!['"'] + post
}

/// Where the parts of a stage stand.
proof fn lemma_stage_parts(
    pre: Seq<char>,
    before: Seq<char>,
    between: Seq<char>,
    body: Seq<char>,
    post: Seq<char>,
)
    ensures
        ({
            let s = staged_text(pre, before, between, body, post);
            let i = pre.len() as int;
            let word = i + 1 + before.len();
            let quote = word + 6 + between.len();
            let end = quote + 1 + body.len();
            &&& s.len() == end + 1 + post.len()
            &&& s[i] == '|'
            &&& s.subrange(i + 1, word) == before
            &&& s[word] == 'r'
            &&& s.subrange(word, word + 6) == "regexp"@
            &&& s.subrange(word + 6, quote) == between
            &&& s[quote] == '"'
            &&& s.subrange(quote + 1, end) == body
            &&& s.skip(end + 1) == post
            &&& s == s.take(quote + 1) + body + (seq!['"'] + post)
        }),
{
    reveal(staged_text);
    reveal_strlit("regexp");
    let s = staged_text(pre, before, between, body, post);
    let i = pre.len() as int;
    let word = i + 1 + before.len();
    let quote = word + 6 + between.len();
    let end = quote + 1 + body.len();
    assert(s.subrange(i + 1, word) =~= before);
    assert(s.subrange(word, word + 6) =~= "regexp"@);
    assert(s.subrange(word + 6, quote) =~= between);
    assert(s.subrange(quote + 1, end) =~= body);
    assert(s.skip(end + 1) =~= post);
    assert(s =~= s.take(quote + 1) + body + (seq!['"'] + post));
}

/// A stage is found where it stands, with its quoted text.
proof fn lemma_stage_found(
    pre: Seq<char>,
    before: Seq<char>,
    between: Seq<char>,
    words: Seq<Seq<char>>,
    post: Seq<char>,
)
    requires
        forall|m: int| 0 <= m < before.len() ==> is_space(#[trigger] before[m]),
        forall|m: int| 0 <= m < between.len() ==> is_space(#[trigger] between[m]),
        forall|k: int| 0 <= k < words.len() ==> is_quoted_word(#[trigger] words[k]),
    ensures
        ({
            let s = staged_text(pre, before, between, joined(words), post);
            let start = pre.len() + before.len() + between.len() + 8int;
            let end = start + joined(words).len();
            &&& stage_at(s, pre.len() as int) == Some((start, end))
            &&& s.subrange(start, end) == joined(words)
            &&& s.skip(end + 1) == post
        }),
{
    let body = joined(words);
    let s = staged_text(pre, before, between, body, post);
    let i = pre.len() as int;
    let word = i + 1 + before.len();
    let quote = word + 6 + between.len();
    lemma_stage_parts(pre, before, between, body, post);
    assert forall|m: int| i + 1 <= m < word implies is_space(#[trigger] s[m]) by {
        assert(s.subrange(i + 1, word)[m - i - 1] == s[m]);
    }
    lemma_past_spaces_to(s, i + 1, word);
    assert forall|m: int| word + 6 <= m < quote implies is_space(#[trigger] s[m]) by {
        assert(s.subrange(word + 6, quote)[m - word - 6] == s[m]);
    }
    lemma_past_spaces_to(s, word + 6, quote);
    lemma_quoted_words_end(s.take(quote + 1), words, seq!['"'] + post);
}

/// The first stage is read, and the rest as a pattern of its own.
proof fn lemma_first_stage(
    pre: Seq<char>,
    before: Seq<char>,
    between: Seq<char>,
    words: Seq<Seq<char>>,
    post: Seq<char>,
)
    requires
        forall|m: int| 0 <= m < before.len() ==> is_space(#[trigger] before[m]),
        forall|m: int| 0 <= m < between.len() ==> is_space(#[trigger] between[m]),
        forall|k: int| 0 <= k < words.len() ==> is_quoted_word(#[trigger] words[k]),
        ({
            let s = staged_text(pre, before, between, joined(words), post);
            forall|j: int, w: int|
                #![trigger s[j], s.skip(w)]
                0 <= j < pre.len() && j < w <= s.len() && s[j] == '|' && "regexp"@.is_prefix_of(
                    s.skip(w),
                ) ==> exists|m: int| j < m < w && !is_space(#[trigger] s[m])
        }),
    ensures
        regexps_of(staged_text(pre, before, between, joined(words), post)) == seq![
            joined(words.map_values(|w: Seq<char>| unquoted_word(w))),
        ] + regexps_of(post),
{
    reveal_strlit("\\\"");
    reveal_strlit("\"");
    assert("\\\""@ =~= seq!['\\', '"']);
    assert("\""@ =~= seq!['"']);
    let body = joined(words);
    let s = staged_text(pre, before, between, body, post);
    let i = pre.len() as int;
    let end = i + before.len() + between.len() + 8 + body.len();
    lemma_stage_parts(pre, before, between, body, post);
    lemma_no_stage(s, 0, i);
    lemma_stage_found(pre, before, between, words, post);
    lemma_stages_shift(s, end + 1, end + 1);
    lemma_unescaped_words(seq![], words);
    assert(Seq::<char>::empty() + body =~= body);
    let plain = |t: Seq<char>| unescaped(t);
    let expression = joined(words.map_values(|w: Seq<char>| unquoted_word(w)));
    assert(unescaped(body) == expression);
    assert(stages_from(s, 0) == seq![body] + stages_from(post, 0));
    assert((seq![body] + stages_from(post, 0)).map_values(plain) =~= seq![expression]
        + stages_from(post, 0).map_values(plain));
}

/// The first stage of a pattern is read: a `|`, white space, `regexp`, white space,
/// and a quoted text, which ends at the first quote that is not escaped. Its
/// expression is the quoted text with escaped quotes made plain, and with
/// everything else as it is written. What stands behind the stage is read as a
/// pattern of its own.
pub proof fn law_first_regexp_stage(
    pre: Seq<char>,
    before: Seq<char>,
    between: Seq<char>,
    words: Seq<Seq<char>>,
    post: Seq<char>,
)
    requires
        forall|m: int| 0 <= m < before.len() ==> is_space(#[trigger] before[m]),
        forall|m: int| 0 <= m < between.len() ==> is_space(#[trigger] between[m]),
        forall|k: int| 0 <= k < words.len() ==> is_quoted_word(#[trigger] words[k]),
        ({
            let s = pre + seq!['|'] + before + "regexp"@ + between + seq!['"'] + joined(words)
                + seq!['"'] + post;
            forall|j: int, w: int|
                #![trigger s[j], s.skip(w)]
                0 <= j < pre.len() && j < w <= s.len() && s[j] == '|' && "regexp"@.is_prefix_of(
                    s.skip(w),
                ) ==> exists|m: int| j < m < w && !is_space(#[trigger] s[m])
        }),
    ensures
        regexps_of(
            pre + seq!['|'] + before + "regexp"@ + between + seq!['"'] + joined(words) + seq!['"']
                + post,
        ) == seq![joined(words.map_values(|w: Seq<char>| unquoted_word(w)))] + regexps_of(post),
{
    reveal(staged_text);
    lemma_first_stage(pre, before, between, words, post);
}

/// Quoted words with nothing behind them that closes them do not end.
proof fn lemma_quoted_words_open(pre: Seq<char>, words: Seq<Seq<char>>, post: Seq<char>)
    requires
        forall|k: int| 0 <= k < words.len() ==> is_quoted_word(#[trigger] words[k]),
        post.len() > 0 ==> post[0] == '\\' && (post.len() == 1 || post[1] == '\n'),
    ensures
        quote_end(pre + joined(words) + post, pre.len() as int) is None,
    decreases words.len(),
{
    let s = pre + joined(words) + post;
    let i = pre.len() as int;
    if words.len() == 0 {
        if post.len() > 0 {
            assert(s[i] == post[0]);
        }
        if post.len() > 1 {
            assert(s[i + 1] == post[1]);
        }
    } else {
        lemma_words(words);
        let w = words.first();
        let rest = words.drop_first();
        let next = pre + w;
        lemma_quoted_words_open(next, rest, post);
        assert(next + joined(rest) + post =~= s);
        assert(s[i] == w[0]);
        if w.len() == 2 {
            assert(s[i + 1] == w[1]);
        }
    }
}

proof fn lemma_unclosed(s: Seq<char>, i: int, words: Seq<Seq<char>>, tail: Seq<char>)
    requires
        0 <= i <= s.len(),
        s.skip(i) == joined(words) + tail,
        forall|k: int| 0 <= k < words.len() ==> is_quoted_word(#[trigger] words[k]),
        tail.len() > 0 ==> tail[0] == '\\' && (tail.len() == 1 || tail[1] == '\n'),
    ensures
        quote_end(s, i) is None,
{
    let head = s.take(i);
    lemma_quoted_words_open(head, words, tail);
    assert(s =~= head + s.skip(i));
    assert(head + (joined(words) + tail) =~= head + joined(words) + tail);
}

/// Where no stage begins, nothing is read, and the rest of the pattern is read as if
/// it stood alone. None begins with anything but a `|`; nor where what follows it,
/// past white space up to `w`, is not `regexp`; nor where what follows that, past
/// white space up to `q`, is not a quote; nor where the quoted text is never closed.
pub proof fn law_no_stage_here(
    s: Seq<char>,
    w: int,
    q: int,
    words: Seq<Seq<char>>,
    tail: Seq<char>,
)
    requires
        s.len() > 0,
        s[0] != '|' || {
            &&& 1 <= w <= s.len()
            &&& forall|m: int| 1 <= m < w ==> is_space(#[trigger] s[m])
            &&& w < s.len() ==> !is_space(s[w])
            &&& seq!['r', 'e', 'g', 'e', 'x', 'p'].is_prefix_of(s.skip(w)) ==> {
                &&& w + 6 <= q <= s.len()
                &&& forall|m: int| w + 6 <= m < q ==> is_space(#[trigger] s[m])
                &&& q < s.len() ==> !is_space(s[q])
                &&& q < s.len() && s[q] == '"' ==> {
                    &&& s.skip(q + 1) == joined(words) + tail
                    &&& forall|k: int| 0 <= k < words.len() ==> is_quoted_word(#[trigger] words[k])
                    &&& tail.len() > 0 ==> tail[0] == '\\' && (tail.len() == 1 || tail[1] == '\n')
                }
            }
        },
    ensures
        regexps_of(s) == regexps_of(s.skip(1)),
{
    assert(stage_at(s, 0) is None) by {
        if s[0] == '|' {
            assert(past_spaces(s, 1) == w) by {
                lemma_past_spaces_to(s, 1, w);
            }
            assert(occurs_at(s, "regexp"@, w) <==> seq!['r', 'e', 'g', 'e', 'x', 'p'].is_prefix_of(
                s.skip(w),
            )) by {
                reveal_strlit("regexp");
                assert("regexp"@ =~= seq!['r', 'e', 'g', 'e', 'x', 'p']);
                law_occurs_at(s, "regexp"@, w);
            }
            if occurs_at(s, "regexp"@, w) {
                assert(past_spaces(s, w + 6) == q) by {
                    lemma_past_spaces_to(s, w + 6, q);
                }
                if q < s.len() && s[q] == '"' {
                    lemma_unclosed(s, q + 1, words, tail);
                }
            }
        }
    }
    lemma_stages_shift(s, 1, 1);
}

/// The captures of several expressions are those of each, one behind the other.
pub proof fn law_names_of_all_expressions(a: Seq<Seq<char>>, b: Seq<Seq<char>>, regexp: Seq<char>)
    ensures
        group_names_of(a + b) == group_names_of(a) + group_names_of(b),
        group_names_of(seq![regexp]) == capture_names_of(regexp),
        group_names_of(Seq::empty()).len() == 0,
    decreases b.len(),
{
    assert(seq![regexp].drop_last() =~= Seq::<Seq<char>>::empty());
    assert(group_names_of(Seq::empty()) + capture_names_of(regexp) =~= capture_names_of(regexp));
    if b.len() == 0 {
        assert(a + b =~= a);
        assert(group_names_of(a) + group_names_of(b) =~= group_names_of(a));
    } else {
        law_names_of_all_expressions(a, b.drop_last(), regexp);
        assert((a + b).drop_last() =~= a + b.drop_last());
        assert(group_names_of(a) + (group_names_of(b.drop_last()) + capture_names_of(b.last()))
            =~= (group_names_of(a) + group_names_of(b.drop_last())) + capture_names_of(b.last()));
    }
}

/// White space is what Unicode gives that property, by code point.
pub proof fn law_white_space(c: char)
    ensures
        is_space(c) <==> {
            let n = c as int;
            ||| 9 <= n <= 13
            ||| n == 32
            ||| n == 133
            ||| n == 160
            ||| n == 5760
            ||| 8192 <= n <= 8202
            ||| n == 8232
            ||| n == 8233
            ||| n == 8239
            ||| n == 8287
            ||| n == 12288
        },
{
}

/// A word of a quoted text is a character other than a quote and a backslash, or a
/// backslash and a character other than a line break; only `\"` loses its backslash.
pub proof fn law_quoted_words(w: Seq<char>, c: char, words: Seq<Seq<char>>)
    ensures
        c != '"' && c != '\\' ==> is_quoted_word(seq![c]) && unquoted_word(seq![c]) == seq![c],
        c != '\n' ==> is_quoted_word(seq!['\\', c]),
        c != '"' ==> unquoted_word(seq!['\\', c]) == seq!['\\', c],
        unquoted_word(seq!['\\', '"']) == seq!['"'],
        joined(Seq::empty()).len() == 0,
        joined(seq![w] + words) == w + joined(words),
{
    assert(seq!['\\', c][1] == c);
    assert((seq![w] + words).drop_first() =~= words);
    assert(seq![c].len() != seq!['\\', '"'].len());
}

} // verus!
