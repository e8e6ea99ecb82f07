//! Values captured from log lines, and their use in later patterns.

use vstd::prelude::*;
use crate::pattern::{regexp_strings, regexps_of};
use crate::text::{optional_text, part_of, replace_all, replaced, texts};

verus! {

broadcast use vstd::string::group_string_axioms;

/// Why the `regex` crate refuses a regular expression, or `None` where it
/// compiles it.
pub uninterp spec fn refusal(regexp: Seq<char>) -> Option<Seq<char>>;

/// The names of the groups of a regular expression, by group number.
pub uninterp spec fn group_names(regexp: Seq<char>) -> Seq<Option<Seq<char>>>;

/// What the groups of a regular expression hold in its first match in a line,
/// by group number; `None` where the line does not match.
pub uninterp spec fn matched_groups(regexp: Seq<char>, line: Seq<char>) -> Option<
    Seq<Option<Seq<char>>>,
>;

/// Optional texts as character sequences.
pub open spec fn optional_texts(v: Seq<Option<String>>) -> Seq<Option<Seq<char>>> {
    v.map_values(|o: Option<String>| optional_text(o))
}

/// Calls `regex::Regex::new`. The claim: whether it compiles the expression,
/// and the words of its error where it does not, depend on the expression
/// alone.
#[verifier::external_body]
pub(crate) fn regex_error(regexp: &str) -> (r: Option<String>)
    ensures
        optional_text(r) == refusal(regexp@),
{
    match regex::Regex::new(regexp) {
        Ok(_) => None,
        Err(e) => Some(e.to_string()),
    }
}

/// Calls `regex::Regex::capture_names` on a compiled expression. The claim: the
/// names depend on the expression alone.
#[verifier::external_body]
fn regex_group_names(regexp: &str) -> (r: Vec<Option<String>>)
    requires
        refusal(regexp@) is None,
    ensures
        optional_texts(r@) == group_names(regexp@),
{
    let re = regex::Regex::new(regexp).unwrap();
    re.capture_names().map(|n| n.map(|t| t.to_owned())).collect()
}

/// Calls `regex::Regex::captures` on a compiled expression. The claim: whether
/// the line matches, and what the groups hold, depend on the expression and the
/// line alone, and what a group holds is part of the line.
#[verifier::external_body]
fn regex_groups(regexp: &str, line: &str) -> (r: Option<Vec<Option<String>>>)
    requires
        refusal(regexp@) is None,
    ensures
        match r {
            Some(groups) => matched_groups(regexp@, line@) == Some(optional_texts(groups@)) && (
            forall|j: int|
                0 <= j < groups@.len() ==> ((#[trigger] groups@[j]) matches Some(g) ==> part_of(
                    g@,
                    line@,
                ))),
            None => matched_groups(regexp@, line@) is None,
        },
{
    let re = regex::Regex::new(regexp).unwrap();
    let found = re.captures(line)?;
    Some(found.iter().map(|g| g.map(|m| m.as_str().to_owned())).collect())
}

/// A capture as characters: its name and its value.
pub open spec fn pair_text(e: (String, String)) -> (Seq<char>, Seq<char>) {
    (e.0@, e.1@)
}

/// Whether a capture of that name is stored.
pub open spec fn is_captured(store: Seq<(Seq<char>, Seq<char>)>, name: Seq<char>) -> bool {
    exists|i: int| 0 <= i < store.len() && (#[trigger] store[i]).0 == name
}

/// `store` with the value of `name` set: in place where the name is stored
/// already, and at the end where it is new.
pub open spec fn with_capture(
    store: Seq<(Seq<char>, Seq<char>)>,
    name: Seq<char>,
    value: Seq<char>,
) -> Seq<(Seq<char>, Seq<char>)> {
    if is_captured(store, name) {
        store.map_values(
            |e: (Seq<char>, Seq<char>)|
                if e.0 == name {
                    (name, value)
                } else {
                    e
                },
        )
    } else {
        store.push((name, value))
    }
}

/// `store` with all the given captures set, one after the other.
pub open spec fn with_captures(
    store: Seq<(Seq<char>, Seq<char>)>,
    pairs: Seq<(Seq<char>, Seq<char>)>,
) -> Seq<(Seq<char>, Seq<char>)>
    decreases pairs.len(),
{
    if pairs.len() == 0 {
        store
    } else {
        with_capture(with_captures(store, pairs.drop_last()), pairs.last().0, pairs.last().1)
    }
}

/// The value that is stored under `name`.
pub open spec fn captured(store: Seq<(Seq<char>, Seq<char>)>, name: Seq<char>) -> Option<
    Seq<char>,
> {
    if is_captured(store, name) {
        let i = choose|i: int| 0 <= i < store.len() && (#[trigger] store[i]).0 == name;
        Some(store[i].1)
    } else {
        None
    }
}

/// Whether no name is stored twice.
pub open spec fn distinct_names(store: Seq<(Seq<char>, Seq<char>)>) -> bool {
    forall|i: int, j: int|
        0 <= i < j < store.len() ==> (#[trigger] store[i]).0 != (#[trigger] store[j]).0
}

/// Captured values by name, in the order in which the names were first
/// captured. No name occurs twice.
pub struct CaptureStore {
    entries: Vec<(String, String)>,
}

impl View for CaptureStore {
    type V = Seq<(Seq<char>, Seq<char>)>;

    closed spec fn view(&self) -> Seq<(Seq<char>, Seq<char>)> {
        self.entries@.map_values(|e: (String, String)| pair_text(e))
    }
}

impl CaptureStore {
    #[verifier::type_invariant]
    spec fn distinct(self) -> bool {
        distinct_names(self@)
    }

    /// The empty store.
    pub fn new() -> (r: CaptureStore)
        ensures
            r@ == Seq::<(Seq<char>, Seq<char>)>::empty(),
    {
        let r = CaptureStore { entries: Vec::new() };
        assert(r@ =~= Seq::<(Seq<char>, Seq<char>)>::empty());
        r
    }

    /// The number of captures.
    pub fn len(&self) -> (r: usize)
        ensures
            r == self@.len(),
    {
        self.entries.len()
    }

    /// The value that is stored under `name`.
    pub fn get(&self, name: &String) -> (r: Option<String>)
        ensures
            optional_text(r) == captured(self@, name@),
    {
        proof {
            use_type_invariant(self);
        }
        let mut i: usize = 0;
        while i < self.entries.len()
            invariant
                i <= self.entries@.len(),
                distinct_names(self@),
                forall|k: int| 0 <= k < i ==> (#[trigger] self@[k]).0 != name@,
            decreases self.entries@.len() - i,
        {
            if self.entries[i].0 == *name {
                assert(self@[i as int].0 == name@);
                return Some(self.entries[i].1.clone());
            }
            assert(self@[i as int].0 != name@);
            i = i + 1;
        }
        None
    }

    /// Stores a capture; a value that the name had before is lost.
    pub fn insert(&mut self, name: String, value: String)
        ensures
            final(self)@ == with_capture(old(self)@, name@, value@),
    {
        proof {
            use_type_invariant(&*self);
        }
        let ghost before = self@;
        let ghost key = name@;
        let ghost val = value@;
        let mut entries: Vec<(String, String)> = Vec::new();
        std::mem::swap(&mut entries, &mut self.entries);
        let ghost held = entries@;
        let mut i: usize = 0;
        while i < entries.len()
            invariant
                i <= entries@.len(),
                entries@ == held,
                before == held.map_values(|e: (String, String)| pair_text(e)),
                key == name@,
                forall|k: int| 0 <= k < i ==> (#[trigger] before[k]).0 != key,
            ensures
                i <= entries@.len(),
                entries@ == held,
                i < entries@.len() ==> before[i as int].0 == key,
                i == entries@.len() ==> !is_captured(before, key),
            decreases entries@.len() - i,
        {
            if entries[i].0 == name {
                assert(before[i as int].0 == key);
                break;
            }
            assert(before[i as int].0 != key);
            i = i + 1;
        }
        if i < entries.len() {
            entries[i] = (name, value);
            proof {
                let after = entries@.map_values(|e: (String, String)| pair_text(e));
                assert(is_captured(before, key));
                assert(after =~= with_capture(before, key, val));
                assert forall|a: int, b: int| 0 <= a < b < after.len() implies (
                #[trigger] after[a]).0 != (#[trigger] after[b]).0 by {
                    assert(before[a].0 != before[b].0);
                }
            }
        } else {
            entries.push((name, value));
            proof {
                let after = entries@.map_values(|e: (String, String)| pair_text(e));
                assert(after =~= with_capture(before, key, val));
                assert forall|a: int, b: int| 0 <= a < b < after.len() implies (
                #[trigger] after[a]).0 != (#[trigger] after[b]).0 by {
                    assert(before[a].0 == after[a].0);
                    if b < before.len() {
                        assert(before[b].0 == after[b].0);
                    }
                }
            }
        }
        self.entries = entries;
    }

    /// Stores every capture of `other`.
    pub fn extend(&mut self, other: &CaptureStore)
        ensures
            final(self)@ == with_captures(old(self)@, other@),
    {
        let mut i: usize = 0;
        assert(other@.take(0) =~= Seq::<(Seq<char>, Seq<char>)>::empty());
        while i < other.entries.len()
            invariant
                i <= other.entries@.len(),
                self@ == with_captures(old(self)@, other@.take(i as int)),
            decreases other.entries@.len() - i,
        {
            self.insert(other.entries[i].0.clone(), other.entries[i].1.clone());
            assert(other@.take(i + 1).drop_last() =~= other@.take(i as int));
            i = i + 1;
        }
        assert(other@.take(i as int) =~= other@);
    }
}

/// How a pattern refers to the capture `name`.
pub open spec fn placeholder(name: Seq<char>) -> Seq<char> {
    "${"@ + name + "}"@
}

/// `pattern` with the placeholder of each stored capture, in the order of the
/// store, replaced by its value.
pub open spec fn resolved(pattern: Seq<char>, store: Seq<(Seq<char>, Seq<char>)>) -> Seq<char>
    decreases store.len(),
{
    if store.len() == 0 {
        pattern
    } else {
        replaced(
            resolved(pattern, store.drop_last()),
            placeholder(store.last().0),
            store.last().1,
        )
    }
}

/// Replaces the `${name}` placeholders in `pattern` by the captured values.
pub fn apply_captures(pattern: &str, captures: &CaptureStore) -> (r: String)
    ensures
        r@ == resolved(pattern@, captures@),
{
    let mut result = pattern.to_owned();
    let mut i: usize = 0;
    assert(captures@.take(0) =~= Seq::<(Seq<char>, Seq<char>)>::empty());
    while i < captures.entries.len()
        invariant
            i <= captures.entries@.len(),
            result@ == resolved(pattern@, captures@.take(i as int)),
        decreases captures.entries@.len() - i,
    {
        let name = &captures.entries[i].0;
        let mark = "${".to_owned().concat(name.as_str()).concat("}");
        proof {
            reveal_strlit("${");
        }
        result = replace_all(result.as_str(), mark.as_str(), captures.entries[i].1.as_str());
        assert(captures@.take(i + 1).drop_last() =~= captures@.take(i as int));
        i = i + 1;
    }
    assert(captures@.take(i as int) =~= captures@);
    result
}

/// The captures of the first `n` groups: those that have a name and took part
/// in the match.
pub open spec fn named_pairs(
    names: Seq<Option<Seq<char>>>,
    groups: Seq<Option<Seq<char>>>,
    n: int,
) -> Seq<(Seq<char>, Seq<char>)>
    decreases n,
{
    if n <= 0 {
        seq![]
    } else {
        let rest = named_pairs(names, groups, n - 1);
        match (names[n - 1], groups[n - 1]) {
            (Some(name), Some(value)) => rest.push((name, value)),
            _ => rest,
        }
    }
}

/// The captures of a match: the groups that have a name and took part in it.
pub open spec fn match_captures(
    names: Seq<Option<Seq<char>>>,
    groups: Seq<Option<Seq<char>>>,
) -> Seq<(Seq<char>, Seq<char>)> {
    named_pairs(
        names,
        groups,
        if names.len() < groups.len() {
            names.len() as int
        } else {
            groups.len() as int
        },
    )
}

/// Stores the captures of a match, given the names of the groups and what they
/// hold.
pub fn store_groups(
    names: &Vec<Option<String>>,
    groups: &Vec<Option<String>>,
    store: &mut CaptureStore,
)
    ensures
        final(store)@ == with_captures(
            old(store)@,
            match_captures(optional_texts(names@), optional_texts(groups@)),
        ),
{
    let n: usize = if names.len() < groups.len() {
        names.len()
    } else {
        groups.len()
    };
    let mut i: usize = 0;
    let ghost ns = optional_texts(names@);
    let ghost gs = optional_texts(groups@);
    while i < n
        invariant
            i <= n,
            n <= names@.len(),
            n <= groups@.len(),
            ns == optional_texts(names@),
            gs == optional_texts(groups@),
            store@ == with_captures(old(store)@, named_pairs(ns, gs, i as int)),
        decreases n - i,
    {
        let ghost rest = named_pairs(ns, gs, i as int);
        assert(ns[i as int] == optional_text(names@[i as int]));
        assert(gs[i as int] == optional_text(groups@[i as int]));
        match (&names[i], &groups[i]) {
            (Some(name), Some(value)) => {
                store.insert(name.clone(), value.clone());
                assert(rest.push((name@, value@)).drop_last() =~= rest);
            },
            _ => {},
        }
        i = i + 1;
    }
}

/// The captures that one regular expression takes from a line.
pub open spec fn regexp_captures(regexp: Seq<char>, line: Seq<char>) -> Seq<
    (Seq<char>, Seq<char>),
> {
    if refusal(regexp) is Some {
        seq![]
    } else {
        match matched_groups(regexp, line) {
            Some(groups) => match_captures(group_names(regexp), groups),
            None => seq![],
        }
    }
}

/// The captures that several regular expressions take from a line, one after
/// the other.
pub open spec fn regexps_captures(regexps: Seq<Seq<char>>, line: Seq<char>) -> Seq<
    (Seq<char>, Seq<char>),
>
    decreases regexps.len(),
{
    if regexps.len() == 0 {
        seq![]
    } else {
        with_captures(
            regexps_captures(regexps.drop_last(), line),
            regexp_captures(regexps.last(), line),
        )
    }
}

/// Whether the values of all captures are of the given sort.
pub open spec fn values_are(
    store: Seq<(Seq<char>, Seq<char>)>,
    sort: spec_fn(Seq<char>) -> bool,
) -> bool {
    forall|k: int| 0 <= k < store.len() ==> sort((#[trigger] store[k]).1)
}

/// Whether the values of all captures are parts of a line.
pub open spec fn drawn_from(store: Seq<(Seq<char>, Seq<char>)>, line: Seq<char>) -> bool {
    values_are(store, |value: Seq<char>| part_of(value, line))
}

/// Storing captures of a sort keeps the values of that sort.
pub proof fn lemma_values_are(
    store: Seq<(Seq<char>, Seq<char>)>,
    pairs: Seq<(Seq<char>, Seq<char>)>,
    sort: spec_fn(Seq<char>) -> bool,
)
    requires
        values_are(store, sort),
        values_are(pairs, sort),
    ensures
        values_are(with_captures(store, pairs), sort),
    decreases pairs.len(),
{
    if pairs.len() > 0 {
        let front = pairs.drop_last();
        assert forall|k: int| 0 <= k < front.len() implies sort((#[trigger] front[k]).1) by {
            assert(sort(pairs[k].1));
        }
        lemma_values_are(store, front, sort);
        let before = with_captures(store, front);
        let after = with_captures(store, pairs);
        assert(sort(pairs[pairs.len() - 1].1));
        assert forall|k: int| 0 <= k < after.len() implies sort((#[trigger] after[k]).1) by {
            if k < before.len() {
                assert(sort(before[k].1));
            }
        }
    }
}

/// The captures of a match hold what its groups hold.
proof fn lemma_named_pairs(
    names: Seq<Option<Seq<char>>>,
    groups: Seq<Option<Seq<char>>>,
    n: int,
    sort: spec_fn(Seq<char>) -> bool,
)
    requires
        n <= groups.len(),
        forall|j: int|
            0 <= j < groups.len() ==> ((#[trigger] groups[j]) matches Some(g) ==> sort(g)),
    ensures
        values_are(named_pairs(names, groups, n), sort),
    decreases n,
{
    if n > 0 {
        lemma_named_pairs(names, groups, n - 1, sort);
        let rest = named_pairs(names, groups, n - 1);
        let here = named_pairs(names, groups, n);
        assert(groups[n - 1] matches Some(g) ==> sort(g));
        assert forall|k: int| 0 <= k < here.len() implies sort((#[trigger] here[k]).1) by {
            if k < rest.len() {
                assert(sort(rest[k].1));
            }
        }
    }
}

/// Runs every `| regexp "..."` stage of `pattern` against `line` and returns the
/// named captures. Every captured value is part of the line.
pub fn extract_regexp_captures(pattern: &str, line: &str) -> (r: CaptureStore)
    ensures
        r@ == regexps_captures(regexps_of(pattern@), line@),
        drawn_from(r@, line@),
{
    let raws = regexp_strings(pattern);
    let mut out = CaptureStore::new();
    let mut i: usize = 0;
    let ghost all = regexps_of(pattern@);
    assert(all.take(0) =~= Seq::<Seq<char>>::empty());
    while i < raws.len()
        invariant
            i <= raws@.len(),
            all == texts(raws@),
            out@ == regexps_captures(all.take(i as int), line@),
            drawn_from(out@, line@),
        decreases raws@.len() - i,
    {
        assert(all.take(i + 1).drop_last() =~= all.take(i as int));
        assert(all[i as int] == raws@[i as int]@);
        let ghost before = out@;
        if regex_error(raws[i].as_str()).is_none() {
            if let Some(groups) = regex_groups(raws[i].as_str(), line) {
                let names = regex_group_names(raws[i].as_str());
                store_groups(&names, &groups, &mut out);
                proof {
                    let ns = optional_texts(names@);
                    let gs = optional_texts(groups@);
                    let sort = |value: Seq<char>| part_of(value, line@);
                    assert forall|j: int| 0 <= j < gs.len() implies ((
                    #[trigger] gs[j]) matches Some(g) ==> sort(g)) by {
                        assert(gs[j] == optional_text(groups@[j]));
                    }
                    let n = if ns.len() < gs.len() {
                        ns.len() as int
                    } else {
                        gs.len() as int
                    };
                    lemma_named_pairs(ns, gs, n, sort);
                    lemma_values_are(before, match_captures(ns, gs), sort);
                }
            }
        }
        assert(with_captures(before, seq![]) == before);
        i = i + 1;
    }
    assert(all.take(i as int) =~= all);
    out
}

/// A stored capture can be read back, and storing it leaves the captures under
/// other names as they are.
pub proof fn law_capture_recall(
    store: Seq<(Seq<char>, Seq<char>)>,
    name: Seq<char>,
    value: Seq<char>,
    other: Seq<char>,
)
    requires
        distinct_names(store),
    ensures
        captured(with_capture(store, name, value), name) == Some(value),
        other != name ==> captured(with_capture(store, name, value), other) == captured(
            store,
            other,
        ),
        distinct_names(with_capture(store, name, value)),
{
    let after = with_capture(store, name, value);
    if is_captured(store, name) {
        let i = choose|i: int| 0 <= i < store.len() && (#[trigger] store[i]).0 == name;
        assert(after[i].0 == name);
        assert forall|a: int, b: int| 0 <= a < b < after.len() implies (#[trigger] after[a]).0 != (
        #[trigger] after[b]).0 by {
            assert(store[a].0 == after[a].0);
            assert(store[b].0 == after[b].0);
        }
    } else {
        assert(after[store.len() as int].0 == name);
        assert forall|a: int, b: int| 0 <= a < b < after.len() implies (#[trigger] after[a]).0 != (
        #[trigger] after[b]).0 by {
            assert(store[a].0 == after[a].0);
            if b < store.len() {
                assert(store[b].0 == after[b].0);
            }
        }
    }
    if other != name {
        if is_captured(store, other) {
            let i = choose|i: int| 0 <= i < store.len() && (#[trigger] store[i]).0 == other;
            assert(after[i] == store[i]);
            assert(after[i].0 == other);
            let j = choose|j: int| 0 <= j < after.len() && (#[trigger] after[j]).0 == other;
            assert(i == j);
        } else if is_captured(after, other) {
            let j = choose|j: int| 0 <= j < after.len() && (#[trigger] after[j]).0 == other;
            if j < store.len() {
                assert(store[j].0 == other);
            }
        }
    }
}

/// The last value that is given to `name`.
pub open spec fn last_value(pairs: Seq<(Seq<char>, Seq<char>)>, name: Seq<char>) -> Option<
    Seq<char>,
>
    decreases pairs.len(),
{
    if pairs.len() == 0 {
        None
    } else if pairs.last().0 == name {
        Some(pairs.last().1)
    } else {
        last_value(pairs.drop_last(), name)
    }
}

/// Of several captures stored under one name the last counts; names that are
/// not among them keep their value.
pub proof fn law_captures_recall(
    store: Seq<(Seq<char>, Seq<char>)>,
    pairs: Seq<(Seq<char>, Seq<char>)>,
    name: Seq<char>,
)
    requires
        distinct_names(store),
    ensures
        distinct_names(with_captures(store, pairs)),
        captured(with_captures(store, pairs), name) == (match last_value(pairs, name) {
            Some(value) => Some(value),
            None => captured(store, name),
        }),
    decreases pairs.len(),
{
    if pairs.len() > 0 {
        law_captures_recall(store, pairs.drop_last(), name);
        law_capture_recall(
            with_captures(store, pairs.drop_last()),
            pairs.last().0,
            pairs.last().1,
            name,
        );
    }
}

/// What is stored under a name is the value that stands beside it, and nothing
/// where the name does not stand in the store.
pub proof fn law_captured(store: Seq<(Seq<char>, Seq<char>)>, name: Seq<char>, i: int)
    requires
        distinct_names(store),
    ensures
        0 <= i < store.len() && store[i].0 == name ==> captured(store, name) == Some(store[i].1),
        (forall|k: int| 0 <= k < store.len() ==> (#[trigger] store[k]).0 != name) ==> captured(
            store,
            name,
        ) is None,
{
    if 0 <= i < store.len() && store[i].0 == name {
        let j = choose|j: int| 0 <= j < store.len() && (#[trigger] store[j]).0 == name;
        if i < j {
            assert(store[i].0 != store[j].0);
        } else if j < i {
            assert(store[j].0 != store[i].0);
        }
    }
}

/// Captures are filled in one by one: each replaces its own placeholder, `${`, its
/// name and `}`, wherever it stands, by its value.
pub proof fn law_resolved_one_by_one(
    pattern: Seq<char>,
    store: Seq<(Seq<char>, Seq<char>)>,
    name: Seq<char>,
    value: Seq<char>,
)
    ensures
        resolved(pattern, Seq::<(Seq<char>, Seq<char>)>::empty()) == pattern,
        resolved(pattern, store.push((name, value))) == replaced(
            resolved(pattern, store),
            seq!['$', '{'] + name + seq!['}'],
            value,
        ),
{
    reveal_strlit("${");
    reveal_strlit("}");
    assert(store.push((name, value)).drop_last() =~= store);
    assert(placeholder(name) =~= seq!['$', '{'] + name + seq!['}']);
}

proof fn lemma_last_of_pairs(
    names: Seq<Option<Seq<char>>>,
    groups: Seq<Option<Seq<char>>>,
    n: int,
    name: Seq<char>,
    j: int,
)
    requires
        0 <= n <= names.len(),
        n <= groups.len(),
    ensures
        0 <= j < n && names[j] == Some(name) && groups[j] is Some && (forall|k: int|
            j < k < n ==> #[trigger] names[k] != Some(name) || groups[k] is None) ==> last_value(
            named_pairs(names, groups, n),
            name,
        ) == groups[j],
        (forall|k: int|
            0 <= k < n ==> #[trigger] names[k] != Some(name) || groups[k] is None) ==> last_value(
            named_pairs(names, groups, n),
            name,
        ) is None,
    decreases n,
{
    if n > 0 {
        lemma_last_of_pairs(names, groups, n - 1, name, j);
        let rest = named_pairs(names, groups, n - 1);
        let here = named_pairs(names, groups, n);
        if names[n - 1] is Some && groups[n - 1] is Some {
            assert(here.drop_last() =~= rest);
            assert(here.last() == (names[n - 1]->Some_0, groups[n - 1]->Some_0));
        }
    }
}

/// A match captures under a name what the last group of that name holds, of those
/// that took part in it; and under no other name anything.
pub proof fn law_match_captures(
    names: Seq<Option<Seq<char>>>,
    groups: Seq<Option<Seq<char>>>,
    name: Seq<char>,
    j: int,
)
    requires
        names.len() == groups.len(),
    ensures
        0 <= j < names.len() && names[j] == Some(name) && groups[j] is Some && (forall|k: int|
            j < k < names.len() ==> #[trigger] names[k] != Some(name) || groups[k] is None)
            ==> last_value(match_captures(names, groups), name) == groups[j],
        (forall|k: int|
            0 <= k < names.len() ==> #[trigger] names[k] != Some(name) || groups[k] is None)
            ==> last_value(match_captures(names, groups), name) is None,
{
    lemma_last_of_pairs(names, groups, names.len() as int, name, j);
}

proof fn lemma_regexps_distinct(regexps: Seq<Seq<char>>, line: Seq<char>)
    ensures
        distinct_names(regexps_captures(regexps, line)),
    decreases regexps.len(),
{
    if regexps.len() > 0 {
        lemma_regexps_distinct(regexps.drop_last(), line);
        law_captures_recall(
            regexps_captures(regexps.drop_last(), line),
            regexp_captures(regexps.last(), line),
            Seq::empty(),
        );
    }
}

/// Every expression that compiles and matches adds what its groups hold, and what
/// it captures counts over what those before it captured; any other expression
/// adds nothing.
pub proof fn law_every_expression_captures(
    regexps: Seq<Seq<char>>,
    regexp: Seq<char>,
    line: Seq<char>,
    name: Seq<char>,
)
    ensures
        distinct_names(regexps_captures(regexps, line)),
        regexps_captures(Seq::<Seq<char>>::empty(), line).len() == 0,
        captured(regexps_captures(regexps.push(regexp), line), name) == if refusal(regexp) is None
            && matched_groups(regexp, line) is Some && last_value(
            match_captures(group_names(regexp), matched_groups(regexp, line)->Some_0),
            name,
        ) is Some {
            last_value(
                match_captures(group_names(regexp), matched_groups(regexp, line)->Some_0),
                name,
            )
        } else {
            captured(regexps_captures(regexps, line), name)
        },
{
    lemma_regexps_distinct(regexps, line);
    assert(regexps.push(regexp).drop_last() =~= regexps);
    law_captures_recall(
        regexps_captures(regexps, line),
        regexp_captures(regexp, line),
        name,
    );
}

/// Where no name occurs twice, the last value of a name is the one beside it.
pub proof fn lemma_last_is_captured(pairs: Seq<(Seq<char>, Seq<char>)>, name: Seq<char>)
    requires
        distinct_names(pairs),
    ensures
        last_value(pairs, name) == captured(pairs, name),
    decreases pairs.len(),
{
    if pairs.len() > 0 {
        let front = pairs.drop_last();
        let last = pairs.len() - 1;
        assert forall|a: int, b: int| 0 <= a < b < front.len() implies (#[trigger] front[a]).0 != (
        #[trigger] front[b]).0 by {
            assert(pairs[a].0 != pairs[b].0);
        }
        lemma_last_is_captured(front, name);
        if pairs[last].0 == name {
            law_captured(pairs, name, last);
        } else if is_captured(front, name) {
            let i = choose|i: int| 0 <= i < front.len() && (#[trigger] front[i]).0 == name;
            assert(pairs[i].0 == name);
            law_captured(pairs, name, i);
            law_captured(front, name, i);
        } else {
            assert forall|k: int| 0 <= k < pairs.len() implies (#[trigger] pairs[k]).0 != name by {
                if k < last {
                    assert(front[k].0 != name);
                }
            }
            law_captured(pairs, name, 0);
        }
    }
}

/// The last value that is given to a name is that of the last pair with the name.
pub proof fn law_last_value(pairs: Seq<(Seq<char>, Seq<char>)>, name: Seq<char>, i: int)
    ensures
        0 <= i < pairs.len() && pairs[i].0 == name && (forall|j: int|
            i < j < pairs.len() ==> (#[trigger] pairs[j]).0 != name) ==> last_value(pairs, name)
            == Some(pairs[i].1),
        (forall|j: int| 0 <= j < pairs.len() ==> (#[trigger] pairs[j]).0 != name) ==> last_value(
            pairs,
            name,
        ) is None,
    decreases pairs.len(),
{
    if pairs.len() > 0 {
        let front = pairs.drop_last();
        law_last_value(front, name, i);
        assert(forall|j: int| 0 <= j < front.len() ==> #[trigger] front[j] == pairs[j]);
        assert(pairs[pairs.len() - 1] == pairs.last());
    }
}

} // verus!
