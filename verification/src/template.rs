//! Patterns as templates: what filling in captures comes to.

use vstd::prelude::*;
use crate::captures::{
    captured, distinct_names, is_captured, law_captured, placeholder, resolved,
};
use crate::pattern::{delimited_from, find, template_refs_of};
use crate::polling::{asks_for, law_query, Query};
use crate::text::{lemma_replace_past, occurs_at, replace_from};

verus! {

/// A piece of a pattern: text, or a reference to a capture.
pub enum Piece {
    Text(Seq<char>),
    Reference(Seq<char>),
}

/// How a piece is written.
pub open spec fn piece_text(piece: Piece) -> Seq<char> {
    match piece {
        Piece::Text(text) => text,
        Piece::Reference(name) => seq!['$', '{'] + name + seq!['}'],
    }
}

/// How a sequence of pieces is written.
pub open spec fn template_text(pieces: Seq<Piece>) -> Seq<char>
    decreases pieces.len(),
{
    if pieces.len() == 0 {
        seq![]
    } else {
        piece_text(pieces.first()) + template_text(pieces.drop_first())
    }
}

/// The names that are referred to, in order.
pub open spec fn reference_names(pieces: Seq<Piece>) -> Seq<Seq<char>>
    decreases pieces.len(),
{
    if pieces.len() == 0 {
        seq![]
    } else {
        match pieces.first() {
            Piece::Text(_) => reference_names(pieces.drop_first()),
            Piece::Reference(name) => seq![name] + reference_names(pieces.drop_first()),
        }
    }
}

/// Whether a text neither holds the beginning of a reference nor can become one
/// with what follows it: no `$` stands at its end or before a `{`.
pub open spec fn inert(text: Seq<char>) -> bool {
    forall|i: int|
        0 <= i < text.len() && #[trigger] text[i] == '$' ==> i + 1 < text.len() && text[i + 1] != '{'
}

/// Whether a name can be referred to: it is not empty and holds neither `$` nor
/// `}`.
pub open spec fn is_name(name: Seq<char>) -> bool {
    &&& name.len() > 0
    &&& forall|i: int| 0 <= i < name.len() ==> #[trigger] name[i] != '$' && name[i] != '}'
}

/// Whether a piece is what it seems to be.
pub open spec fn plain_piece(piece: Piece) -> bool {
    match piece {
        Piece::Text(text) => inert(text),
        Piece::Reference(name) => is_name(name),
    }
}

/// Whether all pieces are what they seem to be.
pub open spec fn plain(pieces: Seq<Piece>) -> bool {
    forall|i: int| 0 <= i < pieces.len() ==> plain_piece(#[trigger] pieces[i])
}

/// Whether stored names can be referred to, and stored values are inert.
pub open spec fn plain_store(store: Seq<(Seq<char>, Seq<char>)>) -> bool {
    forall|i: int|
        0 <= i < store.len() ==> is_name((#[trigger] store[i]).0) && inert(store[i].1)
}

/// A piece with the reference to one capture filled in.
pub open spec fn with_value(piece: Piece, name: Seq<char>, value: Seq<char>) -> Piece {
    if piece == Piece::Reference(name) {
        Piece::Text(value)
    } else {
        piece
    }
}

/// A piece with its reference filled in, if that is captured.
pub open spec fn filled_piece(piece: Piece, store: Seq<(Seq<char>, Seq<char>)>) -> Piece {
    match piece {
        Piece::Text(_) => piece,
        Piece::Reference(name) => match captured(store, name) {
            Some(value) => Piece::Text(value),
            None => piece,
        },
    }
}

/// Pieces with all references filled in that are captured.
pub open spec fn filled(pieces: Seq<Piece>, store: Seq<(Seq<char>, Seq<char>)>) -> Seq<Piece> {
    pieces.map_values(|piece: Piece| filled_piece(piece, store))
}

/// Where `from` does not occur, nothing is replaced.
proof fn lemma_replace_skip(s: Seq<char>, from: Seq<char>, to: Seq<char>, i: int, k: int)
    requires
        0 <= i <= k <= s.len(),
        forall|p: int| i <= p < k ==> !#[trigger] occurs_at(s, from, p),
    ensures
        replace_from(s, from, to, i) == s.subrange(i, k) + replace_from(s, from, to, k),
{
    lemma_replace_past(s, from, to, i, k);
}

/// The characters of a placeholder.
proof fn lemma_placeholder(name: Seq<char>)
    ensures
        placeholder(name) == seq!['$', '{'] + name + seq!['}'],
        piece_text(Piece::Reference(name)) == placeholder(name),
        placeholder(name).len() == name.len() + 3,
        placeholder(name)[0] == '$',
        placeholder(name)[1] == '{',
        placeholder(name)[name.len() as int + 2] == '}',
        forall|i: int| 0 <= i < name.len() ==> #[trigger] placeholder(name)[i + 2] == name[i],
        placeholder(name).subrange(2, name.len() as int + 2) == name,
{
    reveal_strlit("${");
    reveal_strlit("}");
    assert(placeholder(name) =~= seq!['$', '{'] + name + seq!['}']);
    assert(placeholder(name).subrange(2, name.len() as int + 2) =~= name);
}

/// A placeholder occurs only at a `$` before a `{`.
proof fn lemma_occurrence(s: Seq<char>, name: Seq<char>, p: int)
    requires
        occurs_at(s, placeholder(name), p),
    ensures
        p + 1 < s.len(),
        s[p] == '$',
        s[p + 1] == '{',
        forall|i: int|
            0 <= i < placeholder(name).len() ==> #[trigger] s[p + i] == placeholder(name)[i],
{
    lemma_placeholder(name);
    let part = s.subrange(p, p + placeholder(name).len());
    assert forall|i: int| 0 <= i < placeholder(name).len() implies #[trigger] s[p + i] == placeholder(
        name,
    )[i] by {
        assert(part[i] == s[p + i]);
    }
    assert(s[p + 0] == placeholder(name)[0]);
    assert(s[p + 1] == placeholder(name)[1]);
}

/// In a written piece the placeholder of a capture occurs only as the reference
/// to it.
proof fn lemma_no_occurrence(pre: Seq<char>, piece: Piece, post: Seq<char>, name: Seq<char>, p: int)
    requires
        plain_piece(piece),
        is_name(name),
        pre.len() <= p < pre.len() + piece_text(piece).len(),
        p > pre.len() || piece != Piece::Reference(name),
    ensures
        !occurs_at(pre + piece_text(piece) + post, placeholder(name), p),
{
    if let Piece::Reference(other) = piece {
        lemma_placeholder(other);
    }
    let s = pre + piece_text(piece) + post;
    let at = p - pre.len();
    assert(s[p] == piece_text(piece)[at]);
    if occurs_at(s, placeholder(name), p) {
        lemma_occurrence(s, name, p);
        match piece {
            Piece::Text(text) => {
                assert(text[at] == '$');
                assert(s[p + 1] == text[at + 1]);
            },
            Piece::Reference(other) => {
                lemma_placeholder(other);
                lemma_placeholder(name);
                if 2 <= at < other.len() + 2 {
                    assert(placeholder(other)[(at - 2) + 2] == other[at - 2]);
                }
                assert(at == 0);
                if name.len() < other.len() {
                    let i = name.len() as int;
                    assert(s[p + (i + 2)] == placeholder(name)[i + 2]);
                    assert(s[p + (i + 2)] == placeholder(other)[i + 2]);
                    assert(other[i] == '}');
                } else if other.len() < name.len() {
                    let i = other.len() as int;
                    assert(s[p + (i + 2)] == placeholder(name)[i + 2]);
                    assert(s[p + (i + 2)] == placeholder(other)[i + 2]);
                    assert(name[i] == '}');
                } else {
                    assert forall|i: int| 0 <= i < name.len() implies name[i] == other[i] by {
                        assert(s[p + (i + 2)] == placeholder(name)[i + 2]);
                        assert(s[p + (i + 2)] == placeholder(other)[i + 2]);
                    }
                    assert(name =~= other);
                }
            },
        }
    }
}

/// Replacing the placeholder of one capture fills in the references to it.
proof fn lemma_fill_one(pre: Seq<char>, pieces: Seq<Piece>, name: Seq<char>, value: Seq<char>)
    requires
        plain(pieces),
        is_name(name),
    ensures
        replace_from(
            pre + template_text(pieces),
            placeholder(name),
            value,
            pre.len() as int,
        ) == template_text(pieces.map_values(|piece: Piece| with_value(piece, name, value))),
    decreases pieces.len(),
{
    let s = pre + template_text(pieces);
    let from = placeholder(name);
    let after = pieces.map_values(|piece: Piece| with_value(piece, name, value));
    let i = pre.len() as int;
    if pieces.len() > 0 {
        let piece = pieces.first();
        let rest = pieces.drop_first();
        let post = template_text(rest);
        let next = pre + piece_text(piece);
        let k = next.len() as int;
        assert(plain_piece(pieces[0]));
        assert forall|m: int| 0 <= m < rest.len() implies plain_piece(#[trigger] rest[m]) by {
            assert(plain_piece(pieces[m + 1]));
        }
        lemma_fill_one(next, rest, name, value);
        assert(next + post =~= s);
        assert(after.drop_first() =~= rest.map_values(
            |piece: Piece| with_value(piece, name, value),
        ));
        assert(after.first() == with_value(piece, name, value));
        if piece == Piece::Reference(name) {
            lemma_placeholder(name);
            assert(s.subrange(i, i + from.len()) =~= from);
            assert(occurs_at(s, from, i));
        } else {
            assert forall|p: int| i <= p < k implies !#[trigger] occurs_at(s, from, p) by {
                lemma_no_occurrence(pre, piece, post, name, p);
            }
            lemma_replace_skip(s, from, value, i, k);
            assert(s.subrange(i, k) =~= piece_text(piece));
        }
    }
}

/// Storing one more capture fills in one more name.
proof fn lemma_filled_step(store: Seq<(Seq<char>, Seq<char>)>, piece: Piece)
    requires
        store.len() > 0,
        distinct_names(store),
    ensures
        filled_piece(piece, store) == with_value(
            filled_piece(piece, store.drop_last()),
            store.last().0,
            store.last().1,
        ),
{
    let front = store.drop_last();
    if let Piece::Reference(name) = piece {
        if is_captured(front, name) {
            let i = choose|i: int| 0 <= i < front.len() && (#[trigger] front[i]).0 == name;
            assert(store[i].0 == name);
            let j = choose|j: int| 0 <= j < store.len() && (#[trigger] store[j]).0 == name;
            if i < j {
                assert(store[i].0 != store[j].0);
            } else if j < i {
                assert(store[j].0 != store[i].0);
            }
        } else if is_captured(store, name) {
            let j = choose|j: int| 0 <= j < store.len() && (#[trigger] store[j]).0 == name;
            if j < front.len() {
                assert(front[j].0 == name);
            }
        } else {
            if store.last().0 == name {
                assert(store[store.len() - 1].0 == name);
            }
        }
    }
}

/// Filled pieces are what they seem to be.
proof fn lemma_filled_plain(pieces: Seq<Piece>, store: Seq<(Seq<char>, Seq<char>)>)
    requires
        plain(pieces),
        plain_store(store),
    ensures
        plain(filled(pieces, store)),
{
    assert forall|i: int| 0 <= i < pieces.len() implies plain_piece(
        #[trigger] filled(pieces, store)[i],
    ) by {
        assert(plain_piece(pieces[i]));
        if let Piece::Reference(name) = pieces[i] {
            if is_captured(store, name) {
                let j = choose|j: int| 0 <= j < store.len() && (#[trigger] store[j]).0 == name;
                assert(inert(store[j].1));
            }
        }
    }
}

/// Filling in captures replaces every reference to a captured name by the value
/// captured under it, and changes nothing else.
pub proof fn law_captures_fill_templates(
    pieces: Seq<Piece>,
    store: Seq<(Seq<char>, Seq<char>)>,
)
    requires
        plain(pieces),
        plain_store(store),
        distinct_names(store),
    ensures
        resolved(template_text(pieces), store) == template_text(filled(pieces, store)),
    decreases store.len(),
{
    if store.len() == 0 {
        assert(filled(pieces, store) =~= pieces) by {
            assert forall|i: int| 0 <= i < pieces.len() implies filled(pieces, store)[i]
                == pieces[i] by {}
        }
    } else {
        let front = store.drop_last();
        let name = store.last().0;
        let value = store.last().1;
        assert forall|i: int| 0 <= i < front.len() implies is_name((#[trigger] front[i]).0) && inert(
            front[i].1,
        ) by {
            assert(is_name(store[i].0));
        }
        assert(is_name(store[store.len() - 1].0));
        assert(distinct_names(front)) by {
            assert forall|i: int, j: int| 0 <= i < j < front.len() implies (#[trigger] front[i]).0 != (
            #[trigger] front[j]).0 by {
                assert(store[i].0 != store[j].0);
            }
        }
        law_captures_fill_templates(pieces, front);
        lemma_filled_plain(pieces, front);
        let before = filled(pieces, front);
        lemma_fill_one(seq![], before, name, value);
        assert(Seq::<char>::empty() + template_text(before) =~= template_text(before));
        let after = before.map_values(|piece: Piece| with_value(piece, name, value));
        assert(after =~= filled(pieces, store)) by {
            assert forall|i: int| 0 <= i < pieces.len() implies after[i] == filled(
                pieces,
                store,
            )[i] by {
                lemma_filled_step(store, pieces[i]);
            }
        }
    }
}

proof fn lemma_find(s: Seq<char>, c: char, i: int, k: int)
    requires
        0 <= i <= k < s.len(),
        s[k] == c,
        forall|p: int| i <= p < k ==> #[trigger] s[p] != c,
    ensures
        find(s, c, i) == k,
    decreases k - i,
{
    if i < k {
        lemma_find(s, c, i + 1, k);
    }
}

proof fn lemma_delimited_skip(s: Seq<char>, open: Seq<char>, close: char, i: int, k: int)
    requires
        0 <= i <= k <= s.len(),
        forall|p: int| i <= p < k ==> !#[trigger] occurs_at(s, open, p),
    ensures
        delimited_from(s, open, close, i) == delimited_from(s, open, close, k),
    decreases k - i,
{
    if i < k {
        assert(!occurs_at(s, open, i));
        lemma_delimited_skip(s, open, close, i + 1, k);
    }
}

proof fn lemma_refs(pre: Seq<char>, pieces: Seq<Piece>)
    requires
        plain(pieces),
    ensures
        delimited_from(pre + template_text(pieces), "${"@, '}', pre.len() as int)
            == reference_names(pieces),
    decreases pieces.len(),
{
    reveal_strlit("${");
    let s = pre + template_text(pieces);
    let open = "${"@;
    let i = pre.len() as int;
    if pieces.len() > 0 {
        let piece = pieces.first();
        let rest = pieces.drop_first();
        let post = template_text(rest);
        let next = pre + piece_text(piece);
        let k = next.len() as int;
        assert(plain_piece(pieces[0]));
        assert forall|m: int| 0 <= m < rest.len() implies plain_piece(#[trigger] rest[m]) by {
            assert(plain_piece(pieces[m + 1]));
        }
        lemma_refs(next, rest);
        assert(next + post =~= s);
        match piece {
            Piece::Text(text) => {
                assert forall|p: int| i <= p < k implies !#[trigger] occurs_at(s, open, p) by {
                    if occurs_at(s, open, p) {
                        let part = s.subrange(p, p + 2);
                        assert(part[0] == s[p] && part[1] == s[p + 1]);
                        assert(text[p - i] == '$');
                        assert(s[p + 1] == text[p - i + 1]);
                    }
                }
                lemma_delimited_skip(s, open, '}', i, k);
            },
            Piece::Reference(name) => {
                lemma_placeholder(name);
                assert forall|m: int| 0 <= m < name.len() + 3 implies #[trigger] s[i + m]
                    == placeholder(name)[m] by {}
                assert(s[i + 0] == '$' && s[i + 1] == '{');
                assert(s.subrange(i, i + 2) =~= open);
                assert(occurs_at(s, open, i));
                let end = i + 2 + name.len();
                assert(s[i + (name.len() + 2)] == '}');
                assert forall|p: int| i + 2 <= p < end implies #[trigger] s[p] != '}' by {
                    assert(s[i + (p - i)] == placeholder(name)[p - i]);
                    assert(placeholder(name)[(p - i - 2) + 2] == name[p - i - 2]);
                }
                lemma_find(s, '}', i + 2, end);
                assert(s.subrange(i + 2, end) =~= name) by {
                    assert forall|m: int| 0 <= m < name.len() implies s.subrange(i + 2, end)[m]
                        == name[m] by {
                        assert(s[i + (m + 2)] == placeholder(name)[m + 2]);
                    }
                }
                assert(end + 1 == k);
            },
        }
    }
}

/// The references that are found in a template are those that were put there, in
/// order.
pub proof fn law_template_refs(pieces: Seq<Piece>)
    requires
        plain(pieces),
    ensures
        template_refs_of(template_text(pieces)) == reference_names(pieces),
{
    lemma_refs(seq![], pieces);
    assert(Seq::<char>::empty() + template_text(pieces) =~= template_text(pieces));
}

proof fn lemma_no_names_left(pieces: Seq<Piece>, store: Seq<(Seq<char>, Seq<char>)>)
    requires
        forall|i: int|
            0 <= i < reference_names(pieces).len() ==> is_captured(
                store,
                #[trigger] reference_names(pieces)[i],
            ),
    ensures
        reference_names(filled(pieces, store)).len() == 0,
    decreases pieces.len(),
{
    if pieces.len() > 0 {
        let rest = pieces.drop_first();
        assert(filled(pieces, store).drop_first() =~= filled(rest, store));
        assert(filled(pieces, store).first() == filled_piece(pieces.first(), store));
        if let Piece::Reference(name) = pieces.first() {
            assert(reference_names(pieces)[0] == name);
            assert forall|i: int| 0 <= i < reference_names(rest).len() implies is_captured(
                store,
                #[trigger] reference_names(rest)[i],
            ) by {
                assert(reference_names(pieces)[i + 1] == reference_names(rest)[i]);
            }
        } else {
            assert(reference_names(pieces) == reference_names(rest));
        }
        lemma_no_names_left(rest, store);
    }
}

/// Where every name that a template refers to is captured, no reference is left
/// once captures are filled in.
pub proof fn law_no_reference_left(pieces: Seq<Piece>, store: Seq<(Seq<char>, Seq<char>)>)
    requires
        plain(pieces),
        plain_store(store),
        distinct_names(store),
        forall|i: int|
            0 <= i < reference_names(pieces).len() ==> is_captured(
                store,
                #[trigger] reference_names(pieces)[i],
            ),
    ensures
        template_refs_of(resolved(template_text(pieces), store)).len() == 0,
{
    law_captures_fill_templates(pieces, store);
    lemma_filled_plain(pieces, store);
    law_template_refs(filled(pieces, store));
    lemma_no_names_left(pieces, store);
}

/// A template is written piece by piece: a text as it is, and a reference as `${`,
/// its name and `}`.
pub proof fn law_template_text(pieces: Seq<Piece>, text: Seq<char>, name: Seq<char>)
    ensures
        template_text(Seq::<Piece>::empty()).len() == 0,
        template_text(seq![Piece::Text(text)] + pieces) == text + template_text(pieces),
        template_text(seq![Piece::Reference(name)] + pieces) == seq!['$', '{'] + name + seq!['}']
            + template_text(pieces),
{
    assert((seq![Piece::Text(text)] + pieces).drop_first() =~= pieces);
    assert((seq![Piece::Reference(name)] + pieces).drop_first() =~= pieces);
}

/// The text that is asked for a unit is the base query, a space, and the template
/// of the unit in which every reference to a captured name, and nothing else, is
/// replaced by the value captured under it. Where all are captured, no reference
/// is left in it.
pub proof fn law_queries_are_filled_in(
    query: Query,
    pieces: Seq<Piece>,
    out: Seq<Piece>,
    timeout_ms: u64,
    at: (int, int),
    base_query: Seq<char>,
    slack_ms: u64,
    store: Seq<(Seq<char>, Seq<char>)>,
)
    requires
        asks_for(query, template_text(pieces), timeout_ms, at, base_query, slack_ms, store),
        plain(pieces),
        plain_store(store),
        distinct_names(store),
        out.len() == pieces.len(),
        forall|i: int|
            0 <= i < pieces.len() ==> match #[trigger] pieces[i] {
                Piece::Text(_) => out[i] == pieces[i],
                Piece::Reference(name) => {
                    &&& forall|k: int|
                        0 <= k < store.len() && (#[trigger] store[k]).0 == name ==> out[i]
                            == Piece::Text(store[k].1)
                    &&& (forall|k: int| 0 <= k < store.len() ==> (#[trigger] store[k]).0 != name)
                        ==> out[i] == pieces[i]
                },
            },
    ensures
        query.text@ == base_query + seq![' '] + template_text(out),
        query.pattern@ == template_text(out),
        (forall|i: int| 0 <= i < out.len() ==> (#[trigger] out[i]) is Text) ==> template_refs_of(
            query.pattern@,
        ).len() == 0,
{
    law_query(query, template_text(pieces), timeout_ms, at, base_query, slack_ms, store);
    law_captures_fill_templates(pieces, store);
    assert forall|i: int| 0 <= i < pieces.len() implies filled(pieces, store)[i] == out[i] by {
        if let Piece::Reference(name) = pieces[i] {
            if is_captured(store, name) {
                let k = choose|k: int| 0 <= k < store.len() && (#[trigger] store[k]).0 == name;
                law_captured(store, name, k);
            } else {
                law_captured(store, name, 0);
            }
        }
    }
    assert(filled(pieces, store) =~= out);
    if forall|i: int| 0 <= i < out.len() ==> (#[trigger] out[i]) is Text {
        lemma_filled_plain(pieces, store);
        law_template_refs(out);
        lemma_only_texts(out);
    }
}

proof fn lemma_only_texts(pieces: Seq<Piece>)
    requires
        forall|i: int| 0 <= i < pieces.len() ==> (#[trigger] pieces[i]) is Text,
    ensures
        reference_names(pieces).len() == 0,
    decreases pieces.len(),
{
    if pieces.len() > 0 {
        assert(pieces[0] is Text);
        assert forall|i: int| 0 <= i < pieces.drop_first().len() implies (
        #[trigger] pieces.drop_first()[i]) is Text by {
            assert(pieces[i + 1] is Text);
        }
        lemma_only_texts(pieces.drop_first());
    }
}

/// Any text in which no `$` ends it or stands before a `{` can be a piece of a
/// template, and any name that is not empty and holds neither `$` nor `}` can be
/// referred to in one.
pub proof fn law_what_is_plain(pieces: Seq<Piece>, store: Seq<(Seq<char>, Seq<char>)>)
    ensures
        (forall|i: int|
            0 <= i < pieces.len() ==> match #[trigger] pieces[i] {
                Piece::Text(text) => forall|k: int|
                    0 <= k < text.len() && #[trigger] text[k] == '$' ==> k + 1 < text.len()
                        && text[k + 1] != '{',
                Piece::Reference(name) => name.len() > 0 && forall|k: int|
                    0 <= k < name.len() ==> #[trigger] name[k] != '$' && name[k] != '}',
            }) ==> plain(pieces),
        (forall|i: int|
            #![trigger store[i]]
            0 <= i < store.len() ==> store[i].0.len() > 0 && (forall|k: int|
                0 <= k < store[i].0.len() ==> #[trigger] store[i].0[k] != '$' && store[i].0[k]
                    != '}') && (forall|k: int|
                0 <= k < store[i].1.len() && #[trigger] store[i].1[k] == '$' ==> k + 1
                    < store[i].1.len() && store[i].1[k + 1] != '{')) ==> plain_store(store),
{
}

} // verus!
