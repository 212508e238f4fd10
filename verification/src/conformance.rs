//! The builder and the grammar fit: a tree that the grammar matched spells a
//! value, unless one of its escape sequences stands for no character.

use crate::builder::{
    build_elements, build_members, build_string, build_value, decode_escape, decode_parts,
};
use crate::emit::minified;
use crate::grammar::{
    boolean_end, digit_at, escape_end, exponent_end, holds, is_digit, is_number_literal,
    lemma_digits_end_at, lemma_digits_end_is_end, lemma_match_chars_bounds,
    lemma_skip_ws_bounds, mantissa_end, match_array, match_chars, match_elements, match_object,
    match_pair, match_pairs, match_string, match_value, number_end, numeral_end, parse_tree,
    skip_ws, span, Outcome, Rule, Run, Scan, Span,
};
use crate::parser::document;
use crate::roundtrip::lemma_round_trip;
use crate::value::{insert, Json};
use vstd::prelude::*;

verus! {

/// Every escape sequence in the tree stands for a character.
pub open spec fn escapes_decode(t: Span) -> bool
    decreases t,
{
    &&& t.rule == Rule::escape_sequence ==> decode_escape(t.text) is Some
    &&& forall|i: int| 0 <= i < t.children.len() ==> escapes_decode(#[trigger] t.children[i])
}

/// The rule of a span that stands for a value.
pub open spec fn is_value_rule(rule: Rule) -> bool {
    rule == Rule::object || rule == Rule::array || rule == Rule::string || rule == Rule::number
        || rule == Rule::boolean || rule == Rule::null
}

/// The span has no span under it.
pub open spec fn is_bare(t: Span) -> bool {
    t.children.len() == 0
}

/// The tree has the shape that the grammar gives a document or a value: a
/// document holds one object or array, an object holds pairs, a pair a
/// string and a value, an array values, a string one span for each
/// character or escape sequence; a number span holds a number literal and a
/// boolean span `true` or `false`.
pub open spec fn shaped(t: Span) -> bool
    decreases t,
{
    match t.rule {
        Rule::json => t.children.len() == 1 && (t.children[0].rule == Rule::object
            || t.children[0].rule == Rule::array) && shaped(t.children[0]),
        Rule::object => forall|i: int|
            0 <= i < t.children.len() ==> (#[trigger] t.children[i]).rule == Rule::pair && shaped(
                t.children[i],
            ),
        Rule::pair => t.children.len() == 2 && t.children[0].rule == Rule::string && shaped(
            t.children[0],
        ) && is_value_rule(t.children[1].rule) && shaped(t.children[1]),
        Rule::array => forall|i: int|
            0 <= i < t.children.len() ==> is_value_rule((#[trigger] t.children[i]).rule) && shaped(
                t.children[i],
            ),
        Rule::string => forall|i: int|
            0 <= i < t.children.len() ==> is_part((#[trigger] t.children[i])),
        Rule::number => is_number_literal(t.text) && is_bare(t),
        Rule::boolean => (t.text == seq!['t', 'r', 'u', 'e'] || t.text == seq![
            'f',
            'a',
            'l',
            's',
            'e',
        ]) && is_bare(t),
        Rule::null => is_bare(t),
        _ => true,
    }
}

/// The span is one of a string's body: a character or an escape sequence,
/// with no span under it.
pub open spec fn is_part(t: Span) -> bool {
    (t.rule == Rule::character || t.rule == Rule::escape_sequence) && is_bare(t)
}

/// The text that was scanned as a number is, by itself, a number literal.
pub proof fn lemma_scanned_number(s: Seq<char>, i: int)
    requires
        0 <= i,
        number_end(s, i) is End,
    ensures
        i < number_end(s, i)->End_0 <= s.len(),
        is_number_literal(s.subrange(i, number_end(s, i)->End_0)),
{
    let e = number_end(s, i)->End_0;
    let a = if holds(s, i, '-') { i + 1 } else { i };
    let b = numeral_end(s, a)->End_0;
    let c = mantissa_end(s, i)->End_0;
    lemma_digits_end_is_end(s, a);
    lemma_digits_end_is_end(s, b + 1);
    let d = if holds(s, c + 1, '+') || holds(s, c + 1, '-') { c + 2 } else { c + 1 };
    lemma_digits_end_is_end(s, d);
    assert(a < b <= c <= e <= s.len());
    let t = s.subrange(i, e);
    assert forall|k: int| 0 <= k < t.len() implies t[k] == s[i + k] by {}
    assert(holds(t, 0, '-') == holds(s, i, '-'));
    assert(digit_at(t, a - i));
    if s[a] != '0' {
        assert forall|j: int| a - i <= j < b - i implies digit_at(t, j) by {
            assert(digit_at(s, j + i));
        }
        lemma_digits_end_at(t, a - i, b - a);
    }
    assert(numeral_end(t, a - i) == Scan::End(b - i));
    if holds(s, b, '.') && digit_at(s, b + 1) {
        assert forall|j: int| b + 1 - i <= j < c - i implies digit_at(t, j) by {
            assert(digit_at(s, j + i));
        }
        lemma_digits_end_at(t, b + 1 - i, c - (b + 1));
    }
    assert(mantissa_end(t, 0) == Scan::End(c - i));
    if c < e {
        assert forall|j: int| d - i <= j < e - i implies digit_at(t, j) by {
            assert(digit_at(s, j + i));
        }
        lemma_digits_end_at(t, d - i, e - d);
    }
    assert(exponent_end(t, c - i) == e - i);
}

/// The spans of a string's body spell a text where each escape sequence
/// among them stands for a character.
proof fn lemma_parts_decode(kids: Seq<Span>, k: int, acc: Seq<char>)
    requires
        0 <= k,
        forall|j: int| 0 <= j < kids.len() ==> escapes_decode(#[trigger] kids[j]),
    ensures
        decode_parts(kids, k, acc) is Some,
    decreases kids.len() - k,
{
    if k < kids.len() {
        assert(escapes_decode(kids[k]));
        if kids[k].rule == Rule::character {
            lemma_parts_decode(kids, k + 1, acc + kids[k].text);
        } else if kids[k].rule == Rule::escape_sequence {
            lemma_parts_decode(kids, k + 1, acc.push(decode_escape(kids[k].text)->Some_0));
        } else {
            lemma_parts_decode(kids, k + 1, acc);
        }
    }
}

/// A tree of the grammar's shape whose escape sequences all stand for
/// characters spells a value.
pub proof fn lemma_shaped_builds(t: Span)
    requires
        shaped(t),
        escapes_decode(t),
        is_value_rule(t.rule) || t.rule == Rule::json,
    ensures
        build_value(t) is Some,
    decreases t, 0nat,
{
    match t.rule {
        Rule::json => {
            assert(escapes_decode(t.children[0]));
            lemma_shaped_builds(t.children[0]);
        },
        Rule::object => {
            assert forall|i: int| 0 <= i < t.children.len() implies (#[trigger] t.children[i]).rule
                == Rule::pair && shaped(t.children[i]) && escapes_decode(t.children[i]) by {}
            lemma_members_build(t.children, 0, Seq::empty());
        },
        Rule::array => {
            assert forall|i: int| 0 <= i < t.children.len() implies is_value_rule(
                (#[trigger] t.children[i]).rule,
            ) && shaped(t.children[i]) && escapes_decode(t.children[i]) by {}
            lemma_elements_build(t.children, 0, Seq::empty());
        },
        Rule::string => {
            lemma_parts_decode(t.children, 0, Seq::empty());
        },
        _ => {},
    }
}

/// Pairs of the grammar's shape spell members.
proof fn lemma_members_build(kids: Seq<Span>, k: int, acc: Seq<(Seq<char>, Json)>)
    requires
        0 <= k,
        forall|i: int|
            0 <= i < kids.len() ==> (#[trigger] kids[i]).rule == Rule::pair && shaped(kids[i])
                && escapes_decode(kids[i]),
    ensures
        build_members(kids, k, acc) is Some,
    decreases kids, kids.len() - k,
{
    if k < kids.len() {
        let pair = kids[k];
        assert(pair.rule == Rule::pair && shaped(pair) && escapes_decode(pair));
        let key = pair.children[0];
        let value = pair.children[1];
        assert(escapes_decode(key));
        assert(escapes_decode(value));
        lemma_parts_decode(key.children, 0, Seq::empty());
        lemma_shaped_builds(value);
        lemma_members_build(
            kids,
            k + 1,
            insert(acc, build_string(key)->Some_0, build_value(value)->Some_0),
        );
    }
}

/// Values of the grammar's shape spell elements.
proof fn lemma_elements_build(kids: Seq<Span>, k: int, acc: Seq<Json>)
    requires
        0 <= k,
        forall|i: int|
            0 <= i < kids.len() ==> is_value_rule((#[trigger] kids[i]).rule) && shaped(kids[i])
                && escapes_decode(kids[i]),
    ensures
        build_elements(kids, k, acc) is Some,
    decreases kids, kids.len() - k,
{
    if k < kids.len() {
        assert(is_value_rule(kids[k].rule) && shaped(kids[k]) && escapes_decode(kids[k]));
        lemma_shaped_builds(kids[k]);
        lemma_elements_build(kids, k + 1, acc.push(build_value(kids[k])->Some_0));
    }
}

/// What the grammar matches as a value has the grammar's shape.
pub proof fn lemma_value_shaped(s: Seq<char>, i: int)
    ensures
        match_value(s, i) matches Outcome::Matched(t, e) ==> shaped(t) && is_value_rule(t.rule),
    decreases s.len() - i, 3nat,
{
    if !(0 <= i < s.len()) {
    } else if s[i] == '{' {
        lemma_object_shaped(s, i);
    } else if s[i] == '[' {
        lemma_array_shaped(s, i);
    } else if s[i] == '"' {
        lemma_string_shaped(s, i);
    } else if s[i] == '-' || is_digit(s[i]) {
        if number_end(s, i) is End {
            lemma_scanned_number(s, i);
        }
    } else if s[i] == 't' || s[i] == 'f' {
        if boolean_end(s, i) is End {
            let e = boolean_end(s, i)->End_0;
            let t = s.subrange(i, e);
            if e == i + 4 {
                assert(t =~= seq!['t', 'r', 'u', 'e']);
            } else {
                assert(t =~= seq!['f', 'a', 'l', 's', 'e']);
            }
        }
    } else {
    }
}

/// What the grammar matches as a string has the grammar's shape.
proof fn lemma_string_shaped(s: Seq<char>, i: int)
    ensures
        match_string(s, i) matches Outcome::Matched(t, e) ==> shaped(t) && t.rule == Rule::string,
{
    if holds(s, i, '"') {
        lemma_chars_shaped(s, i + 1, Seq::empty());
    }
}

/// What the grammar matches as the body of a string are spans of characters
/// and escape sequences.
proof fn lemma_chars_shaped(s: Seq<char>, i: int, acc: Seq<Span>)
    requires
        forall|k: int| 0 <= k < acc.len() ==> is_part(#[trigger] acc[k]),
    ensures
        match_chars(s, i, acc) matches Run::Matched(all, e) ==> forall|k: int|
            0 <= k < all.len() ==> is_part(#[trigger] all[k]),
    decreases s.len() - i,
{
    if !(0 <= i < s.len()) {
    } else if s[i] == '"' {
    } else if s[i] == '\\' {
        if let Scan::End(e) = escape_end(s, i) {
            let child = span(Rule::escape_sequence, s, i, e, seq![]);
            lemma_parts_push(acc, child);
            lemma_chars_shaped(s, e, acc.push(child));
        }
    } else {
        let child = span(Rule::character, s, i, i + 1, seq![]);
        lemma_parts_push(acc, child);
        lemma_chars_shaped(s, i + 1, acc.push(child));
    }
}

/// Spans of a string's body with one more of them are such spans.
proof fn lemma_parts_push(acc: Seq<Span>, child: Span)
    requires
        forall|k: int| 0 <= k < acc.len() ==> is_part(#[trigger] acc[k]),
        is_part(child),
    ensures
        forall|k: int| 0 <= k < acc.push(child).len() ==> is_part(#[trigger] acc.push(child)[k]),
{
    let longer = acc.push(child);
    assert forall|k: int| 0 <= k < longer.len() implies is_part(#[trigger] longer[k]) by {
        if k < acc.len() {
            assert(longer[k] == acc[k]);
        }
    }
}

/// What the grammar matches as an object has the grammar's shape.
proof fn lemma_object_shaped(s: Seq<char>, i: int)
    ensures
        match_object(s, i) matches Outcome::Matched(t, e) ==> shaped(t) && t.rule == Rule::object,
    decreases s.len() - i, 2nat,
{
    if holds(s, i, '{') {
        let j = skip_ws(s, i + 1);
        if !holds(s, j, '}') {
            lemma_skip_ws_bounds(s, i + 1);
            lemma_pairs_shaped(s, j, Seq::empty());
        }
    }
}

/// What the grammar matches as the pairs of an object are pairs of the
/// grammar's shape.
proof fn lemma_pairs_shaped(s: Seq<char>, i: int, acc: Seq<Span>)
    requires
        forall|k: int| 0 <= k < acc.len() ==> (#[trigger] acc[k]).rule == Rule::pair && shaped(acc[k]),
    ensures
        match_pairs(s, i, acc) matches Run::Matched(all, e) ==> forall|k: int|
            0 <= k < all.len() ==> (#[trigger] all[k]).rule == Rule::pair && shaped(all[k]),
    decreases s.len() - i, 1nat,
{
    lemma_pair_shaped(s, i);
    match match_pair(s, i) {
        Outcome::Failed(f) => {},
        Outcome::Matched(p, e) => {
            let j = skip_ws(s, e);
            let next = acc.push(p);
            assert forall|k: int| 0 <= k < next.len() implies (#[trigger] next[k]).rule
                == Rule::pair && shaped(next[k]) by {
                if k < acc.len() {
                    assert(next[k] == acc[k]);
                }
            }
            if holds(s, j, '}') {
            } else if holds(s, j, ',') && i < e {
                lemma_skip_ws_bounds(s, e);
                lemma_skip_ws_bounds(s, j + 1);
                lemma_pairs_shaped(s, skip_ws(s, j + 1), next);
            }
        },
    }
}

/// What the grammar matches as a pair has the grammar's shape.
proof fn lemma_pair_shaped(s: Seq<char>, i: int)
    ensures
        match_pair(s, i) matches Outcome::Matched(t, e) ==> shaped(t) && t.rule == Rule::pair,
    decreases s.len() - i, 0nat,
{
    lemma_string_shaped(s, i);
    match match_string(s, i) {
        Outcome::Failed(f) => {},
        Outcome::Matched(key, a) => {
            let b = skip_ws(s, a);
            if holds(s, b, ':') {
                let c = skip_ws(s, b + 1);
                if 0 <= i {
                    lemma_match_chars_bounds(s, i + 1, Seq::empty());
                }
                lemma_skip_ws_bounds(s, a);
                lemma_skip_ws_bounds(s, b + 1);
                lemma_value_shaped(s, c);
            }
        },
    }
}

/// What the grammar matches as an array has the grammar's shape.
proof fn lemma_array_shaped(s: Seq<char>, i: int)
    ensures
        match_array(s, i) matches Outcome::Matched(t, e) ==> shaped(t) && t.rule == Rule::array,
    decreases s.len() - i, 2nat,
{
    if holds(s, i, '[') {
        let j = skip_ws(s, i + 1);
        if !holds(s, j, ']') {
            lemma_skip_ws_bounds(s, i + 1);
            lemma_elements_shaped(s, j, Seq::empty());
        }
    }
}

/// What the grammar matches as the elements of an array are values of the
/// grammar's shape.
proof fn lemma_elements_shaped(s: Seq<char>, i: int, acc: Seq<Span>)
    requires
        forall|k: int|
            0 <= k < acc.len() ==> is_value_rule((#[trigger] acc[k]).rule) && shaped(acc[k]),
    ensures
        match_elements(s, i, acc) matches Run::Matched(all, e) ==> forall|k: int|
            0 <= k < all.len() ==> is_value_rule((#[trigger] all[k]).rule) && shaped(all[k]),
    decreases s.len() - i, 4nat,
{
    lemma_value_shaped(s, i);
    match match_value(s, i) {
        Outcome::Failed(f) => {},
        Outcome::Matched(v, e) => {
            let j = skip_ws(s, e);
            let next = acc.push(v);
            assert forall|k: int| 0 <= k < next.len() implies is_value_rule(
                (#[trigger] next[k]).rule,
            ) && shaped(next[k]) by {
                if k < acc.len() {
                    assert(next[k] == acc[k]);
                }
            }
            if holds(s, j, ']') {
            } else if holds(s, j, ',') && i < e {
                lemma_skip_ws_bounds(s, e);
                lemma_skip_ws_bounds(s, j + 1);
                lemma_elements_shaped(s, skip_ws(s, j + 1), next);
            }
        },
    }
}

/// Where the spans of a string's body spell a text, each escape sequence
/// among them stands for a character.
proof fn lemma_parts_decoded(kids: Seq<Span>, k: int, acc: Seq<char>)
    requires
        0 <= k,
        decode_parts(kids, k, acc) is Some,
        forall|j: int| 0 <= j < kids.len() ==> is_part(#[trigger] kids[j]),
    ensures
        forall|j: int| k <= j < kids.len() ==> escapes_decode(#[trigger] kids[j]),
    decreases kids.len() - k,
{
    if k < kids.len() {
        assert(is_part(kids[k]));
        if kids[k].rule == Rule::character {
            lemma_parts_decoded(kids, k + 1, acc + kids[k].text);
        } else {
            lemma_parts_decoded(kids, k + 1, acc.push(decode_escape(kids[k].text)->Some_0));
        }
    }
}

/// In a string span of the grammar's shape that spells a text, every
/// escape sequence stands for a character.
proof fn lemma_built_string_decodes(t: Span)
    requires
        t.rule == Rule::string,
        shaped(t),
        build_string(t) is Some,
    ensures
        escapes_decode(t),
{
    lemma_parts_decoded(t.children, 0, Seq::empty());
}

/// In a tree of the grammar's shape that spells a value, every escape
/// sequence stands for a character.
pub proof fn lemma_built_decodes(t: Span)
    requires
        shaped(t),
        is_value_rule(t.rule) || t.rule == Rule::json,
        build_value(t) is Some,
    ensures
        escapes_decode(t),
    decreases t, 0nat,
{
    match t.rule {
        Rule::json => {
            lemma_built_decodes(t.children[0]);
        },
        Rule::object => {
            assert forall|i: int| 0 <= i < t.children.len() implies (#[trigger] t.children[i]).rule
                == Rule::pair && shaped(t.children[i]) by {}
            lemma_members_built(t.children, 0, Seq::empty());
        },
        Rule::array => {
            assert forall|i: int| 0 <= i < t.children.len() implies is_value_rule(
                (#[trigger] t.children[i]).rule,
            ) && shaped(t.children[i]) by {}
            lemma_elements_built(t.children, 0, Seq::empty());
        },
        Rule::string => {
            lemma_built_string_decodes(t);
        },
        _ => {},
    }
}

/// Where pairs of the grammar's shape spell members, every escape sequence
/// in them stands for a character.
proof fn lemma_members_built(kids: Seq<Span>, k: int, acc: Seq<(Seq<char>, Json)>)
    requires
        0 <= k,
        build_members(kids, k, acc) is Some,
        forall|i: int|
            0 <= i < kids.len() ==> (#[trigger] kids[i]).rule == Rule::pair && shaped(kids[i]),
    ensures
        forall|j: int| k <= j < kids.len() ==> escapes_decode(#[trigger] kids[j]),
    decreases kids, kids.len() - k,
{
    if k < kids.len() {
        let pair = kids[k];
        assert(pair.rule == Rule::pair && shaped(pair));
        let key = pair.children[0];
        let value = pair.children[1];
        lemma_built_string_decodes(key);
        lemma_built_decodes(value);
        assert forall|i: int| 0 <= i < pair.children.len() implies escapes_decode(
            #[trigger] pair.children[i],
        ) by {}
        lemma_members_built(
            kids,
            k + 1,
            insert(acc, build_string(key)->Some_0, build_value(value)->Some_0),
        );
    }
}

/// Where values of the grammar's shape spell elements, every escape sequence
/// in them stands for a character.
proof fn lemma_elements_built(kids: Seq<Span>, k: int, acc: Seq<Json>)
    requires
        0 <= k,
        build_elements(kids, k, acc) is Some,
        forall|i: int|
            0 <= i < kids.len() ==> is_value_rule((#[trigger] kids[i]).rule) && shaped(kids[i]),
    ensures
        forall|j: int| k <= j < kids.len() ==> escapes_decode(#[trigger] kids[j]),
    decreases kids, kids.len() - k,
{
    if k < kids.len() {
        assert(is_value_rule(kids[k].rule) && shaped(kids[k]));
        lemma_built_decodes(kids[k]);
        lemma_elements_built(kids, k + 1, acc.push(build_value(kids[k])->Some_0));
    }
}

/// The tree that the grammar gives a document has the grammar's shape.
pub proof fn lemma_document_shaped(t: Seq<char>)
    ensures
        parse_tree(Rule::json, t) matches Ok(tree) ==> shaped(tree) && tree.rule == Rule::json,
{
    if let Ok(tree) = parse_tree(Rule::json, t) {
        let a = skip_ws(t, 0);
        if holds(t, a, '{') {
            lemma_object_shaped(t, a);
        } else {
            lemma_array_shaped(t, a);
        }
        let inner = if holds(t, a, '{') { match_object(t, a) } else { match_array(t, a) };
        assert(tree.children =~= seq![inner->Matched_0]);
    }
}

/// The texts that parse to a document are those that match the grammar and
/// hold no escape sequence that stands for no character.
pub proof fn lemma_document_exactly(t: Seq<char>)
    ensures
        document(t) is Some <==> (parse_tree(Rule::json, t) matches Ok(tree) && escapes_decode(
            tree,
        )),
{
    lemma_document_shaped(t);
    if let Ok(tree) = parse_tree(Rule::json, t) {
        if escapes_decode(tree) {
            lemma_shaped_builds(tree);
        }
        if build_value(tree) is Some {
            lemma_built_decodes(tree);
        }
    }
}

/// A text that matches the grammar, none of whose escape sequences stands
/// for no character, parses to a document; and the compact text of that
/// document parses to the same document.
pub proof fn lemma_valid_text_round_trip(t: Seq<char>)
    requires
        parse_tree(Rule::json, t) matches Ok(tree) && escapes_decode(tree),
    ensures
        document(t) is Some,
        document(minified(document(t)->Some_0)) == document(t),
{
    lemma_document_exactly(t);
    lemma_round_trip(t);
}

} // verus!
