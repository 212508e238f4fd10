//! Parsing undoes writing: the compact text of a well-formed document parses
//! to that document, and what parsing gives is well formed.

use crate::builder::{
    build_elements, build_members, build_string, build_value, decode_escape, decode_parts, hex4,
    hex_value, is_scalar,
};
use crate::emit::{
    escape_char, escape_text, hex_digit, minified, minified_elements, minified_members, quoted,
};
use crate::grammar::{
    boolean_end, canonical_number, digit_at, digits_end, escape_end, exponent_end, holds,
    is_digit, is_hex, is_number_literal, is_simple_escape, lemma_digits_end_at,
    lemma_digits_end_is_end, mantissa_end, match_array,
    match_chars, match_elements, match_json, match_object, match_pair, match_pairs,
    match_string, match_value, null_end, number_end, numeral_end, parse_tree, skip_ws, span,
    Failure, Outcome, Rule, Run, Scan, Span,
};
use crate::parser::document;
use crate::value::{
    insert, key_index, lemma_element_wf, lemma_insert_wf, lemma_key_index, lemma_member_wf,
    lemma_push_wf, Json,
};
use vstd::prelude::*;

verus! {

/// `s` holds the text `t` at position `p`.
pub open spec fn text_at(s: Seq<char>, p: int, t: Seq<char>) -> bool {
    0 <= p && p + t.len() <= s.len() && s.subrange(p, p + t.len()) == t
}

/// A text that stands at `p` has its `k`th character at `p + k`.
pub proof fn lemma_text_at_char(s: Seq<char>, p: int, t: Seq<char>, k: int)
    requires
        text_at(s, p, t),
        0 <= k < t.len(),
    ensures
        s[p + k] == t[k],
{
    assert(s.subrange(p, p + t.len())[k] == t[k]);
}

/// Where two texts stand one behind the other, each stands at its place.
pub proof fn lemma_text_at_split(s: Seq<char>, p: int, a: Seq<char>, b: Seq<char>)
    requires
        text_at(s, p, a + b),
    ensures
        text_at(s, p, a),
        text_at(s, p + a.len(), b),
{
    let whole = s.subrange(p, p + (a + b).len());
    assert(s.subrange(p, p + a.len()) =~= whole.subrange(0, a.len() as int));
    assert((a + b).subrange(0, a.len() as int) =~= a);
    assert(s.subrange(p + a.len(), p + a.len() + b.len()) =~= whole.subrange(
        a.len() as int,
        (a + b).len() as int,
    ));
    assert((a + b).subrange(a.len() as int, (a + b).len() as int) =~= b);
}

/// The digits of `t` from `a` on stand in `s` at `p + a`, and no digit
/// follows the text in `s`: the digits end at the same place in both.
pub proof fn lemma_digits_end_embedded(s: Seq<char>, p: int, t: Seq<char>, a: int)
    requires
        text_at(s, p, t),
        0 <= a <= t.len(),
        !digit_at(s, p + t.len()),
    ensures
        digits_end(s, p + a) == p + digits_end(t, a),
{
    lemma_digits_end_is_end(t, a);
    let e = digits_end(t, a);
    assert forall|j: int| p + a <= j < p + e implies digit_at(s, j) by {
        assert(digit_at(t, j - p));
        lemma_text_at_char(s, p, t, j - p);
    }
    if e < t.len() {
        lemma_text_at_char(s, p, t, e);
    }
    lemma_digits_end_at(s, p + a, e - a);
}

/// No character that could carry a number on stands at `e`.
pub open spec fn ends_number(s: Seq<char>, e: int) -> bool {
    !digit_at(s, e) && !holds(s, e, '.') && !holds(s, e, 'e') && !holds(s, e, 'E')
}

/// A number literal that stands in a text, with nothing behind it that could
/// carry it on, is scanned there from its first character to its last.
pub proof fn lemma_number_embedded(s: Seq<char>, p: int, t: Seq<char>)
    requires
        text_at(s, p, t),
        is_number_literal(t),
        ends_number(s, p + t.len()),
    ensures
        number_end(s, p) == Scan::End(p + t.len()),
        digit_at(s, p) || holds(s, p, '-'),
{
    let n = t.len() as int;
    let a = if holds(t, 0, '-') { 1int } else { 0int };
    assert(digit_at(t, a));
    assert forall|k: int| 0 <= k < n implies s[p + k] == t[k] by {
        lemma_text_at_char(s, p, t, k);
    }
    assert(s[p] == t[0]);
    assert(s[p + a] == t[a]);
    lemma_digits_end_embedded(s, p, t, a);
    let b = numeral_end(t, a)->End_0;
    lemma_digits_end_is_end(t, a);
    assert(numeral_end(s, p + a) == Scan::End(p + b));
    if b < n {
        assert(s[p + b] == t[b]);
    }
    if b + 1 < n {
        assert(s[p + b + 1] == t[b + 1]);
        lemma_digits_end_embedded(s, p, t, b + 1);
    }
    let c = mantissa_end(t, 0)->End_0;
    lemma_digits_end_is_end(t, b + 1);
    assert(mantissa_end(s, p) == Scan::End(p + c));
    if c < n {
        assert(s[p + c] == t[c]);
    }
    if c + 1 < n {
        assert(s[p + c + 1] == t[c + 1]);
        lemma_digits_end_embedded(s, p, t, c + 1);
    }
    if c + 2 < n {
        assert(s[p + c + 2] == t[c + 2]);
    }
    if c + 2 <= n {
        lemma_digits_end_embedded(s, p, t, c + 2);
    }
    lemma_digits_end_is_end(t, c + 1);
    lemma_digits_end_is_end(t, c + 2);
    assert(exponent_end(s, p + c) == p + exponent_end(t, c));
}


/// Two texts that are alike before `c`, where the mantissa of the first
/// ends at an exponent mark, have the same mantissa.
proof fn lemma_same_mantissa(t: Seq<char>, u: Seq<char>, c: int)
    requires
        mantissa_end(t, 0) == Scan::End(c),
        c < t.len(),
        c < u.len(),
        forall|j: int| 0 <= j < c ==> u[j] == t[j],
        !is_digit(t[c]) && t[c] != '.',
        !is_digit(u[c]) && u[c] != '.',
    ensures
        mantissa_end(u, 0) == Scan::End(c),
{
    let a = if holds(t, 0, '-') { 1int } else { 0int };
    let b = numeral_end(t, a)->End_0;
    lemma_digits_end_is_end(t, a);
    lemma_digits_end_is_end(t, b + 1);
    assert(a < b <= c);
    assert(holds(u, 0, '-') == holds(t, 0, '-'));
    assert(digit_at(u, a));
    if t[a] != '0' {
        assert forall|j: int| a <= j < b implies digit_at(u, j) by {
            assert(digit_at(t, j));
        }
        lemma_digits_end_at(u, a, b - a);
    }
    assert(numeral_end(u, a) == Scan::End(b));
    if holds(t, b, '.') && digit_at(t, b + 1) {
        assert forall|j: int| b + 1 <= j < c implies digit_at(u, j) by {
            assert(digit_at(t, j));
        }
        lemma_digits_end_at(u, b + 1, c - (b + 1));
    }
}

/// The canonical text of a number literal is a number literal, and its own
/// canonical text.
pub proof fn lemma_canonical_number(t: Seq<char>)
    requires
        is_number_literal(t),
    ensures
        is_number_literal(canonical_number(t)),
        canonical_number(canonical_number(t)) == canonical_number(t),
{
    let n = t.len() as int;
    let c = mantissa_end(t, 0)->End_0;
    if holds(t, c, 'e') || holds(t, c, 'E') {
        let signed = holds(t, c + 1, '+') || holds(t, c + 1, '-');
        let d = if signed { c + 2 } else { c + 1 };
        lemma_digits_end_is_end(t, d);
        let sign: Seq<char> = if signed { seq![] } else { seq!['+'] };
        let u = t.subrange(0, c) + seq!['e'] + sign + t.subrange(c + 1, n);
        assert(u == canonical_number(t));
        let m = u.len() as int;
        assert(m == n + (c + 2 - d));
        assert(u[c] == 'e');
        assert(u[c + 1] == '+' || u[c + 1] == '-');
        assert forall|j: int| c + 2 <= j < m implies digit_at(u, j) by {
            assert(u[j] == t[j - (c + 2 - d)]);
            assert(digit_at(t, j - (c + 2 - d)));
        }
        assert(mantissa_end(u, 0) == Scan::End(c)) by {
            assert forall|j: int| 0 <= j < c implies u[j] == t[j] by {}
            lemma_same_mantissa(t, u, c);
        }
        assert(exponent_end(u, c) == m) by {
            lemma_digits_end_at(u, c + 2, m - (c + 2));
        }
        assert(canonical_number(u) =~= u);
    }
}


/// Whatever tree a value is built from, the value is well formed.
pub proof fn lemma_build_value_wf(t: Span)
    ensures
        build_value(t) matches Some(v) ==> v.wf(),
    decreases t, 0nat,
{
    match t.rule {
        Rule::json => {
            if t.children.len() > 0 {
                lemma_build_value_wf(t.children[0]);
            }
        },
        Rule::object => {
            lemma_build_members_wf(t.children, 0, Seq::empty());
        },
        Rule::array => {
            lemma_build_elements_wf(t.children, 0, Seq::empty());
        },
        Rule::number => {
            if is_number_literal(t.text) {
                lemma_canonical_number(t.text);
            }
        },
        _ => {},
    }
}

/// Members built onto a well-formed object leave it well formed.
proof fn lemma_build_members_wf(kids: Seq<Span>, k: int, acc: Seq<(Seq<char>, Json)>)
    requires
        Json::Object(acc).wf(),
    ensures
        build_members(kids, k, acc) matches Some(ms) ==> Json::Object(ms).wf(),
    decreases kids, kids.len() - k,
{
    if k < 0 || k >= kids.len() {
    } else if kids[k].rule != Rule::pair {
        lemma_build_members_wf(kids, k + 1, acc);
    } else if kids[k].children.len() < 2 {
    } else {
        match (build_string(kids[k].children[0]), build_value(kids[k].children[1])) {
            (Some(key), Some(value)) => {
                lemma_build_value_wf(kids[k].children[1]);
                lemma_insert_wf(acc, key, value);
                lemma_build_members_wf(kids, k + 1, insert(acc, key, value));
            },
            _ => {},
        }
    }
}

/// Elements built onto a well-formed array leave it well formed.
proof fn lemma_build_elements_wf(kids: Seq<Span>, k: int, acc: Seq<Json>)
    requires
        Json::Array(acc).wf(),
    ensures
        build_elements(kids, k, acc) matches Some(xs) ==> Json::Array(xs).wf(),
    decreases kids, kids.len() - k,
{
    if k < 0 || k >= kids.len() {
    } else {
        match build_value(kids[k]) {
            Some(x) => {
                lemma_build_value_wf(kids[k]);
                lemma_push_wf(acc, x);
                lemma_build_elements_wf(kids, k + 1, acc.push(x));
            },
            None => {},
        }
    }
}


/// `c` is written as it is: it is no quote, no backslash and no control
/// character.
pub open spec fn is_plain(c: char) -> bool {
    c != '"' && c != '\\' && (c as int) >= 0x20
}

/// The hex digit for `d` spells `d`.
proof fn lemma_hex_digit(d: int)
    requires
        0 <= d < 16,
    ensures
        is_hex(hex_digit(d)),
        hex_value(hex_digit(d)) == d,
{
}

/// What is written for a character that is not plain is an escape sequence
/// that stands for the character.
proof fn lemma_escape_decodes(s: Seq<char>, p: int, c: char)
    requires
        !is_plain(c),
        text_at(s, p, escape_char(c)),
    ensures
        escape_end(s, p) == Scan::End(p + escape_char(c).len()),
        decode_escape(s.subrange(p, p + escape_char(c).len())) == Some(c),
        s[p] == '\\',
{
    let e = escape_char(c);
    let t = s.subrange(p, p + e.len());
    assert(t == e);
    lemma_text_at_char(s, p, e, 0);
    lemma_text_at_char(s, p, e, 1);
    if e.len() == 6 {
        lemma_text_at_char(s, p, e, 2);
        lemma_text_at_char(s, p, e, 3);
        lemma_text_at_char(s, p, e, 4);
        lemma_text_at_char(s, p, e, 5);
        let code = c as int;
        lemma_hex_digit(code / 16);
        lemma_hex_digit(code % 16);
        assert(hex_value('0') == 0);
        assert(hex4(t, 2) == code);
        assert(is_scalar(code));
        assert(!is_simple_escape('u'));
    }
}

/// The body of a written string, with the quote that closes it, is matched
/// to its end, and the spans of the match spell the string.
proof fn lemma_match_written_chars(
    s: Seq<char>,
    p: int,
    acc: Seq<Span>,
    text: Seq<char>,
    k: int,
    d: Seq<char>,
)
    requires
        0 <= k <= text.len(),
        text_at(s, p, escape_text(text, k) + seq!['"']),
    ensures
        match_chars(s, p, acc) matches Run::Matched(all, e) && e == p + escape_text(text, k).len()
            + 1 && all.len() >= acc.len() && all.subrange(0, acc.len() as int) == acc
            && decode_parts(all, acc.len() as int, d) == Some(d + text.subrange(k, text.len() as int)),
    decreases text.len() - k,
{
    let quote = seq!['"'];
    if k == text.len() {
        assert(escape_text(text, k) + quote =~= quote);
        lemma_text_at_char(s, p, quote, 0);
        assert(acc.subrange(0, acc.len() as int) =~= acc);
        assert(d + text.subrange(k, text.len() as int) =~= d);
    } else {
        let c = text[k];
        let e = escape_char(c);
        let rest = escape_text(text, k + 1);
        assert(escape_text(text, k) + quote =~= e + (rest + quote));
        lemma_text_at_split(s, p, e, rest + quote);
        let q = p + e.len();
        let child = if is_plain(c) {
            span(Rule::character, s, p, p + 1, seq![])
        } else {
            span(Rule::escape_sequence, s, p, q, seq![])
        };
        let next_d = d.push(c);
        if is_plain(c) {
            lemma_text_at_char(s, p, e, 0);
            assert(s[p] == c);
            assert(child.text =~= seq![c]);
            assert(d + child.text =~= next_d);
        } else {
            lemma_escape_decodes(s, p, c);
        }
        assert(match_chars(s, p, acc) == match_chars(s, q, acc.push(child)));
        lemma_match_written_chars(s, q, acc.push(child), text, k + 1, next_d);
        let all = match_chars(s, p, acc)->Matched_0;
        let n = acc.len() as int;
        assert(all.subrange(0, n + 1)[n] == child);
        assert(all[n] == child);
        assert(all.subrange(0, n) =~= all.subrange(0, n + 1).subrange(0, n));
        assert(next_d + text.subrange(k + 1, text.len() as int) =~= d + text.subrange(
            k,
            text.len() as int,
        ));
        assert(decode_parts(all, n, d) == decode_parts(all, n + 1, next_d));
    }
}

/// A written string is matched from quote to quote, and the tree of the
/// match spells the string.
pub proof fn lemma_match_written_string(s: Seq<char>, p: int, text: Seq<char>)
    requires
        text_at(s, p, quoted(text)),
    ensures
        match_string(s, p) matches Outcome::Matched(tree, e) && e == p + quoted(text).len()
            && build_string(tree) == Some(text) && tree.rule == Rule::string,
{
    let quote = seq!['"'];
    let body = escape_text(text, 0);
    assert(quoted(text) =~= quote + (body + quote));
    lemma_text_at_split(s, p, quote, body + quote);
    lemma_text_at_char(s, p, quote, 0);
    lemma_match_written_chars(s, p + 1, Seq::empty(), text, 0, Seq::empty());
    assert(Seq::<char>::empty() + text.subrange(0, text.len() as int) =~= text);
}


/// A character that a value can start with.
pub open spec fn starts_value(c: char) -> bool {
    c == '{' || c == '[' || c == '"' || c == '-' || is_digit(c) || c == 't' || c == 'f' || c == 'n'
}

/// The compact text of a value is not empty, and starts as a value starts.
pub proof fn lemma_minified_starts(v: Json)
    requires
        v.wf(),
    ensures
        minified(v).len() > 0,
        starts_value(minified(v)[0]),
{
    match v {
        Json::Number(t) => {
            let a = if holds(t, 0, '-') { 1int } else { 0int };
            assert(digit_at(t, a));
        },
        Json::String(s) => {
            assert(quoted(s)[0] == '"');
        },
        Json::Array(xs) => {
            assert(minified(v)[0] == '[');
        },
        Json::Object(ms) => {
            assert(minified(v)[0] == '{');
        },
        _ => {},
    }
}

/// The leaves: null, the truth values and the numbers.
proof fn lemma_match_written_leaf(s: Seq<char>, p: int, v: Json)
    requires
        v.wf(),
        v is Null || v is Bool || v is Number,
        text_at(s, p, minified(v)),
        ends_number(s, p + minified(v).len()),
    ensures
        match_value(s, p) matches Outcome::Matched(tree, e) && e == p + minified(v).len()
            && build_value(tree) == Some(v),
{
    let m = minified(v);
    assert forall|k: int| 0 <= k < m.len() implies s[p + k] == m[k] by {
        lemma_text_at_char(s, p, m, k);
    }
    match v {
        Json::Null => {
            assert(s[p] == m[0] && s[p + 1] == m[1] && s[p + 2] == m[2] && s[p + 3] == m[3]);
            assert(null_end(s, p) == Scan::End(p + 4));
        },
        Json::Bool(b) => {
            assert(s[p] == m[0] && s[p + 1] == m[1] && s[p + 2] == m[2] && s[p + 3] == m[3]);
            if !b {
                assert(s[p + 4] == m[4]);
            }
            assert(boolean_end(s, p) == Scan::End(p + m.len()));
            let tree = match_value(s, p)->Matched_0;
            assert(tree.text == m);
        },
        Json::Number(t) => {
            lemma_number_embedded(s, p, t);
            let tree = match_value(s, p)->Matched_0;
            assert(tree.text == t);
        },
        _ => {},
    }
}

/// A written value is matched from its first character to its last, and the
/// tree of the match spells the value.
pub proof fn lemma_match_written_value(s: Seq<char>, p: int, v: Json)
    requires
        v.wf(),
        text_at(s, p, minified(v)),
        ends_number(s, p + minified(v).len()),
    ensures
        match_value(s, p) matches Outcome::Matched(tree, e) && e == p + minified(v).len()
            && build_value(tree) == Some(v),
    decreases v, 0nat,
{
    let m = minified(v);
    match v {
        Json::String(text) => {
            lemma_match_written_string(s, p, text);
            lemma_text_at_char(s, p, m, 0);
        },
        Json::Array(xs) => {
            let inner = minified_elements(xs, 0) + seq![']'];
            assert(m =~= seq!['['] + inner);
            lemma_text_at_split(s, p, seq!['['], inner);
            lemma_text_at_char(s, p, m, 0);
            lemma_text_at_char(s, p + 1, inner, 0);
            if xs.len() == 0 {
                assert(inner[0] == ']');
                assert(build_elements(Seq::<Span>::empty(), 0, Seq::empty()) == Some(
                    Seq::<Json>::empty(),
                ));
                assert(xs =~= Seq::<Json>::empty());
            } else {
                lemma_element_wf(xs, 0);
                lemma_minified_starts(xs[0]);
                let rest = minified(xs[0]) + minified_elements(xs, 1) + seq![']'];
                assert(inner =~= rest);
                assert(inner[0] == minified(xs[0])[0]);
                assert(skip_ws(s, p + 1) == p + 1);
                lemma_match_written_elements(s, p + 1, xs, 0, Seq::empty());
                assert(xs.subrange(0, 0) =~= Seq::<Json>::empty());
            }
        },
        Json::Object(ms) => {
            let inner = minified_members(ms, 0) + seq!['}'];
            assert(m =~= seq!['{'] + inner);
            lemma_text_at_split(s, p, seq!['{'], inner);
            lemma_text_at_char(s, p, m, 0);
            lemma_text_at_char(s, p + 1, inner, 0);
            if ms.len() == 0 {
                assert(inner[0] == '}');
                assert(build_members(Seq::<Span>::empty(), 0, Seq::empty()) == Some(
                    Seq::<(Seq<char>, Json)>::empty(),
                ));
                assert(ms =~= Seq::<(Seq<char>, Json)>::empty());
            } else {
                let rest = quoted(ms[0].0) + seq![':'] + minified(ms[0].1) + minified_members(
                    ms,
                    1,
                ) + seq!['}'];
                assert(inner =~= rest);
                assert(inner[0] == '"');
                assert(skip_ws(s, p + 1) == p + 1);
                lemma_match_written_members(s, p + 1, ms, 0, Seq::empty());
                assert(ms.subrange(0, 0) =~= Seq::<(Seq<char>, Json)>::empty());
            }
        },
        _ => {
            lemma_match_written_leaf(s, p, v);
        },
    }
}

/// The written elements of an array from the `k`th on, with the bracket that
/// closes the array, are matched to the bracket, and the spans of the match
/// spell the elements.
proof fn lemma_match_written_elements(
    s: Seq<char>,
    q: int,
    xs: Seq<Json>,
    k: int,
    acc: Seq<Span>,
)
    requires
        Json::Array(xs).wf(),
        0 <= k < xs.len(),
        text_at(s, q, minified(xs[k]) + minified_elements(xs, k + 1) + seq![']']),
    ensures
        match_elements(s, q, acc) matches Run::Matched(all, e) && e == q + (minified(xs[k])
            + minified_elements(xs, k + 1) + seq![']']).len() && all.len() >= acc.len()
            && all.subrange(0, acc.len() as int) == acc && build_elements(
            all,
            acc.len() as int,
            xs.subrange(0, k),
        ) == Some(xs),
    decreases xs, xs.len() - k,
{
    let n = acc.len() as int;
    let a = minified(xs[k]);
    let b = minified_elements(xs, k + 1) + seq![']'];
    assert(minified(xs[k]) + minified_elements(xs, k + 1) + seq![']'] =~= a + b);
    lemma_text_at_split(s, q, a, b);
    lemma_element_wf(xs, k);
    lemma_minified_starts(xs[k]);
    let e1 = q + a.len();
    lemma_text_at_char(s, e1, b, 0);
    if k + 1 == xs.len() {
        assert(b[0] == ']');
    } else {
        assert(b[0] == ',');
    }
    lemma_match_written_value(s, q, xs[k]);
    let tree = match_value(s, q)->Matched_0;
    assert(skip_ws(s, e1) == e1);
    let prefix = xs.subrange(0, k);
    assert(prefix.push(xs[k]) =~= xs.subrange(0, k + 1));
    if k + 1 == xs.len() {
        let all = acc.push(tree);
        assert(match_elements(s, q, acc) == Run::Matched(all, e1 + 1));
        assert(all.subrange(0, n) =~= acc);
        assert(xs.subrange(0, k + 1) =~= xs);
        assert(build_elements(all, n, prefix) == build_elements(all, n + 1, prefix.push(xs[k])));
    } else {
        lemma_element_wf(xs, k + 1);
        lemma_minified_starts(xs[k + 1]);
        let c = minified(xs[k + 1]) + minified_elements(xs, k + 2) + seq![']'];
        assert(b =~= seq![','] + c);
        lemma_text_at_split(s, e1, seq![','], c);
        lemma_text_at_char(s, e1 + 1, c, 0);
        assert(c[0] == minified(xs[k + 1])[0]);
        assert(skip_ws(s, e1 + 1) == e1 + 1);
        assert(match_elements(s, q, acc) == match_elements(s, e1 + 1, acc.push(tree)));
        lemma_match_written_elements(s, e1 + 1, xs, k + 1, acc.push(tree));
        let all = match_elements(s, q, acc)->Matched_0;
        assert(all.subrange(0, n + 1)[n] == tree);
        assert(all[n] == tree);
        assert(all.subrange(0, n) =~= all.subrange(0, n + 1).subrange(0, n));
        assert(build_elements(all, n, prefix) == build_elements(all, n + 1, prefix.push(xs[k])));
    }
}

/// The written members of an object from the `k`th on, with the brace that
/// closes the object, are matched to the brace, and the spans of the match
/// spell the members.
proof fn lemma_match_written_members(
    s: Seq<char>,
    q: int,
    ms: Seq<(Seq<char>, Json)>,
    k: int,
    acc: Seq<Span>,
)
    requires
        Json::Object(ms).wf(),
        0 <= k < ms.len(),
        text_at(
            s,
            q,
            quoted(ms[k].0) + seq![':'] + minified(ms[k].1) + minified_members(ms, k + 1) + seq![
                '}',
            ],
        ),
    ensures
        match_pairs(s, q, acc) matches Run::Matched(all, e) && e == q + (quoted(ms[k].0) + seq![
            ':',
        ] + minified(ms[k].1) + minified_members(ms, k + 1) + seq!['}']).len() && all.len()
            >= acc.len() && all.subrange(0, acc.len() as int) == acc && build_members(
            all,
            acc.len() as int,
            ms.subrange(0, k),
        ) == Some(ms),
    decreases ms, ms.len() - k,
{
    let n = acc.len() as int;
    let key = ms[k].0;
    let value = ms[k].1;
    let a = quoted(key);
    let v = minified(value);
    let b = minified_members(ms, k + 1) + seq!['}'];
    assert(quoted(ms[k].0) + seq![':'] + minified(ms[k].1) + minified_members(ms, k + 1) + seq![
        '}',
    ] =~= a + (seq![':'] + (v + b)));
    lemma_text_at_split(s, q, a, seq![':'] + (v + b));
    let colon = q + a.len();
    lemma_text_at_split(s, colon, seq![':'], v + b);
    lemma_text_at_char(s, colon, seq![':'], 0);
    let start = colon + 1;
    lemma_text_at_split(s, start, v, b);
    lemma_member_wf(ms, k);
    lemma_minified_starts(value);
    lemma_text_at_char(s, start, v, 0);
    let e1 = start + v.len();
    lemma_text_at_char(s, e1, b, 0);
    if k + 1 == ms.len() {
        assert(b[0] == '}');
    } else {
        assert(b[0] == ',');
    }
    lemma_match_written_string(s, q, key);
    let key_tree = match_string(s, q)->Matched_0;
    assert(skip_ws(s, colon) == colon);
    assert(skip_ws(s, start) == start);
    lemma_match_written_value(s, start, value);
    let value_tree = match_value(s, start)->Matched_0;
    let pair = span(Rule::pair, s, q, e1, seq![key_tree, value_tree]);
    assert(match_pair(s, q) == Outcome::Matched(pair, e1));
    assert(skip_ws(s, e1) == e1);
    let prefix = ms.subrange(0, k);
    assert(insert(prefix, key, value) == prefix.push((key, value))) by {
        lemma_key_index(prefix, key, 0);
        if key_index(prefix, key, 0) is Some {
            let i = key_index(prefix, key, 0)->Some_0;
            assert(prefix[i].0 == ms[i].0);
        }
    }
    assert(prefix.push((key, value)) =~= ms.subrange(0, k + 1));
    if k + 1 == ms.len() {
        let all = acc.push(pair);
        assert(match_pairs(s, q, acc) == Run::Matched(all, e1 + 1));
        assert(all.subrange(0, n) =~= acc);
        assert(ms.subrange(0, k + 1) =~= ms);
        assert(build_members(all, n, prefix) == build_members(all, n + 1, ms.subrange(0, k + 1)));
    } else {
        let c = quoted(ms[k + 1].0) + seq![':'] + minified(ms[k + 1].1) + minified_members(
            ms,
            k + 2,
        ) + seq!['}'];
        assert(b =~= seq![','] + c);
        lemma_text_at_split(s, e1, seq![','], c);
        lemma_text_at_char(s, e1 + 1, c, 0);
        assert(c[0] == '"');
        assert(skip_ws(s, e1 + 1) == e1 + 1);
        assert(match_pairs(s, q, acc) == match_pairs(s, e1 + 1, acc.push(pair)));
        lemma_match_written_members(s, e1 + 1, ms, k + 1, acc.push(pair));
        let all = match_pairs(s, q, acc)->Matched_0;
        assert(all.subrange(0, n + 1)[n] == pair);
        assert(all[n] == pair);
        assert(all.subrange(0, n) =~= all.subrange(0, n + 1).subrange(0, n));
        assert(build_members(all, n, prefix) == build_members(all, n + 1, ms.subrange(0, k + 1)));
    }
}


/// Writing a well-formed object or array compactly and parsing the text
/// gives the same document back.
pub proof fn lemma_parse_minified(v: Json)
    requires
        v.wf(),
        v is Object || v is Array,
    ensures
        document(minified(v)) == Some(v),
{
    let s = minified(v);
    let n = s.len() as int;
    assert(s.subrange(0, n) =~= s);
    lemma_match_written_value(s, 0, v);
    let tree = match_value(s, 0)->Matched_0;
    assert(s[0] == '{' || s[0] == '[');
    assert(skip_ws(s, 0) == 0);
    assert(skip_ws(s, n) == n);
    let top = span(Rule::json, s, 0, n, seq![tree]);
    assert(match_json(s, 0) == Outcome::Matched(top, n));
    assert(parse_tree(Rule::json, s) == Ok::<Span, Failure>(top));
    assert(top.children[0] == tree);
}

/// What a text parses to is a well-formed object or array.
pub proof fn lemma_document_wf(t: Seq<char>)
    ensures
        document(t) matches Some(v) ==> v.wf() && (v is Object || v is Array),
{
    if document(t) is Some {
        let top = parse_tree(Rule::json, t)->Ok_0;
        let a = skip_ws(t, 0);
        let inner = if holds(t, a, '{') { match_object(t, a) } else { match_array(t, a) };
        let tree = inner->Matched_0;
        assert(inner is Matched);
        assert(top.rule == Rule::json);
        assert(top.children =~= seq![tree]);
        assert(tree.rule == Rule::object || tree.rule == Rule::array);
        assert(build_value(top) == build_value(tree));
        assert(document(t) == build_value(top));
        lemma_build_value_wf(top);
    }
}

/// A text that parses to a document, written compactly from that document
/// and parsed again, gives the same document.
pub proof fn lemma_round_trip(t: Seq<char>)
    requires
        document(t) is Some,
    ensures
        document(minified(document(t)->Some_0)) == document(t),
{
    lemma_document_wf(t);
    lemma_parse_minified(document(t)->Some_0);
}

} // verus!
