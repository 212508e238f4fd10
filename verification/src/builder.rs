//! The builder: it turns a tree of spans into the value that the tree spells.

use crate::engine::{lemma_children_view, spans, TokenSpan};
use crate::error::ParserError;
use crate::grammar::{canonical_number, is_digit, is_hex, is_number_literal, Rule, Span};
use crate::scanner;
use crate::text::chars_of;
use crate::value::{
    find_key, insert, lemma_array_view, lemma_items_push, lemma_members_push,
    lemma_members_update, lemma_object_view, items_view, members_view, Json, Number, Value,
};
use vstd::prelude::*;
use vstd::string::StringExecFns;

verus! {

/// The number that the hex digit `c` spells.
pub open spec fn hex_value(c: char) -> int {
    if is_digit(c) {
        c as int - '0' as int
    } else if 'a' <= c && c <= 'f' {
        c as int - 'a' as int + 10
    } else {
        c as int - 'A' as int + 10
    }
}

/// The number that the four hex digits at `i` spell.
pub open spec fn hex4(t: Seq<char>, i: int) -> int {
    hex_value(t[i]) * 4096 + hex_value(t[i + 1]) * 256 + hex_value(t[i + 2]) * 16 + hex_value(
        t[i + 3],
    )
}

/// `code` is the code of a character: no half of a surrogate pair.
pub open spec fn is_scalar(code: int) -> bool {
    (0 <= code <= 0xD7FF) || (0xE000 <= code <= 0x10FFFF)
}

/// The character that a two-character escape stands for, by the character
/// after its backslash.
pub open spec fn simple_escape(c: char) -> Option<char> {
    if c == '"' {
        Some('"')
    } else if c == '\\' {
        Some('\\')
    } else if c == '/' {
        Some('/')
    } else if c == 'b' {
        Some('\u{8}')
    } else if c == 'f' {
        Some('\u{c}')
    } else if c == 'n' {
        Some('\n')
    } else if c == 'r' {
        Some('\r')
    } else if c == 't' {
        Some('\t')
    } else {
        None
    }
}

/// The character that the escape sequence `t` stands for. A `\u` escape
/// stands for the character with the code that its four hex digits spell, and
/// for nothing where that code is half of a surrogate pair: halves are not
/// put together.
pub open spec fn decode_escape(t: Seq<char>) -> Option<char> {
    if t.len() == 2 && t[0] == '\\' {
        simple_escape(t[1])
    } else if t.len() == 6 && t[0] == '\\' && t[1] == 'u' && is_hex(t[2]) && is_hex(t[3])
        && is_hex(t[4]) && is_hex(t[5]) {
        if is_scalar(hex4(t, 2)) {
            Some(hex4(t, 2) as char)
        } else {
            None
        }
    } else {
        None
    }
}

/// The text that the spans `kids[k..]` of a string's body add to `acc`: a
/// character span adds its text, an escape sequence the character it stands
/// for, any other span nothing.
pub open spec fn decode_parts(kids: Seq<Span>, k: int, acc: Seq<char>) -> Option<Seq<char>>
    decreases kids.len() - k,
{
    if k < 0 || k >= kids.len() {
        Some(acc)
    } else if kids[k].rule == Rule::character {
        decode_parts(kids, k + 1, acc + kids[k].text)
    } else if kids[k].rule == Rule::escape_sequence {
        match decode_escape(kids[k].text) {
            Some(c) => decode_parts(kids, k + 1, acc.push(c)),
            None => None,
        }
    } else {
        decode_parts(kids, k + 1, acc)
    }
}

/// The text that a string span spells.
pub open spec fn build_string(t: Span) -> Option<Seq<char>> {
    decode_parts(t.children, 0, Seq::empty())
}

/// The number that a number span spells.
pub open spec fn build_number(t: Span) -> Option<Seq<char>> {
    if is_number_literal(t.text) {
        Some(canonical_number(t.text))
    } else {
        None
    }
}

/// The truth value that a boolean span spells: `true` and `false` spell one
/// each, no other text spells any.
pub open spec fn build_boolean(t: Span) -> Option<bool> {
    if t.text == seq!['t', 'r', 'u', 'e'] {
        Some(true)
    } else if t.text == seq!['f', 'a', 'l', 's', 'e'] {
        Some(false)
    } else {
        None
    }
}

/// The value that a span spells.
pub open spec fn build_value(t: Span) -> Option<Json>
    decreases t, 0nat,
{
    match t.rule {
        Rule::json => if t.children.len() > 0 {
            build_value(t.children[0])
        } else {
            None
        },
        Rule::object => match build_members(t.children, 0, Seq::empty()) {
            Some(ms) => Some(Json::Object(ms)),
            None => None,
        },
        Rule::array => match build_elements(t.children, 0, Seq::empty()) {
            Some(xs) => Some(Json::Array(xs)),
            None => None,
        },
        Rule::string => match build_string(t) {
            Some(s) => Some(Json::String(s)),
            None => None,
        },
        Rule::number => match build_number(t) {
            Some(n) => Some(Json::Number(n)),
            None => None,
        },
        Rule::boolean => match build_boolean(t) {
            Some(b) => Some(Json::Bool(b)),
            None => None,
        },
        Rule::null => Some(Json::Null),
        _ => None,
    }
}

/// The members that the spans `kids[k..]` of an object add to `acc`. Each
/// pair span gives one member, from its first two spans; a key that is there
/// already keeps its place and takes the new value. Other spans give nothing.
pub open spec fn build_members(kids: Seq<Span>, k: int, acc: Seq<(Seq<char>, Json)>) -> Option<
    Seq<(Seq<char>, Json)>,
>
    decreases kids, kids.len() - k,
{
    if k < 0 || k >= kids.len() {
        Some(acc)
    } else if kids[k].rule != Rule::pair {
        build_members(kids, k + 1, acc)
    } else if kids[k].children.len() < 2 {
        None
    } else {
        match (build_string(kids[k].children[0]), build_value(kids[k].children[1])) {
            (Some(key), Some(value)) => build_members(kids, k + 1, insert(acc, key, value)),
            _ => None,
        }
    }
}

/// The elements that the spans `kids[k..]` of an array add to `acc`.
pub open spec fn build_elements(kids: Seq<Span>, k: int, acc: Seq<Json>) -> Option<Seq<Json>>
    decreases kids, kids.len() - k,
{
    if k < 0 || k >= kids.len() {
        Some(acc)
    } else {
        match build_value(kids[k]) {
            Some(x) => build_elements(kids, k + 1, acc.push(x)),
            None => None,
        }
    }
}

/// What a building function returns, in terms of the model: the value that
/// was built, or nothing.
pub open spec fn built<T: View>(r: Result<T, ParserError>) -> Option<T::V> {
    match r {
        Ok(v) => Some(v@),
        Err(_) => None,
    }
}

/// A building function fails in one way only.
pub open spec fn fails_plainly<T>(r: Result<T, ParserError>) -> bool {
    r matches Err(e) ==> e == ParserError::JsonParseError
}

fn hex_digit_value(c: char) -> (d: u32)
    requires
        is_hex(c),
    ensures
        d == hex_value(c),
        d < 16,
{
    if scanner::is_digit(c) {
        c as u32 - '0' as u32
    } else if 'a' <= c && c <= 'f' {
        c as u32 - 'a' as u32 + 10
    } else {
        c as u32 - 'A' as u32 + 10
    }
}

fn simple_escape_char(c: char) -> (r: Option<char>)
    ensures
        r == simple_escape(c),
{
    if c == '"' {
        Some('"')
    } else if c == '\\' {
        Some('\\')
    } else if c == '/' {
        Some('/')
    } else if c == 'b' {
        Some('\u{8}')
    } else if c == 'f' {
        Some('\u{c}')
    } else if c == 'n' {
        Some('\n')
    } else if c == 'r' {
        Some('\r')
    } else if c == 't' {
        Some('\t')
    } else {
        None
    }
}

/// The character that the escape sequence `text` stands for.
pub fn parse_escape(text: &str) -> (r: Option<char>)
    ensures
        r == decode_escape(text@),
{
    let t = chars_of(text);
    if t.len() == 2 && t[0] == '\\' {
        simple_escape_char(t[1])
    } else if t.len() == 6 && t[0] == '\\' && t[1] == 'u' && scanner::is_hex(t[2])
        && scanner::is_hex(t[3]) && scanner::is_hex(t[4]) && scanner::is_hex(t[5]) {
        let code: u32 = hex_digit_value(t[2]) * 4096 + hex_digit_value(t[3]) * 256
            + hex_digit_value(t[4]) * 16 + hex_digit_value(t[5]);
        char::from_u32(code)
    } else {
        None
    }
}

/// The text that the string span `pair` spells.
pub fn parse_string(pair: &TokenSpan) -> (r: Result<String, ParserError>)
    ensures
        built(r) == build_string(pair@),
        fails_plainly(r),
{
    let mut result = String::new();
    let mut k: usize = 0;
    proof {
        lemma_children_view(*pair);
    }
    while k < pair.children.len()
        invariant
            0 <= k <= pair.children.len(),
            pair@.children == spans(pair.children@),
            build_string(pair@) == decode_parts(pair@.children, k as int, result@),
        decreases pair.children.len() - k,
    {
        let inner = &pair.children[k];
        match inner.rule {
            Rule::character => {
                result.append(inner.text.as_str());
            },
            Rule::escape_sequence => {
                match parse_escape(inner.text.as_str()) {
                    Some(c) => {
                        result.push(c);
                    },
                    None => {
                        return Err(ParserError::JsonParseError);
                    },
                }
            },
            _ => {},
        }
        k += 1;
    }
    Ok(result)
}

/// The number that the number span `pair` spells.
pub fn parse_number(pair: &TokenSpan) -> (r: Result<Number, ParserError>)
    ensures
        built(r) == build_number(pair@),
        fails_plainly(r),
{
    Number::parse(pair.text.as_str())
}

fn parse_boolean(pair: &TokenSpan) -> (r: Result<bool, ParserError>)
    ensures
        match build_boolean(pair@) {
            Some(b) => r == Ok::<bool, ParserError>(b),
            None => r == Err::<bool, ParserError>(ParserError::JsonParseError),
        },
{
    let t = chars_of(pair.text.as_str());
    if t.len() == 4 && t[0] == 't' && t[1] == 'r' && t[2] == 'u' && t[3] == 'e' {
        assert(t@ =~= seq!['t', 'r', 'u', 'e']);
        Ok(true)
    } else if t.len() == 5 && t[0] == 'f' && t[1] == 'a' && t[2] == 'l' && t[3] == 's' && t[4]
        == 'e' {
        assert(t@ =~= seq!['f', 'a', 'l', 's', 'e']);
        Ok(false)
    } else {
        proof {
            let yes = seq!['t', 'r', 'u', 'e'];
            let no = seq!['f', 'a', 'l', 's', 'e'];
            if t@ == yes {
                assert(yes.len() == 4 && yes[0] == 't' && yes[1] == 'r' && yes[2] == 'u' && yes[3]
                    == 'e');
            }
            if t@ == no {
                assert(no.len() == 5 && no[0] == 'f' && no[1] == 'a' && no[2] == 'l' && no[3]
                    == 's' && no[4] == 'e');
            }
        }
        Err(ParserError::JsonParseError)
    }
}

/// Puts `value` under `key`: in the place of the member that had the key, or
/// at the end where none had it.
pub fn insert_member(members: &mut Vec<(String, Value)>, key: String, value: Value)
    ensures
        members_view(final(members)@) == insert(members_view(old(members)@), key@, value@),
{
    match find_key(members, key.as_str()) {
        Some(i) => {
            proof {
                lemma_members_update(members@, i as int, key, value);
            }
            members.set(i, (key, value));
        },
        None => {
            proof {
                lemma_members_push(members@, key, value);
            }
            members.push((key, value));
        },
    }
}

/// The value that the span `pair` spells.
pub fn parse_value(pair: &TokenSpan) -> (r: Result<Value, ParserError>)
    ensures
        built(r) == build_value(pair@),
        fails_plainly(r),
    decreases pair, 1nat,
{
    match pair.rule {
        Rule::json => {
            proof {
                lemma_children_view(*pair);
            }
            if pair.children.len() > 0 {
                parse_value(&pair.children[0])
            } else {
                Err(ParserError::JsonParseError)
            }
        },
        Rule::object => parse_object(pair),
        Rule::array => parse_array(pair),
        Rule::string => match parse_string(pair) {
            Ok(s) => Ok(Value::String(s)),
            Err(e) => Err(e),
        },
        Rule::number => match parse_number(pair) {
            Ok(n) => Ok(Value::Number(n)),
            Err(e) => Err(e),
        },
        Rule::boolean => match parse_boolean(pair) {
            Ok(b) => Ok(Value::Bool(b)),
            Err(e) => Err(e),
        },
        Rule::null => Ok(Value::Null),
        _ => Err(ParserError::JsonParseError),
    }
}

/// The object that the children of the span `pair` spell.
#[verifier::loop_isolation(false)]
pub fn parse_object(pair: &TokenSpan) -> (r: Result<Value, ParserError>)
    ensures
        built(r) == (match build_members(pair@.children, 0, Seq::empty()) {
            Some(ms) => Some(Json::Object(ms)),
            None => None,
        }),
        fails_plainly(r),
    decreases pair, 0nat,
{
    let mut members: Vec<(String, Value)> = Vec::new();
    let mut k: usize = 0;
    proof {
        lemma_children_view(*pair);
        assert(members_view(members@) =~= Seq::empty());
    }
    while k < pair.children.len()
        invariant
            0 <= k <= pair.children.len(),
            build_members(pair@.children, 0, Seq::empty()) == build_members(
                pair@.children,
                k as int,
                members_view(members@),
            ),
        decreases pair.children.len() - k,
    {
        let inner = &pair.children[k];
        if inner.rule == Rule::pair {
            proof {
                lemma_children_view(*inner);
            }
            if inner.children.len() < 2 {
                return Err(ParserError::JsonParseError);
            }
            let key = match parse_string(&inner.children[0]) {
                Ok(key) => key,
                Err(e) => {
                    return Err(e);
                },
            };
            let value = match parse_value(&inner.children[1]) {
                Ok(value) => value,
                Err(e) => {
                    return Err(e);
                },
            };
            insert_member(&mut members, key, value);
        }
        k += 1;
    }
    proof {
        lemma_object_view(members);
    }
    Ok(Value::Object(members))
}

/// The array that the children of the span `pair` spell.
#[verifier::loop_isolation(false)]
pub fn parse_array(pair: &TokenSpan) -> (r: Result<Value, ParserError>)
    ensures
        built(r) == (match build_elements(pair@.children, 0, Seq::empty()) {
            Some(xs) => Some(Json::Array(xs)),
            None => None,
        }),
        fails_plainly(r),
    decreases pair, 0nat,
{
    let mut items: Vec<Value> = Vec::new();
    let mut k: usize = 0;
    proof {
        lemma_children_view(*pair);
        assert(items_view(items@) =~= Seq::empty());
    }
    while k < pair.children.len()
        invariant
            0 <= k <= pair.children.len(),
            build_elements(pair@.children, 0, Seq::empty()) == build_elements(
                pair@.children,
                k as int,
                items_view(items@),
            ),
        decreases pair.children.len() - k,
    {
        let value = match parse_value(&pair.children[k]) {
            Ok(value) => value,
            Err(e) => {
                return Err(e);
            },
        };
        proof {
            lemma_items_push(items@, value);
        }
        items.push(value);
        k += 1;
    }
    proof {
        lemma_array_view(items);
    }
    Ok(Value::Array(items))
}

} // verus!
