//! Texts made from a value tree: the compact document, the XML rendering and
//! the listing of its structure.

use crate::text::{chars_of, decimal, push_decimal};
use crate::value::{items_view, lemma_array_view, lemma_object_view, members_view, Json, Value};
use vstd::prelude::*;
use vstd::string::StringExecFns;

verus! {

/// The small hex digit for `d`.
pub open spec fn hex_digit(d: int) -> char {
    if d < 10 {
        ('0' as int + d) as char
    } else {
        ('a' as int + d - 10) as char
    }
}

/// How a character of a string is written in a document: the quote, the
/// backslash and the control characters escaped, each other character as it
/// is.
pub open spec fn escape_char(c: char) -> Seq<char> {
    if c == '"' {
        seq!['\\', '"']
    } else if c == '\\' {
        seq!['\\', '\\']
    } else if c == '\u{8}' {
        seq!['\\', 'b']
    } else if c == '\u{c}' {
        seq!['\\', 'f']
    } else if c == '\n' {
        seq!['\\', 'n']
    } else if c == '\r' {
        seq!['\\', 'r']
    } else if c == '\t' {
        seq!['\\', 't']
    } else if (c as int) < 0x20 {
        seq!['\\', 'u', '0', '0', hex_digit(c as int / 16), hex_digit(c as int % 16)]
    } else {
        seq![c]
    }
}

/// The characters `s[k..]`, escaped.
pub open spec fn escape_text(s: Seq<char>, k: int) -> Seq<char>
    decreases s.len() - k,
{
    if k < 0 || k >= s.len() {
        Seq::empty()
    } else {
        escape_char(s[k]) + escape_text(s, k + 1)
    }
}

/// The string `s` as a document writes it.
pub open spec fn quoted(s: Seq<char>) -> Seq<char> {
    seq!['"'] + escape_text(s, 0) + seq!['"']
}

/// A comma before every item but the first.
pub open spec fn comma_before(k: int) -> Seq<char> {
    if k > 0 {
        seq![',']
    } else {
        Seq::empty()
    }
}

/// The compact document of a value: no whitespace, the members in stored
/// order, the numbers in their canonical text.
pub open spec fn minified(v: Json) -> Seq<char>
    decreases v, 0nat,
{
    match v {
        Json::Null => seq!['n', 'u', 'l', 'l'],
        Json::Bool(b) => if b {
            seq!['t', 'r', 'u', 'e']
        } else {
            seq!['f', 'a', 'l', 's', 'e']
        },
        Json::Number(t) => t,
        Json::String(s) => quoted(s),
        Json::Array(xs) => seq!['['] + minified_elements(xs, 0) + seq![']'],
        Json::Object(ms) => seq!['{'] + minified_members(ms, 0) + seq!['}'],
    }
}

/// The elements `xs[k..]`, with the commas between them and before them.
pub open spec fn minified_elements(xs: Seq<Json>, k: int) -> Seq<char>
    decreases xs, xs.len() - k,
{
    if k < 0 || k >= xs.len() {
        Seq::empty()
    } else {
        comma_before(k) + minified(xs[k]) + minified_elements(xs, k + 1)
    }
}

/// The members `ms[k..]`, with the commas between them and before them.
pub open spec fn minified_members(ms: Seq<(Seq<char>, Json)>, k: int) -> Seq<char>
    decreases ms, ms.len() - k,
{
    if k < 0 || k >= ms.len() {
        Seq::empty()
    } else {
        comma_before(k) + quoted(ms[k].0) + seq![':'] + minified(ms[k].1) + minified_members(
            ms,
            k + 1,
        )
    }
}

fn hex_digit_char(d: u8) -> (c: char)
    requires
        d < 16,
    ensures
        c == hex_digit(d as int),
{
    if d < 10 {
        (48u8 + d) as char
    } else {
        (87u8 + d) as char
    }
}

fn push_pair(out: &mut String, a: char, b: char)
    ensures
        final(out)@ == old(out)@ + seq![a, b],
{
    out.push(a);
    out.push(b);
    assert(old(out)@.push(a).push(b) =~= old(out)@ + seq![a, b]);
}

fn push_escaped(out: &mut String, c: char)
    ensures
        final(out)@ == old(out)@ + escape_char(c),
{
    if c == '"' {
        push_pair(out, '\\', '"');
    } else if c == '\\' {
        push_pair(out, '\\', '\\');
    } else if c == '\u{8}' {
        push_pair(out, '\\', 'b');
    } else if c == '\u{c}' {
        push_pair(out, '\\', 'f');
    } else if c == '\n' {
        push_pair(out, '\\', 'n');
    } else if c == '\r' {
        push_pair(out, '\\', 'r');
    } else if c == '\t' {
        push_pair(out, '\\', 't');
    } else if (c as u32) < 0x20 {
        let code: u8 = c as u8;
        push_pair(out, '\\', 'u');
        push_pair(out, '0', '0');
        push_pair(out, hex_digit_char(code / 16), hex_digit_char(code % 16));
        assert(old(out)@ + seq!['\\', 'u'] + seq!['0', '0'] + seq![
            hex_digit(c as int / 16),
            hex_digit(c as int % 16),
        ] =~= old(out)@ + escape_char(c));
    } else {
        out.push(c);
        assert(old(out)@.push(c) =~= old(out)@ + seq![c]);
    }
}

/// Appends the string `s` as a document writes it.
fn push_quoted(out: &mut String, s: &str)
    ensures
        final(out)@ == old(out)@ + quoted(s@),
{
    out.push('"');
    let ghost start = out@;
    for c in it: s.chars()
        invariant
            it.seq() == s@,
            start == old(out)@.push('"'),
            out@ + escape_text(s@, it.index()) == start + escape_text(s@, 0),
    {
        let ghost before = out@;
        push_escaped(out, c);
        assert(before + escape_char(c) + escape_text(s@, it.index() + 1) =~= before + escape_text(
            s@,
            it.index(),
        ));
    }
    out.push('"');
    assert(final(out)@ =~= old(out)@ + quoted(s@));
}

fn push_text(out: &mut String, s: &str)
    ensures
        final(out)@ == old(out)@ + s@,
{
    out.append(s);
}

fn push_null(out: &mut String)
    ensures
        final(out)@ == old(out)@ + seq!['n', 'u', 'l', 'l'],
{
    push_pair(out, 'n', 'u');
    push_pair(out, 'l', 'l');
    assert(old(out)@ + seq!['n', 'u'] + seq!['l', 'l'] =~= old(out)@ + seq!['n', 'u', 'l', 'l']);
}

/// The text of a truth value.
pub open spec fn bool_text(b: bool) -> Seq<char> {
    if b {
        seq!['t', 'r', 'u', 'e']
    } else {
        seq!['f', 'a', 'l', 's', 'e']
    }
}

fn push_bool(out: &mut String, b: bool)
    ensures
        final(out)@ == old(out)@ + bool_text(b),
{
    if b {
        push_pair(out, 't', 'r');
        push_pair(out, 'u', 'e');
        assert(old(out)@ + seq!['t', 'r'] + seq!['u', 'e'] =~= old(out)@ + bool_text(b));
    } else {
        push_pair(out, 'f', 'a');
        push_pair(out, 'l', 's');
        out.push('e');
        assert((old(out)@ + seq!['f', 'a'] + seq!['l', 's']).push('e') =~= old(out)@ + bool_text(
            b,
        ));
    }
}

/// Appends the compact document of `json` to `out`.
#[verifier::loop_isolation(false)]
pub fn write_minified(json: &Value, out: &mut String)
    ensures
        final(out)@ == old(out)@ + minified(json@),
    decreases json,
{
    match json {
        Value::Null => {
            push_null(out);
        },
        Value::Bool(b) => {
            push_bool(out, *b);
        },
        Value::Number(n) => {
            push_text(out, n.as_str());
        },
        Value::String(s) => {
            push_quoted(out, s.as_str());
        },
        Value::Array(items) => {
            proof {
                lemma_array_view(*items);
            }
            let ghost xs = items_view(items@);
            out.push('[');
            let mut k: usize = 0;
            while k < items.len()
                invariant
                    0 <= k <= items.len(),
                    out@ + minified_elements(xs, k as int) == old(out)@.push('[')
                        + minified_elements(xs, 0),
                decreases items.len() - k,
            {
                let ghost before = out@;
                if k > 0 {
                    out.push(',');
                }
                write_minified(&items[k], out);
                assert(before + comma_before(k as int) + minified(xs[k as int])
                    + minified_elements(xs, k + 1) =~= before + minified_elements(xs, k as int));
                assert(out@ =~= before + comma_before(k as int) + minified(xs[k as int]));
                k += 1;
            }
            out.push(']');
            assert(final(out)@ =~= old(out)@ + minified(json@));
        },
        Value::Object(members) => {
            proof {
                lemma_object_view(*members);
            }
            let ghost ms = members_view(members@);
            out.push('{');
            let mut k: usize = 0;
            while k < members.len()
                invariant
                    0 <= k <= members.len(),
                    out@ + minified_members(ms, k as int) == old(out)@.push('{')
                        + minified_members(ms, 0),
                decreases members.len() - k,
            {
                let ghost before = out@;
                if k > 0 {
                    out.push(',');
                }
                push_quoted(out, members[k].0.as_str());
                out.push(':');
                write_minified(&members[k].1, out);
                assert(before + comma_before(k as int) + quoted(ms[k as int].0) + seq![':']
                    + minified(ms[k as int].1) + minified_members(ms, k + 1) =~= before
                    + minified_members(ms, k as int));
                assert(out@ =~= before + comma_before(k as int) + quoted(ms[k as int].0) + seq![
                    ':',
                ] + minified(ms[k as int].1));
                k += 1;
            }
            out.push('}');
            assert(final(out)@ =~= old(out)@ + minified(json@));
        },
    }
}

/// The compact document of `json`.
pub fn minify_json(json: &Value) -> (r: String)
    ensures
        r@ == minified(json@),
{
    let mut out = String::new();
    write_minified(json, &mut out);
    assert(Seq::<char>::empty() + minified(json@) =~= minified(json@));
    out
}


/// `<tag>`.
pub open spec fn open_tag(tag: Seq<char>) -> Seq<char> {
    seq!['<'] + tag + seq!['>']
}

/// `</tag>`.
pub open spec fn close_tag(tag: Seq<char>) -> Seq<char> {
    seq!['<', '/'] + tag + seq!['>']
}

/// The line `<tag>body</tag>`.
pub open spec fn element_line(tag: Seq<char>, body: Seq<char>) -> Seq<char> {
    open_tag(tag) + body + close_tag(tag) + seq!['\n']
}

/// The XML rendering of a value under the tag `tag`, one line for each tag
/// or leaf. An object is a pair of tags around its members, each under its
/// key; an array is its elements, each under the array's tag; a string, a
/// number or a truth value is one element; null is an empty element. No
/// character is escaped.
pub open spec fn xml(v: Json, tag: Seq<char>) -> Seq<char>
    decreases v, 0nat,
{
    match v {
        Json::Object(ms) => open_tag(tag) + seq!['\n'] + xml_members(ms, 0) + close_tag(tag)
            + seq!['\n'],
        Json::Array(xs) => xml_elements(xs, 0, tag),
        Json::String(s) => element_line(tag, s),
        Json::Number(t) => element_line(tag, t),
        Json::Bool(b) => element_line(tag, bool_text(b)),
        Json::Null => seq!['<'] + tag + seq![' ', '/', '>', '\n'],
    }
}

/// The XML rendering of the members `ms[k..]`.
pub open spec fn xml_members(ms: Seq<(Seq<char>, Json)>, k: int) -> Seq<char>
    decreases ms, ms.len() - k,
{
    if k < 0 || k >= ms.len() {
        Seq::empty()
    } else {
        xml(ms[k].1, ms[k].0) + xml_members(ms, k + 1)
    }
}

/// The XML rendering of the elements `xs[k..]` under the tag `tag`.
pub open spec fn xml_elements(xs: Seq<Json>, k: int, tag: Seq<char>) -> Seq<char>
    decreases xs, xs.len() - k,
{
    if k < 0 || k >= xs.len() {
        Seq::empty()
    } else {
        xml(xs[k], tag) + xml_elements(xs, k + 1, tag)
    }
}

fn push_open_tag(out: &mut String, tag: &str)
    ensures
        final(out)@ == old(out)@ + open_tag(tag@),
{
    out.push('<');
    out.append(tag);
    out.push('>');
    assert(final(out)@ =~= old(out)@ + open_tag(tag@));
}

fn push_close_tag(out: &mut String, tag: &str)
    ensures
        final(out)@ == old(out)@ + close_tag(tag@),
{
    out.push('<');
    out.push('/');
    out.append(tag);
    out.push('>');
    assert(final(out)@ =~= old(out)@ + close_tag(tag@));
}

fn push_element_line(out: &mut String, tag: &str, body: &str)
    ensures
        final(out)@ == old(out)@ + element_line(tag@, body@),
{
    push_open_tag(out, tag);
    out.append(body);
    push_close_tag(out, tag);
    out.push('\n');
    assert(final(out)@ =~= old(out)@ + element_line(tag@, body@));
}

/// Appends the XML rendering of `json` under the tag `tag_name` to `writer`.
#[verifier::loop_isolation(false)]
pub fn write_xml(json: &Value, writer: &mut String, tag_name: &str)
    ensures
        final(writer)@ == old(writer)@ + xml(json@, tag_name@),
    decreases json,
{
    match json {
        Value::Object(members) => {
            proof {
                lemma_object_view(*members);
            }
            let ghost ms = members_view(members@);
            push_open_tag(writer, tag_name);
            writer.push('\n');
            let ghost start = writer@;
            let mut k: usize = 0;
            while k < members.len()
                invariant
                    0 <= k <= members.len(),
                    writer@ + xml_members(ms, k as int) == start + xml_members(ms, 0),
                decreases members.len() - k,
            {
                let ghost before = writer@;
                write_xml(&members[k].1, writer, members[k].0.as_str());
                assert(before + xml(ms[k as int].1, ms[k as int].0) + xml_members(ms, k + 1)
                    =~= before + xml_members(ms, k as int));
                k += 1;
            }
            assert(writer@ =~= start + xml_members(ms, 0));
            push_close_tag(writer, tag_name);
            writer.push('\n');
            assert(final(writer)@ =~= old(writer)@ + xml(json@, tag_name@));
        },
        Value::Array(items) => {
            proof {
                lemma_array_view(*items);
            }
            let ghost xs = items_view(items@);
            let mut k: usize = 0;
            while k < items.len()
                invariant
                    0 <= k <= items.len(),
                    writer@ + xml_elements(xs, k as int, tag_name@) == old(writer)@
                        + xml_elements(xs, 0, tag_name@),
                decreases items.len() - k,
            {
                let ghost before = writer@;
                write_xml(&items[k], writer, tag_name);
                assert(before + xml(xs[k as int], tag_name@) + xml_elements(
                    xs,
                    k + 1,
                    tag_name@,
                ) =~= before + xml_elements(xs, k as int, tag_name@));
                k += 1;
            }
            assert(final(writer)@ =~= old(writer)@ + xml(json@, tag_name@));
        },
        Value::String(s) => {
            push_element_line(writer, tag_name, s.as_str());
        },
        Value::Number(n) => {
            push_element_line(writer, tag_name, n.as_str());
        },
        Value::Bool(b) => {
            push_open_tag(writer, tag_name);
            push_bool(writer, *b);
            push_close_tag(writer, tag_name);
            writer.push('\n');
            assert(final(writer)@ =~= old(writer)@ + xml(json@, tag_name@));
        },
        Value::Null => {
            writer.push('<');
            writer.append(tag_name);
            push_pair(writer, ' ', '/');
            push_pair(writer, '>', '\n');
            assert(final(writer)@ =~= old(writer)@ + xml(json@, tag_name@));
        },
    }
}

/// The XML rendering of `json` under the tag `root`.
pub fn convert_json_to_xml(json: &Value) -> (r: String)
    ensures
        r@ == xml(json@, seq!['r', 'o', 'o', 't']),
{
    let mut writer = String::new();
    let mut tag = String::new();
    push_pair(&mut tag, 'r', 'o');
    push_pair(&mut tag, 'o', 't');
    assert(tag@ =~= seq!['r', 'o', 'o', 't']);
    write_xml(json, &mut writer, tag.as_str());
    assert(Seq::<char>::empty() + xml(json@, tag@) =~= xml(json@, tag@));
    writer
}

/// The listing of a value's structure: one line for each key of an object
/// and for each index of an array, behind the indentation `indent`, and
/// after each line the listing of what stands under that key or index, two
/// spaces deeper. A leaf lists nothing.
pub open spec fn structure(v: Json, indent: Seq<char>) -> Seq<char>
    decreases v, 0nat,
{
    match v {
        Json::Object(ms) => structure_members(ms, 0, indent),
        Json::Array(xs) => structure_elements(xs, 0, indent),
        _ => Seq::empty(),
    }
}

/// The listing of the members `ms[k..]`.
pub open spec fn structure_members(ms: Seq<(Seq<char>, Json)>, k: int, indent: Seq<char>) -> Seq<
    char,
>
    decreases ms, ms.len() - k,
{
    if k < 0 || k >= ms.len() {
        Seq::empty()
    } else {
        indent + ms[k].0 + seq!['\n'] + structure(ms[k].1, indent + seq![' ', ' '])
            + structure_members(ms, k + 1, indent)
    }
}

/// The listing of the elements `xs[k..]`.
pub open spec fn structure_elements(xs: Seq<Json>, k: int, indent: Seq<char>) -> Seq<char>
    decreases xs, xs.len() - k,
{
    if k < 0 || k >= xs.len() {
        Seq::empty()
    } else {
        indent + seq!['['] + decimal(k as nat) + seq![']', '\n'] + structure(
            xs[k],
            indent + seq![' ', ' '],
        ) + structure_elements(xs, k + 1, indent)
    }
}

/// Appends the listing of the structure of `json` to `out`.
#[verifier::loop_isolation(false)]
pub fn display_structure_recursive(json: &Value, indent: &str, out: &mut String)
    ensures
        final(out)@ == old(out)@ + structure(json@, indent@),
    decreases json,
{
    match json {
        Value::Object(members) => {
            proof {
                lemma_object_view(*members);
            }
            let ghost ms = members_view(members@);
            let mut deeper = String::from_str(indent);
            push_pair(&mut deeper, ' ', ' ');
            let mut k: usize = 0;
            while k < members.len()
                invariant
                    0 <= k <= members.len(),
                    out@ + structure_members(ms, k as int, indent@) == old(out)@
                        + structure_members(ms, 0, indent@),
                decreases members.len() - k,
            {
                let ghost before = out@;
                out.append(indent);
                out.append(members[k].0.as_str());
                out.push('\n');
                display_structure_recursive(&members[k].1, deeper.as_str(), out);
                assert(out@ =~= before + indent@ + ms[k as int].0 + seq!['\n'] + structure(
                    ms[k as int].1,
                    indent@ + seq![' ', ' '],
                ));
                assert(out@ + structure_members(ms, k + 1, indent@) =~= before
                    + structure_members(ms, k as int, indent@));
                k += 1;
            }
            assert(final(out)@ =~= old(out)@ + structure(json@, indent@));
        },
        Value::Array(items) => {
            proof {
                lemma_array_view(*items);
            }
            let ghost xs = items_view(items@);
            let mut deeper = String::from_str(indent);
            push_pair(&mut deeper, ' ', ' ');
            let mut k: usize = 0;
            while k < items.len()
                invariant
                    0 <= k <= items.len(),
                    out@ + structure_elements(xs, k as int, indent@) == old(out)@
                        + structure_elements(xs, 0, indent@),
                decreases items.len() - k,
            {
                let ghost before = out@;
                out.append(indent);
                out.push('[');
                push_decimal(out, k);
                push_pair(out, ']', '\n');
                display_structure_recursive(&items[k], deeper.as_str(), out);
                assert(out@ =~= before + indent@ + seq!['['] + decimal(k as nat) + seq![
                    ']',
                    '\n',
                ] + structure(xs[k as int], indent@ + seq![' ', ' ']));
                assert(out@ + structure_elements(xs, k + 1, indent@) =~= before
                    + structure_elements(xs, k as int, indent@));
                k += 1;
            }
            assert(final(out)@ =~= old(out)@ + structure(json@, indent@));
        },
        _ => {
            assert(old(out)@ + structure(json@, indent@) =~= old(out)@);
        },
    }
}

/// The listing of the structure of `json`, from no indentation on.
pub fn display_structure(json: &Value) -> (r: String)
    ensures
        r@ == structure(json@, Seq::empty()),
{
    let mut out = String::new();
    let indent = String::new();
    display_structure_recursive(json, indent.as_str(), &mut out);
    assert(Seq::<char>::empty() + structure(json@, indent@) =~= structure(json@, indent@));
    out
}


/// The formats that a document can be converted to.
#[derive(Debug, Clone, Copy, PartialEq, Eq, Structural)]
pub enum Format {
    Yaml,
    Xml,
}

/// The format that the tag `tag` names: `yaml` or `xml`, in small letters.
pub open spec fn format_of(tag: Seq<char>) -> Option<Format> {
    if tag == seq!['y', 'a', 'm', 'l'] {
        Some(Format::Yaml)
    } else if tag == seq!['x', 'm', 'l'] {
        Some(Format::Xml)
    } else {
        None
    }
}

impl Format {
    /// The format that the tag `tag` names, or nothing for any other tag.
    pub fn from_tag(tag: &str) -> (r: Option<Format>)
        ensures
            r == format_of(tag@),
    {
        let t = chars_of(tag);
        if t.len() == 4 && t[0] == 'y' && t[1] == 'a' && t[2] == 'm' && t[3] == 'l' {
            assert(t@ =~= seq!['y', 'a', 'm', 'l']);
            Some(Format::Yaml)
        } else if t.len() == 3 && t[0] == 'x' && t[1] == 'm' && t[2] == 'l' {
            assert(t@ =~= seq!['x', 'm', 'l']);
            Some(Format::Xml)
        } else {
            proof {
                let yaml = seq!['y', 'a', 'm', 'l'];
                let xml = seq!['x', 'm', 'l'];
                if t@ == yaml {
                    assert(yaml.len() == 4 && yaml[0] == 'y' && yaml[1] == 'a' && yaml[2] == 'm'
                        && yaml[3] == 'l');
                }
                if t@ == xml {
                    assert(xml.len() == 3 && xml[0] == 'x' && xml[1] == 'm' && xml[2] == 'l');
                }
            }
            None
        }
    }
}

} // verus!
