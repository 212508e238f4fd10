//! Paths into a document: `segment(.segment)*`, where a segment is a key, or
//! a key and an index in square brackets behind it.

use crate::grammar::is_digit;
use crate::scanner;
use crate::text::{chars_of, string_of};
use crate::value::{Json, Value};
use vstd::prelude::*;

verus! {

/// The first position from `from` on at which `s` holds `c`, or the length of
/// `s` where it holds none.
pub open spec fn find_char(s: Seq<char>, c: char, from: int) -> int
    decreases s.len() - from,
{
    if from < 0 || from >= s.len() {
        s.len() as int
    } else if s[from] == c {
        from
    } else {
        find_char(s, c, from + 1)
    }
}

/// What `find_char` gives lies between `from` and the end.
pub proof fn lemma_find_char_bounds(s: Seq<char>, c: char, from: int)
    requires
        0 <= from <= s.len(),
    ensures
        from <= find_char(s, c, from) <= s.len(),
    decreases s.len() - from,
{
    if from < s.len() && s[from] != c {
        lemma_find_char_bounds(s, c, from + 1);
    }
}

/// The number that the digits `s[a..b]` spell in decimal.
pub open spec fn digits_value(s: Seq<char>, a: int, b: int) -> nat
    decreases b - a,
{
    if b <= a {
        0
    } else {
        digits_value(s, a, b - 1) * 10 + (s[b - 1] as int - '0' as int) as nat
    }
}

/// `s[a..b]` holds digits only.
pub open spec fn all_digits(s: Seq<char>, a: int, b: int) -> bool {
    forall|i: int| a <= i < b ==> is_digit(#[trigger] s[i])
}

/// The index that `s[a..b]` spells: digits, with a plus sign before them or
/// none, that spell a number within the range of `usize`.
pub open spec fn parse_index(s: Seq<char>, a: int, b: int) -> Option<nat> {
    let first = if a < b && s[a] == '+' {
        a + 1
    } else {
        a
    };
    if first < b && all_digits(s, first, b) && digits_value(s, first, b) <= usize::MAX {
        Some(digits_value(s, first, b))
    } else {
        None
    }
}

/// One step along a path. A segment that holds both brackets names a key and
/// an index: the step goes to the member under the key, and from there to
/// the element at the index. What stands behind the closing bracket is not
/// read. Any other segment is a key. The step leads nowhere where the key or
/// the element is missing, where the value at hand is no object or what it
/// holds under the key no array, or where the index is malformed.
pub open spec fn step(v: Json, segment: Seq<char>) -> Option<Json> {
    let open = find_char(segment, '[', 0);
    let close = find_char(segment, ']', 0);
    if open < segment.len() && close < segment.len() {
        if close < open {
            None
        } else {
            match (parse_index(segment, open + 1, close), v.member(segment.subrange(0, open))) {
                (Some(index), Some(w)) => w.element(index as int),
                _ => None,
            }
        }
    } else {
        v.member(segment)
    }
}

/// The value that the segments of `path` from position `from` on lead to,
/// starting at `v`. The segments lie between the dots.
pub open spec fn resolve(v: Json, path: Seq<char>, from: int) -> Option<Json>
    decreases path.len() - from,
{
    if from < 0 || from > path.len() {
        None
    } else {
        let dot = find_char(path, '.', from);
        match step(v, path.subrange(from, dot)) {
            None => None,
            Some(w) => if dot >= path.len() {
                Some(w)
            } else {
                proof {
                    lemma_find_char_bounds(path, '.', from);
                }
                resolve(w, path, dot + 1)
            },
        }
    }
}

/// More digits spell no smaller number.
proof fn lemma_digits_value_grows(s: Seq<char>, a: int, i: int, b: int)
    requires
        a <= i <= b,
    ensures
        digits_value(s, a, i) <= digits_value(s, a, b),
    decreases b - i,
{
    if i < b {
        lemma_digits_value_grows(s, a, i, b - 1);
    }
}

/// The first position from `from` on at which `s` holds `c`.
fn find(s: &Vec<char>, c: char, from: usize) -> (r: usize)
    requires
        from <= s.len(),
    ensures
        r == find_char(s@, c, from as int),
        from <= r <= s.len(),
        r < s.len() ==> s[r as int] == c,
{
    let mut i: usize = from;
    while i < s.len() && s[i] != c
        invariant
            from <= i <= s.len(),
            find_char(s@, c, from as int) == find_char(s@, c, i as int),
        decreases s.len() - i,
    {
        i += 1;
    }
    i
}

/// The index that `s[a..b]` spells.
#[verifier::loop_isolation(false)]
pub fn read_index(s: &Vec<char>, a: usize, b: usize) -> (r: Option<usize>)
    requires
        a <= b <= s.len(),
    ensures
        match parse_index(s@, a as int, b as int) {
            Some(n) => r == Some(n as usize) && n <= usize::MAX,
            None => r is None,
        },
{
    let first: usize = if a < b && s[a] == '+' { a + 1 } else { a };
    if first >= b {
        return None;
    }
    let mut value: usize = 0;
    let mut i: usize = first;
    while i < b
        invariant
            first <= i <= b <= s.len(),
            all_digits(s@, first as int, i as int),
            value == digits_value(s@, first as int, i as int),
        decreases b - i,
    {
        let c = s[i];
        if !scanner::is_digit(c) {
            assert(!is_digit(s@[i as int]));
            return None;
        }
        let d: usize = scanner::digit_value(c) as usize;
        if value > (usize::MAX - d) / 10 {
            proof {
                lemma_digits_value_grows(s@, first as int, i + 1, b as int);
                assert(digits_value(s@, first as int, i + 1) == value * 10 + d);
            }
            return None;
        }
        value = value * 10 + d;
        i += 1;
    }
    Some(value)
}

/// One step along a path.
fn take_step<'a>(v: &'a Value, segment: &Vec<char>) -> (r: Option<&'a Value>)
    ensures
        match step(v@, segment@) {
            Some(j) => r matches Some(w) && w@ == j,
            None => r is None,
        },
{
    let open = find(segment, '[', 0);
    let close = find(segment, ']', 0);
    if open < segment.len() && close < segment.len() {
        if close < open {
            return None;
        }
        let index = match read_index(segment, open + 1, close) {
            Some(index) => index,
            None => {
                return None;
            },
        };
        let name = string_of(segment, 0, open);
        match v.get(name.as_str()) {
            Some(w) => w.get_index(index),
            None => None,
        }
    } else {
        let name = string_of(segment, 0, segment.len());
        assert(segment@.subrange(0, segment.len() as int) =~= segment@);
        v.get(name.as_str())
    }
}

/// The characters `s[from..to]`.
fn slice_of(s: &Vec<char>, from: usize, to: usize) -> (r: Vec<char>)
    requires
        from <= to <= s.len(),
    ensures
        r@ == s@.subrange(from as int, to as int),
{
    let mut r: Vec<char> = Vec::new();
    let mut i: usize = from;
    while i < to
        invariant
            from <= i <= to <= s.len(),
            r@ == s@.subrange(from as int, i as int),
        decreases to - i,
    {
        r.push(s[i]);
        i += 1;
    }
    r
}

/// The value that `path` leads to in `json`.
pub open spec fn value_at(v: Json, path: Seq<char>) -> Option<Json> {
    resolve(v, path, 0)
}

/// The value that `json_path` leads to in `json`, or nothing where the path
/// leads nowhere.
pub fn get_by_path(json: &Value, json_path: &str) -> (r: Option<Value>)
    ensures
        match value_at(json@, json_path@) {
            Some(j) => r matches Some(v) && v@ == j,
            None => r is None,
        },
{
    let path = chars_of(json_path);
    let mut current: &Value = json;
    let mut from: usize = 0;
    loop
        invariant
            path@ == json_path@,
            0 <= from <= path.len(),
            resolve(json@, path@, 0) == resolve(current@, path@, from as int),
        decreases path.len() - from,
    {
        let dot = find(&path, '.', from);
        let segment = slice_of(&path, from, dot);
        match take_step(current, &segment) {
            None => {
                return None;
            },
            Some(next) => {
                if dot >= path.len() {
                    return Some(next.clone());
                }
                current = next;
                from = dot + 1;
            },
        }
    }
}


/// A text before the searched one moves what is found by its length.
proof fn lemma_find_char_shifted(prefix: Seq<char>, rest: Seq<char>, c: char, from: int)
    requires
        0 <= from <= rest.len(),
    ensures
        find_char(prefix + rest, c, prefix.len() + from) == prefix.len() + find_char(rest, c, from),
    decreases rest.len() - from,
{
    let whole = prefix + rest;
    if from < rest.len() {
        assert(whole[prefix.len() + from] == rest[from]);
        if rest[from] != c {
            lemma_find_char_shifted(prefix, rest, c, from + 1);
        }
    }
}

/// What a segment does not hold is found behind it.
proof fn lemma_find_char_in_prefix(seg: Seq<char>, rest: Seq<char>, c: char, from: int)
    requires
        0 <= from <= seg.len(),
        find_char(seg, c, from) == seg.len(),
    ensures
        find_char(seg + rest, c, from) == seg.len() + find_char(rest, c, 0),
    decreases seg.len() - from,
{
    let whole = seg + rest;
    if from < seg.len() {
        assert(whole[from] == seg[from]);
        lemma_find_char_bounds(seg, c, from);
        lemma_find_char_in_prefix(seg, rest, c, from + 1);
    } else {
        lemma_find_char_shifted(seg, rest, c, 0);
    }
}

/// The rest of a path leads where it leads by itself.
proof fn lemma_resolve_shifted(v: Json, prefix: Seq<char>, rest: Seq<char>, from: int)
    requires
        0 <= from <= rest.len(),
    ensures
        resolve(v, prefix + rest, prefix.len() + from) == resolve(v, rest, from),
    decreases rest.len() - from,
{
    let whole = prefix + rest;
    let dot = find_char(rest, '.', from);
    lemma_find_char_shifted(prefix, rest, '.', from);
    lemma_find_char_bounds(rest, '.', from);
    assert(whole.subrange(prefix.len() + from, prefix.len() + dot) =~= rest.subrange(from, dot));
    match step(v, rest.subrange(from, dot)) {
        Some(w) => {
            if dot < rest.len() {
                lemma_resolve_shifted(w, prefix, rest, dot + 1);
            }
        },
        None => {},
    }
}

/// A path goes segment by segment: where its first segment leads to a value,
/// the path leads to what the rest of the path leads to from there; where
/// the first segment leads nowhere, so does the path, however long it is.
pub proof fn lemma_path_descends(v: Json, segment: Seq<char>, rest: Seq<char>)
    requires
        find_char(segment, '.', 0) == segment.len(),
    ensures
        value_at(v, segment) == step(v, segment),
        value_at(v, segment + seq!['.'] + rest) == (match step(v, segment) {
            Some(w) => value_at(w, rest),
            None => None,
        }),
{
    assert(segment.subrange(0, segment.len() as int) =~= segment);
    let tail = seq!['.'] + rest;
    let path = segment + seq!['.'] + rest;
    assert(path =~= segment + tail);
    lemma_find_char_in_prefix(segment, tail, '.', 0);
    assert(find_char(tail, '.', 0) == 0);
    assert(path.subrange(0, segment.len() as int) =~= segment);
    let head = segment + seq!['.'];
    assert(path =~= head + rest);
    match step(v, segment) {
        Some(w) => {
            lemma_resolve_shifted(w, head, rest, 0);
        },
        None => {},
    }
}

} // verus!
