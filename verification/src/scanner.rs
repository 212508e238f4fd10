//! The tokens of the grammar, scanned in a vector of characters. Each
//! function computes the spec function of the same name in `grammar`.

use crate::grammar;
use crate::grammar::Scan;
use vstd::prelude::*;

verus! {

/// The outcome of a scan as the grammar states it: `Ok` holds the end,
/// `Err` the position at which the token broke off.
pub open spec fn scan_view(r: Result<usize, usize>) -> Scan {
    match r {
        Ok(e) => Scan::End(e as int),
        Err(p) => Scan::Stuck(p as int),
    }
}

pub fn is_ws(c: char) -> (b: bool)
    ensures
        b == grammar::is_ws(c),
{
    c == ' ' || c == '\t' || c == '\n' || c == '\r'
}

pub fn is_digit(c: char) -> (b: bool)
    ensures
        b == grammar::is_digit(c),
{
    '0' <= c && c <= '9'
}

pub fn is_hex(c: char) -> (b: bool)
    ensures
        b == grammar::is_hex(c),
{
    is_digit(c) || ('a' <= c && c <= 'f') || ('A' <= c && c <= 'F')
}

pub fn is_alpha(c: char) -> (b: bool)
    ensures
        b == grammar::is_alpha(c),
{
    ('a' <= c && c <= 'z') || ('A' <= c && c <= 'Z')
}

pub fn is_alnum(c: char) -> (b: bool)
    ensures
        b == grammar::is_alnum(c),
{
    is_alpha(c) || is_digit(c)
}

pub fn is_simple_escape(c: char) -> (b: bool)
    ensures
        b == grammar::is_simple_escape(c),
{
    c == '"' || c == '\\' || c == '/' || c == 'b' || c == 'f' || c == 'n' || c == 'r' || c == 't'
}

pub fn holds(s: &Vec<char>, i: usize, c: char) -> (b: bool)
    ensures
        b == grammar::holds(s@, i as int, c),
{
    i < s.len() && s[i] == c
}

pub fn digit_at(s: &Vec<char>, i: usize) -> (b: bool)
    ensures
        b == grammar::digit_at(s@, i as int),
{
    i < s.len() && is_digit(s[i])
}

pub fn hex_at(s: &Vec<char>, i: usize) -> (b: bool)
    ensures
        b == grammar::hex_at(s@, i as int),
{
    i < s.len() && is_hex(s[i])
}

pub fn alnum_at(s: &Vec<char>, i: usize) -> (b: bool)
    ensures
        b == grammar::alnum_at(s@, i as int),
{
    i < s.len() && is_alnum(s[i])
}

pub fn skip_ws(s: &Vec<char>, i: usize) -> (j: usize)
    requires
        i <= s.len(),
    ensures
        j == grammar::skip_ws(s@, i as int),
        i <= j <= s.len(),
{
    let mut j: usize = i;
    while j < s.len() && is_ws(s[j])
        invariant
            i <= j <= s.len(),
            grammar::skip_ws(s@, i as int) == grammar::skip_ws(s@, j as int),
        decreases s.len() - j,
    {
        j += 1;
    }
    j
}

pub fn digits_end(s: &Vec<char>, i: usize) -> (j: usize)
    requires
        i <= s.len(),
    ensures
        j == grammar::digits_end(s@, i as int),
        i <= j <= s.len(),
{
    let mut j: usize = i;
    while digit_at(s, j)
        invariant
            i <= j <= s.len(),
            grammar::digits_end(s@, i as int) == grammar::digits_end(s@, j as int),
        decreases s.len() - j,
    {
        j += 1;
    }
    j
}

pub fn alnums_end(s: &Vec<char>, i: usize) -> (j: usize)
    requires
        i <= s.len(),
    ensures
        j == grammar::alnums_end(s@, i as int),
        i <= j <= s.len(),
{
    let mut j: usize = i;
    while alnum_at(s, j)
        invariant
            i <= j <= s.len(),
            grammar::alnums_end(s@, i as int) == grammar::alnums_end(s@, j as int),
        decreases s.len() - j,
    {
        j += 1;
    }
    j
}

pub fn word_end(s: &Vec<char>, i: usize) -> (j: usize)
    requires
        i <= s.len(),
    ensures
        j == grammar::word_end(s@, i as int),
        i <= j <= s.len(),
{
    let mut j: usize = i;
    while alnum_at(s, j) || holds(s, j, '_')
        invariant
            i <= j <= s.len(),
            grammar::word_end(s@, i as int) == grammar::word_end(s@, j as int),
        decreases s.len() - j,
    {
        j += 1;
    }
    j
}

pub fn numeral_end(s: &Vec<char>, i: usize) -> (r: Result<usize, usize>)
    requires
        i <= s.len(),
    ensures
        scan_view(r) == grammar::numeral_end(s@, i as int),
        r matches Ok(e) ==> i < e <= s.len(),
        r matches Err(p) ==> i <= p <= s.len(),
{
    if !digit_at(s, i) {
        Err(i)
    } else if s[i] == '0' {
        Ok(i + 1)
    } else {
        Ok(digits_end(s, i + 1))
    }
}

pub fn mantissa_end(s: &Vec<char>, i: usize) -> (r: Result<usize, usize>)
    requires
        i <= s.len(),
    ensures
        scan_view(r) == grammar::mantissa_end(s@, i as int),
        r matches Ok(e) ==> i < e <= s.len(),
        r matches Err(p) ==> i <= p <= s.len(),
{
    let a: usize = if holds(s, i, '-') { i + 1 } else { i };
    match numeral_end(s, a) {
        Err(p) => Err(p),
        Ok(b) => {
            if holds(s, b, '.') && digit_at(s, b + 1) {
                Ok(digits_end(s, b + 1))
            } else {
                Ok(b)
            }
        },
    }
}

pub fn exponent_end(s: &Vec<char>, c: usize) -> (e: usize)
    requires
        c <= s.len(),
    ensures
        e == grammar::exponent_end(s@, c as int),
        c <= e <= s.len(),
{
    if holds(s, c, 'e') || holds(s, c, 'E') {
        let d: usize = if holds(s, c + 1, '+') || holds(s, c + 1, '-') { c + 2 } else { c + 1 };
        if digit_at(s, d) {
            digits_end(s, d)
        } else {
            c
        }
    } else {
        c
    }
}

pub fn number_end(s: &Vec<char>, i: usize) -> (r: Result<usize, usize>)
    requires
        i <= s.len(),
    ensures
        scan_view(r) == grammar::number_end(s@, i as int),
        r matches Ok(e) ==> i < e <= s.len(),
        r matches Err(p) ==> i <= p <= s.len(),
{
    match mantissa_end(s, i) {
        Err(p) => Err(p),
        Ok(c) => Ok(exponent_end(s, c)),
    }
}

pub fn boolean_end(s: &Vec<char>, i: usize) -> (r: Result<usize, usize>)
    requires
        i <= s.len(),
    ensures
        scan_view(r) == grammar::boolean_end(s@, i as int),
        r matches Ok(e) ==> i < e <= s.len(),
        r matches Err(p) ==> i <= p <= s.len(),
{
    if holds(s, i, 't') && holds(s, i + 1, 'r') && holds(s, i + 2, 'u') && holds(s, i + 3, 'e') {
        Ok(i + 4)
    } else if holds(s, i, 'f') && holds(s, i + 1, 'a') && holds(s, i + 2, 'l') && holds(
        s,
        i + 3,
        's',
    ) && holds(s, i + 4, 'e') {
        Ok(i + 5)
    } else {
        Err(i)
    }
}

pub fn null_end(s: &Vec<char>, i: usize) -> (r: Result<usize, usize>)
    requires
        i <= s.len(),
    ensures
        scan_view(r) == grammar::null_end(s@, i as int),
        r matches Ok(e) ==> i < e <= s.len(),
        r matches Err(p) ==> i <= p <= s.len(),
{
    if holds(s, i, 'n') && holds(s, i + 1, 'u') && holds(s, i + 2, 'l') && holds(s, i + 3, 'l') {
        Ok(i + 4)
    } else {
        Err(i)
    }
}

pub fn escape_end(s: &Vec<char>, i: usize) -> (r: Result<usize, usize>)
    requires
        i <= s.len(),
    ensures
        scan_view(r) == grammar::escape_end(s@, i as int),
        r matches Ok(e) ==> i < e <= s.len(),
        r matches Err(p) ==> i <= p <= s.len(),
{
    if !holds(s, i, '\\') {
        Err(i)
    } else if i + 1 < s.len() && is_simple_escape(s[i + 1]) {
        Ok(i + 2)
    } else if holds(s, i + 1, 'u') && hex_at(s, i + 2) && hex_at(s, i + 3) && hex_at(s, i + 4)
        && hex_at(s, i + 5) {
        Ok(i + 6)
    } else {
        Err(i)
    }
}

pub fn character_end(s: &Vec<char>, i: usize) -> (r: Result<usize, usize>)
    requires
        i <= s.len(),
    ensures
        scan_view(r) == grammar::character_end(s@, i as int),
        r matches Ok(e) ==> i < e <= s.len(),
        r matches Err(p) ==> i <= p <= s.len(),
{
    if i < s.len() && s[i] != '"' && s[i] != '\\' {
        Ok(i + 1)
    } else {
        Err(i)
    }
}

pub fn identifier_end(s: &Vec<char>, i: usize) -> (r: Result<usize, usize>)
    requires
        i <= s.len(),
    ensures
        scan_view(r) == grammar::identifier_end(s@, i as int),
        r matches Ok(e) ==> i < e <= s.len(),
        r matches Err(p) ==> i <= p <= s.len(),
{
    if i < s.len() && (is_alpha(s[i]) || s[i] == '_') {
        Ok(word_end(s, i + 1))
    } else {
        Err(i)
    }
}

/// The digit that `c` spells.
pub fn digit_value(c: char) -> (d: u32)
    requires
        grammar::is_digit(c),
    ensures
        d == c as int - '0' as int,
        d <= 9,
{
    c as u32 - '0' as u32
}

/// Two digits at `i`, and the number they spell within `low..=high`.
fn two_digits_within(s: &Vec<char>, i: usize, low: u32, high: u32) -> (b: bool)
    requires
        i <= s.len(),
    ensures
        b == (grammar::digit_at(s@, i as int) && grammar::digit_at(s@, i + 1) && low
            <= grammar::two_digits(s@, i as int) <= high),
{
    if digit_at(s, i) && digit_at(s, i + 1) {
        let n: u32 = digit_value(s[i]) * 10 + digit_value(s[i + 1]);
        low <= n && n <= high
    } else {
        false
    }
}

pub fn date_end(s: &Vec<char>, i: usize) -> (r: Result<usize, usize>)
    requires
        i <= s.len(),
    ensures
        scan_view(r) == grammar::date_end(s@, i as int),
        r matches Ok(e) ==> i < e <= s.len(),
        r matches Err(p) ==> i <= p <= s.len(),
{
    if !digit_at(s, i) {
        Err(i)
    } else if !digit_at(s, i + 1) {
        Err(i + 1)
    } else if !digit_at(s, i + 2) {
        Err(i + 2)
    } else if !digit_at(s, i + 3) {
        Err(i + 3)
    } else if !holds(s, i + 4, '-') {
        Err(i + 4)
    } else if !two_digits_within(s, i + 5, 1, 12) {
        Err(i + 5)
    } else if !holds(s, i + 7, '-') {
        Err(i + 7)
    } else if !two_digits_within(s, i + 8, 1, 31) {
        Err(i + 8)
    } else {
        Ok(i + 10)
    }
}

pub fn dotted_end(s: &Vec<char>, i: usize) -> (j: usize)
    requires
        i <= s.len(),
    ensures
        j == grammar::dotted_end(s@, i as int),
        i <= j <= s.len(),
{
    let mut a: usize = i;
    loop
        invariant
            i <= a <= s.len(),
            grammar::dotted_end(s@, i as int) == grammar::dotted_end(s@, a as int),
        decreases s.len() - a,
    {
        let e = alnums_end(s, a);
        if a < e && holds(s, e, '.') && alnum_at(s, e + 1) {
            a = e + 1;
        } else {
            return e;
        }
    }
}

pub fn version_suffix_end(s: &Vec<char>, i: usize, mark: char) -> (j: usize)
    requires
        i <= s.len(),
    ensures
        j == grammar::version_suffix_end(s@, i as int, mark),
        i <= j <= s.len(),
{
    if holds(s, i, mark) && alnum_at(s, i + 1) {
        dotted_end(s, i + 1)
    } else {
        i
    }
}

pub fn version_end(s: &Vec<char>, i: usize) -> (r: Result<usize, usize>)
    requires
        i <= s.len(),
    ensures
        scan_view(r) == grammar::version_end(s@, i as int),
        r matches Ok(e) ==> i < e <= s.len(),
        r matches Err(p) ==> i <= p <= s.len(),
{
    let a = match numeral_end(s, i) {
        Err(p) => { return Err(p); },
        Ok(a) => a,
    };
    if !holds(s, a, '.') {
        return Err(a);
    }
    let b = match numeral_end(s, a + 1) {
        Err(p) => { return Err(p); },
        Ok(b) => b,
    };
    if !holds(s, b, '.') {
        return Err(b);
    }
    let c = match numeral_end(s, b + 1) {
        Err(p) => { return Err(p); },
        Ok(c) => c,
    };
    let d = version_suffix_end(s, c, '-');
    Ok(version_suffix_end(s, d, '+'))
}

} // verus!
