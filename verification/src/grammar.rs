//! The grammar, as mathematics: what each rule matches in a sequence of
//! characters, where the match ends, and the tree of spans it leaves behind.
//!
//! Matching is ordered choice without backtracking over a finished
//! alternative, so each rule is a function of the input and a start position.
//! Positions count characters.

use vstd::prelude::*;

verus! {

/// The rules of the grammar. A span carries the rule that matched it; the
/// rule `value` leaves no span of its own, but that of the kind of value that
/// it found.
#[allow(non_camel_case_types)]
#[derive(Clone, Copy, Debug, PartialEq, Eq, Hash, Structural)]
pub enum Rule {
    json,
    object,
    array,
    pair,
    value,
    string,
    character,
    escape_sequence,
    number,
    boolean,
    null,
    identifier,
    date,
    version,
    key_value_array,
}

/// A matched stretch of input: the rule, the exact text, and the spans of the
/// sub-rules in source order.
pub struct Span {
    pub rule: Rule,
    pub text: Seq<char>,
    pub children: Seq<Span>,
}

/// Where matching stopped, and the rules that were open there, innermost first.
pub struct Failure {
    pub position: int,
    pub rules: Seq<Rule>,
}

/// What matching one rule at one position gives: the span and the position
/// after it, or the failure.
pub enum Outcome {
    Matched(Span, int),
    Failed(Failure),
}

/// What matching a run of sibling spans gives: the spans and the position
/// after the closing delimiter, or the failure.
pub enum Run {
    Matched(Seq<Span>, int),
    Failed(Failure),
}

/// What scanning a token gives: the position after it, or the position at
/// which the token broke off.
pub enum Scan {
    End(int),
    Stuck(int),
}

/// Whitespace between tokens: space, tab, line feed, carriage return.
pub open spec fn is_ws(c: char) -> bool {
    c == ' ' || c == '\t' || c == '\n' || c == '\r'
}

/// A decimal digit.
pub open spec fn is_digit(c: char) -> bool {
    '0' <= c && c <= '9'
}

/// A hex digit, in either case.
pub open spec fn is_hex(c: char) -> bool {
    is_digit(c) || ('a' <= c && c <= 'f') || ('A' <= c && c <= 'F')
}

/// A letter of the Latin alphabet, in either case.
pub open spec fn is_alpha(c: char) -> bool {
    ('a' <= c && c <= 'z') || ('A' <= c && c <= 'Z')
}

/// A letter or a digit.
pub open spec fn is_alnum(c: char) -> bool {
    is_alpha(c) || is_digit(c)
}

/// The character after the backslash of a two-character escape.
pub open spec fn is_simple_escape(c: char) -> bool {
    c == '"' || c == '\\' || c == '/' || c == 'b' || c == 'f' || c == 'n' || c == 'r' || c == 't'
}

/// `s` holds the character `c` at position `i`.
pub open spec fn holds(s: Seq<char>, i: int, c: char) -> bool {
    0 <= i < s.len() && s[i] == c
}

/// `s` holds a digit at position `i`.
pub open spec fn digit_at(s: Seq<char>, i: int) -> bool {
    0 <= i < s.len() && is_digit(s[i])
}

/// `s` holds a hex digit at position `i`.
pub open spec fn hex_at(s: Seq<char>, i: int) -> bool {
    0 <= i < s.len() && is_hex(s[i])
}

/// `s` holds a letter or a digit at position `i`.
pub open spec fn alnum_at(s: Seq<char>, i: int) -> bool {
    0 <= i < s.len() && is_alnum(s[i])
}

/// The first position from `i` on that holds no whitespace.
pub open spec fn skip_ws(s: Seq<char>, i: int) -> int
    decreases s.len() - i,
{
    if 0 <= i < s.len() && is_ws(s[i]) {
        skip_ws(s, i + 1)
    } else {
        i
    }
}

/// The first position from `i` on that holds no digit.
pub open spec fn digits_end(s: Seq<char>, i: int) -> int
    decreases s.len() - i,
{
    if digit_at(s, i) {
        digits_end(s, i + 1)
    } else {
        i
    }
}

/// The first position from `i` on that holds neither a letter nor a digit.
pub open spec fn alnums_end(s: Seq<char>, i: int) -> int
    decreases s.len() - i,
{
    if alnum_at(s, i) {
        alnums_end(s, i + 1)
    } else {
        i
    }
}

/// The first position from `i` on that holds no letter, digit or underscore.
pub open spec fn word_end(s: Seq<char>, i: int) -> int
    decreases s.len() - i,
{
    if alnum_at(s, i) || holds(s, i, '_') {
        word_end(s, i + 1)
    } else {
        i
    }
}

/// A decimal numeral without a superfluous leading zero: `0`, or a digit from
/// 1 to 9 and any digits after it.
pub open spec fn numeral_end(s: Seq<char>, i: int) -> Scan {
    if !digit_at(s, i) {
        Scan::Stuck(i)
    } else if s[i] == '0' {
        Scan::End(i + 1)
    } else {
        Scan::End(digits_end(s, i))
    }
}

/// The end of a number's sign, integer part and fraction. A dot belongs to
/// the number only with a digit behind it.
pub open spec fn mantissa_end(s: Seq<char>, i: int) -> Scan {
    let a = if holds(s, i, '-') { i + 1 } else { i };
    match numeral_end(s, a) {
        Scan::Stuck(p) => Scan::Stuck(p),
        Scan::End(b) => if holds(s, b, '.') && digit_at(s, b + 1) {
            Scan::End(digits_end(s, b + 1))
        } else {
            Scan::End(b)
        },
    }
}

/// The end of the exponent that starts at `c`, or `c` where none starts there:
/// `e` or `E`, a sign or none, and at least one digit.
pub open spec fn exponent_end(s: Seq<char>, c: int) -> int {
    if holds(s, c, 'e') || holds(s, c, 'E') {
        let d = if holds(s, c + 1, '+') || holds(s, c + 1, '-') { c + 2 } else { c + 1 };
        if digit_at(s, d) {
            digits_end(s, d)
        } else {
            c
        }
    } else {
        c
    }
}

/// The number that starts at `i`: the longest stretch that is a JSON number.
pub open spec fn number_end(s: Seq<char>, i: int) -> Scan {
    match mantissa_end(s, i) {
        Scan::Stuck(p) => Scan::Stuck(p),
        Scan::End(c) => Scan::End(exponent_end(s, c)),
    }
}

/// `s` is, as a whole, a JSON number.
pub open spec fn is_number_literal(s: Seq<char>) -> bool {
    number_end(s, 0) == Scan::End(s.len() as int)
}

/// The text that stands for the number literal `s` in a document: the
/// literal itself, but with the exponent marked by a small `e` and an
/// explicit sign.
pub open spec fn canonical_number(s: Seq<char>) -> Seq<char> {
    match mantissa_end(s, 0) {
        Scan::End(c) => if holds(s, c, 'e') || holds(s, c, 'E') {
            let sign: Seq<char> = if holds(s, c + 1, '+') || holds(s, c + 1, '-') {
                seq![]
            } else {
                seq!['+']
            };
            s.subrange(0, c) + seq!['e'] + sign + s.subrange(c + 1, s.len() as int)
        } else {
            s
        },
        Scan::Stuck(_) => s,
    }
}

/// `true` or `false` at `i`.
pub open spec fn boolean_end(s: Seq<char>, i: int) -> Scan {
    if holds(s, i, 't') && holds(s, i + 1, 'r') && holds(s, i + 2, 'u') && holds(s, i + 3, 'e') {
        Scan::End(i + 4)
    } else if holds(s, i, 'f') && holds(s, i + 1, 'a') && holds(s, i + 2, 'l') && holds(s, i + 3, 's')
        && holds(s, i + 4, 'e') {
        Scan::End(i + 5)
    } else {
        Scan::Stuck(i)
    }
}

/// `null` at `i`.
pub open spec fn null_end(s: Seq<char>, i: int) -> Scan {
    if holds(s, i, 'n') && holds(s, i + 1, 'u') && holds(s, i + 2, 'l') && holds(s, i + 3, 'l') {
        Scan::End(i + 4)
    } else {
        Scan::Stuck(i)
    }
}

/// The escape sequence whose backslash stands at `i`: a backslash and one of
/// `"` `\` `/` `b` `f` `n` `r` `t`, or a backslash, `u` and four hex digits.
pub open spec fn escape_end(s: Seq<char>, i: int) -> Scan {
    if !holds(s, i, '\\') {
        Scan::Stuck(i)
    } else if 0 <= i + 1 < s.len() && is_simple_escape(s[i + 1]) {
        Scan::End(i + 2)
    } else if holds(s, i + 1, 'u') && hex_at(s, i + 2) && hex_at(s, i + 3) && hex_at(s, i + 4)
        && hex_at(s, i + 5) {
        Scan::End(i + 6)
    } else {
        Scan::Stuck(i)
    }
}

/// One character of a string's body that stands for itself: any but the
/// quote and the backslash.
pub open spec fn character_end(s: Seq<char>, i: int) -> Scan {
    if 0 <= i < s.len() && s[i] != '"' && s[i] != '\\' {
        Scan::End(i + 1)
    } else {
        Scan::Stuck(i)
    }
}

/// An identifier: a letter or underscore, then letters, digits and
/// underscores.
pub open spec fn identifier_end(s: Seq<char>, i: int) -> Scan {
    if 0 <= i < s.len() && (is_alpha(s[i]) || s[i] == '_') {
        Scan::End(word_end(s, i + 1))
    } else {
        Scan::Stuck(i)
    }
}

/// The number that two digits at `i` spell, for a two-digit group.
pub open spec fn two_digits(s: Seq<char>, i: int) -> int {
    (s[i] as int - '0' as int) * 10 + (s[i + 1] as int - '0' as int)
}

/// A date `YYYY-MM-DD`: the month from 01 to 12, the day from 01 to 31, no
/// look at the calendar beyond that.
pub open spec fn date_end(s: Seq<char>, i: int) -> Scan {
    if !digit_at(s, i) {
        Scan::Stuck(i)
    } else if !digit_at(s, i + 1) {
        Scan::Stuck(i + 1)
    } else if !digit_at(s, i + 2) {
        Scan::Stuck(i + 2)
    } else if !digit_at(s, i + 3) {
        Scan::Stuck(i + 3)
    } else if !holds(s, i + 4, '-') {
        Scan::Stuck(i + 4)
    } else if !(digit_at(s, i + 5) && digit_at(s, i + 6) && 1 <= two_digits(s, i + 5) <= 12) {
        Scan::Stuck(i + 5)
    } else if !holds(s, i + 7, '-') {
        Scan::Stuck(i + 7)
    } else if !(digit_at(s, i + 8) && digit_at(s, i + 9) && 1 <= two_digits(s, i + 8) <= 31) {
        Scan::Stuck(i + 8)
    } else {
        Scan::End(i + 10)
    }
}

/// Dot-separated identifiers of letters and digits, each non-empty, from `i`
/// on, where `i` holds the first character of the first of them: the position
/// after the last identifier that is complete.
pub open spec fn dotted_end(s: Seq<char>, i: int) -> int
    decreases s.len() - i,
{
    let e = alnums_end(s, i);
    if i < e && holds(s, e, '.') && alnum_at(s, e + 1) {
        dotted_end(s, e + 1)
    } else {
        e
    }
}

/// The optional part of a version that the mark `mark` opens at `i`: the mark
/// and dot-separated identifiers. Where the mark is missing, or no identifier
/// follows it, nothing is taken.
pub open spec fn version_suffix_end(s: Seq<char>, i: int, mark: char) -> int {
    if holds(s, i, mark) && alnum_at(s, i + 1) {
        dotted_end(s, i + 1)
    } else {
        i
    }
}

/// A version: `major.minor.patch`, then a pre-release behind `-` and build
/// metadata behind `+`, each optional.
pub open spec fn version_end(s: Seq<char>, i: int) -> Scan {
    match numeral_end(s, i) {
        Scan::Stuck(p) => Scan::Stuck(p),
        Scan::End(a) => if !holds(s, a, '.') {
            Scan::Stuck(a)
        } else {
            match numeral_end(s, a + 1) {
                Scan::Stuck(p) => Scan::Stuck(p),
                Scan::End(b) => if !holds(s, b, '.') {
                    Scan::Stuck(b)
                } else {
                    match numeral_end(s, b + 1) {
                        Scan::Stuck(p) => Scan::Stuck(p),
                        Scan::End(c) => Scan::End(
                            version_suffix_end(s, version_suffix_end(s, c, '-'), '+'),
                        ),
                    }
                },
            }
        },
    }
}


/// Skipping whitespace goes forward, and not past the end.
pub proof fn lemma_skip_ws_bounds(s: Seq<char>, i: int)
    ensures
        i <= skip_ws(s, i),
        i <= s.len() ==> skip_ws(s, i) <= s.len(),
    decreases s.len() - i,
{
    if 0 <= i < s.len() && is_ws(s[i]) {
        lemma_skip_ws_bounds(s, i + 1);
    }
}

/// The span of `rule` over `s[i..e]`.
pub open spec fn span(rule: Rule, s: Seq<char>, i: int, e: int, children: Seq<Span>) -> Span {
    Span { rule, text: s.subrange(i, e), children }
}

/// Matching `rule` stopped at `p`, with no other rule open inside it.
pub open spec fn stuck(p: int, rule: Rule) -> Failure {
    Failure { position: p, rules: seq![rule] }
}

/// The failure `f`, seen from the enclosing rule `rule`.
pub open spec fn within(f: Failure, rule: Rule) -> Failure {
    Failure { position: f.position, rules: f.rules.push(rule) }
}

/// A rule without sub-rules: its span where the token was scanned to its end.
pub open spec fn leaf(rule: Rule, s: Seq<char>, i: int, scan: Scan) -> Outcome {
    match scan {
        Scan::End(e) => Outcome::Matched(span(rule, s, i, e, seq![]), e),
        Scan::Stuck(p) => Outcome::Failed(stuck(p, rule)),
    }
}

/// The body of a string from `i` to the closing quote: one span for each
/// character that stands for itself and one for each escape sequence, added
/// to `acc`.
pub open spec fn match_chars(s: Seq<char>, i: int, acc: Seq<Span>) -> Run
    decreases s.len() - i,
{
    if !(0 <= i < s.len()) {
        Run::Failed(stuck(i, Rule::string))
    } else if s[i] == '"' {
        Run::Matched(acc, i + 1)
    } else if s[i] == '\\' {
        match escape_end(s, i) {
            Scan::End(e) => match_chars(s, e, acc.push(span(Rule::escape_sequence, s, i, e, seq![]))),
            Scan::Stuck(p) => Run::Failed(within(stuck(p, Rule::escape_sequence), Rule::string)),
        }
    } else {
        match_chars(s, i + 1, acc.push(span(Rule::character, s, i, i + 1, seq![])))
    }
}

/// A string: a quote, the body, a quote.
pub open spec fn match_string(s: Seq<char>, i: int) -> Outcome {
    if !holds(s, i, '"') {
        Outcome::Failed(stuck(i, Rule::string))
    } else {
        match match_chars(s, i + 1, seq![]) {
            Run::Matched(kids, e) => Outcome::Matched(span(Rule::string, s, i, e, kids), e),
            Run::Failed(f) => Outcome::Failed(f),
        }
    }
}

/// The body of a string ends behind where it starts, and within the text.
pub proof fn lemma_match_chars_bounds(s: Seq<char>, i: int, acc: Seq<Span>)
    requires
        0 <= i,
    ensures
        match_chars(s, i, acc) matches Run::Matched(_, e) ==> i < e <= s.len(),
    decreases s.len() - i,
{
    if !(0 <= i < s.len()) {
    } else if s[i] == '"' {
    } else if s[i] == '\\' {
        match escape_end(s, i) {
            Scan::End(e) => {
                lemma_match_chars_bounds(s, e, acc.push(span(Rule::escape_sequence, s, i, e, seq![])));
            },
            Scan::Stuck(p) => {},
        }
    } else {
        lemma_match_chars_bounds(s, i + 1, acc.push(span(Rule::character, s, i, i + 1, seq![])));
    }
}

/// A value: an object, an array, a string, a number, a boolean or null,
/// told apart by the first character.
pub open spec fn match_value(s: Seq<char>, i: int) -> Outcome
    decreases s.len() - i, 3nat,
{
    if !(0 <= i < s.len()) {
        Outcome::Failed(Failure { position: i, rules: seq![] })
    } else if s[i] == '{' {
        match_object(s, i)
    } else if s[i] == '[' {
        match_array(s, i)
    } else if s[i] == '"' {
        match_string(s, i)
    } else if s[i] == '-' || is_digit(s[i]) {
        leaf(Rule::number, s, i, number_end(s, i))
    } else if s[i] == 't' || s[i] == 'f' {
        leaf(Rule::boolean, s, i, boolean_end(s, i))
    } else if s[i] == 'n' {
        leaf(Rule::null, s, i, null_end(s, i))
    } else {
        Outcome::Failed(Failure { position: i, rules: seq![] })
    }
}

/// An object: `{`, pairs between commas, `}`, with whitespace allowed around
/// each token.
pub open spec fn match_object(s: Seq<char>, i: int) -> Outcome
    decreases s.len() - i, 2nat,
{
    if !holds(s, i, '{') {
        Outcome::Failed(stuck(i, Rule::object))
    } else {
        let j = skip_ws(s, i + 1);
        if holds(s, j, '}') {
            Outcome::Matched(span(Rule::object, s, i, j + 1, seq![]), j + 1)
        } else {
            proof {
                lemma_skip_ws_bounds(s, i + 1);
            }
            match match_pairs(s, j, seq![]) {
                Run::Matched(kids, e) => Outcome::Matched(span(Rule::object, s, i, e, kids), e),
                Run::Failed(f) => Outcome::Failed(within(f, Rule::object)),
            }
        }
    }
}

/// The pairs of an object from the pair at `i` to the closing brace, added to
/// `acc`. A pair is never empty, so `i < e` holds of every match
/// (`lemma_match_pair_bounds`); it stands here for the definition to be seen
/// to end.
pub open spec fn match_pairs(s: Seq<char>, i: int, acc: Seq<Span>) -> Run
    decreases s.len() - i, 1nat,
{
    match match_pair(s, i) {
        Outcome::Failed(f) => Run::Failed(f),
        Outcome::Matched(p, e) => {
            let j = skip_ws(s, e);
            if holds(s, j, '}') {
                Run::Matched(acc.push(p), j + 1)
            } else if holds(s, j, ',') && i < e {
                proof {
                    lemma_skip_ws_bounds(s, e);
                    lemma_skip_ws_bounds(s, j + 1);
                }
                match_pairs(s, skip_ws(s, j + 1), acc.push(p))
            } else {
                Run::Failed(Failure { position: j, rules: seq![] })
            }
        },
    }
}

/// A pair: a string, a colon, a value.
pub open spec fn match_pair(s: Seq<char>, i: int) -> Outcome
    decreases s.len() - i, 0nat,
{
    match match_string(s, i) {
        Outcome::Failed(f) => Outcome::Failed(within(f, Rule::pair)),
        Outcome::Matched(key, a) => {
            let b = skip_ws(s, a);
            if !holds(s, b, ':') {
                Outcome::Failed(stuck(b, Rule::pair))
            } else {
                let c = skip_ws(s, b + 1);
                proof {
                    if 0 <= i {
                        lemma_match_chars_bounds(s, i + 1, seq![]);
                    }
                    lemma_skip_ws_bounds(s, a);
                    lemma_skip_ws_bounds(s, b + 1);
                }
                match match_value(s, c) {
                    Outcome::Failed(f) => Outcome::Failed(within(f, Rule::pair)),
                    Outcome::Matched(v, e) => Outcome::Matched(
                        span(Rule::pair, s, i, e, seq![key, v]),
                        e,
                    ),
                }
            }
        },
    }
}

/// An array: `[`, values between commas, `]`, with whitespace allowed around
/// each token.
pub open spec fn match_array(s: Seq<char>, i: int) -> Outcome
    decreases s.len() - i, 2nat,
{
    if !holds(s, i, '[') {
        Outcome::Failed(stuck(i, Rule::array))
    } else {
        let j = skip_ws(s, i + 1);
        if holds(s, j, ']') {
            Outcome::Matched(span(Rule::array, s, i, j + 1, seq![]), j + 1)
        } else {
            proof {
                lemma_skip_ws_bounds(s, i + 1);
            }
            match match_elements(s, j, seq![]) {
                Run::Matched(kids, e) => Outcome::Matched(span(Rule::array, s, i, e, kids), e),
                Run::Failed(f) => Outcome::Failed(within(f, Rule::array)),
            }
        }
    }
}

/// The values of an array from the value at `i` to the closing bracket, added
/// to `acc`. A value is never empty, so `i < e` holds of every match
/// (`lemma_match_value_bounds`); it stands here for the definition to be seen
/// to end.
pub open spec fn match_elements(s: Seq<char>, i: int, acc: Seq<Span>) -> Run
    decreases s.len() - i, 4nat,
{
    match match_value(s, i) {
        Outcome::Failed(f) => Run::Failed(f),
        Outcome::Matched(v, e) => {
            let j = skip_ws(s, e);
            if holds(s, j, ']') {
                Run::Matched(acc.push(v), j + 1)
            } else if holds(s, j, ',') && i < e {
                proof {
                    lemma_skip_ws_bounds(s, e);
                    lemma_skip_ws_bounds(s, j + 1);
                }
                match_elements(s, skip_ws(s, j + 1), acc.push(v))
            } else {
                Run::Failed(Failure { position: j, rules: seq![] })
            }
        },
    }
}


/// A value ends behind where it starts, and within the text.
pub proof fn lemma_match_value_bounds(s: Seq<char>, i: int)
    requires
        0 <= i,
    ensures
        match_value(s, i) matches Outcome::Matched(_, e) ==> i < e <= s.len(),
    decreases s.len() - i, 3nat,
{
    if !(0 <= i < s.len()) {
    } else if s[i] == '{' {
        lemma_match_object_bounds(s, i);
    } else if s[i] == '[' {
        lemma_match_array_bounds(s, i);
    } else if s[i] == '"' {
        lemma_match_chars_bounds(s, i + 1, seq![]);
    } else if s[i] == '-' || is_digit(s[i]) {
        lemma_number_end_bounds(s, i);
    } else {
    }
}

/// A number ends behind where it starts, and within the text.
pub proof fn lemma_number_end_bounds(s: Seq<char>, i: int)
    requires
        0 <= i,
    ensures
        number_end(s, i) matches Scan::End(e) ==> i < e <= s.len(),
{
    let a = if holds(s, i, '-') { i + 1 } else { i };
    lemma_digits_end_is_end(s, a);
    if let Scan::End(b) = numeral_end(s, a) {
        lemma_digits_end_is_end(s, b + 1);
        if let Scan::End(c) = mantissa_end(s, i) {
            lemma_digits_end_is_end(s, c + 1);
            lemma_digits_end_is_end(s, c + 2);
        }
    }
}

/// What `digits_end` gives: digits up to it, and no digit at it.
pub proof fn lemma_digits_end_is_end(s: Seq<char>, i: int)
    ensures
        i <= digits_end(s, i),
        i <= s.len() ==> digits_end(s, i) <= s.len(),
        forall|j: int| i <= j < digits_end(s, i) ==> digit_at(s, j),
        !digit_at(s, digits_end(s, i)),
    decreases s.len() - i,
{
    if digit_at(s, i) {
        lemma_digits_end_is_end(s, i + 1);
    }
}

/// `n` digits from `i` on and no digit behind them put `digits_end` there.
pub proof fn lemma_digits_end_at(s: Seq<char>, i: int, n: int)
    requires
        0 <= n,
        forall|j: int| i <= j < i + n ==> digit_at(s, j),
        !digit_at(s, i + n),
    ensures
        digits_end(s, i) == i + n,
    decreases n,
{
    if n > 0 {
        assert(digit_at(s, i));
        lemma_digits_end_at(s, i + 1, n - 1);
    }
}

/// An object ends behind where it starts, and within the text.
pub proof fn lemma_match_object_bounds(s: Seq<char>, i: int)
    requires
        0 <= i,
    ensures
        match_object(s, i) matches Outcome::Matched(_, e) ==> i < e <= s.len(),
    decreases s.len() - i, 2nat,
{
    if holds(s, i, '{') {
        let j = skip_ws(s, i + 1);
        lemma_skip_ws_bounds(s, i + 1);
        if !holds(s, j, '}') {
            lemma_match_pairs_bounds(s, j, seq![]);
        }
    }
}

/// The pairs of an object end behind where they start, and within the text.
pub proof fn lemma_match_pairs_bounds(s: Seq<char>, i: int, acc: Seq<Span>)
    requires
        0 <= i,
    ensures
        match_pairs(s, i, acc) matches Run::Matched(_, e) ==> i < e <= s.len(),
    decreases s.len() - i, 1nat,
{
    lemma_match_pair_bounds(s, i);
    if let Outcome::Matched(p, e) = match_pair(s, i) {
        let j = skip_ws(s, e);
        lemma_skip_ws_bounds(s, e);
        if holds(s, j, '}') {
        } else if holds(s, j, ',') {
            lemma_skip_ws_bounds(s, j + 1);
            lemma_match_pairs_bounds(s, skip_ws(s, j + 1), acc.push(p));
        }
    }
}

/// A pair ends behind where it starts, and within the text.
pub proof fn lemma_match_pair_bounds(s: Seq<char>, i: int)
    requires
        0 <= i,
    ensures
        match_pair(s, i) matches Outcome::Matched(_, e) ==> i < e <= s.len(),
    decreases s.len() - i, 0nat,
{
    if let Outcome::Matched(key, a) = match_string(s, i) {
        lemma_match_chars_bounds(s, i + 1, seq![]);
        let b = skip_ws(s, a);
        lemma_skip_ws_bounds(s, a);
        if holds(s, b, ':') {
            lemma_skip_ws_bounds(s, b + 1);
            lemma_match_value_bounds(s, skip_ws(s, b + 1));
        }
    }
}

/// An array ends behind where it starts, and within the text.
pub proof fn lemma_match_array_bounds(s: Seq<char>, i: int)
    requires
        0 <= i,
    ensures
        match_array(s, i) matches Outcome::Matched(_, e) ==> i < e <= s.len(),
    decreases s.len() - i, 2nat,
{
    if holds(s, i, '[') {
        let j = skip_ws(s, i + 1);
        lemma_skip_ws_bounds(s, i + 1);
        if !holds(s, j, ']') {
            lemma_match_elements_bounds(s, j, seq![]);
        }
    }
}

/// The values of an array end behind where they start, and within the text.
pub proof fn lemma_match_elements_bounds(s: Seq<char>, i: int, acc: Seq<Span>)
    requires
        0 <= i,
    ensures
        match_elements(s, i, acc) matches Run::Matched(_, e) ==> i < e <= s.len(),
    decreases s.len() - i, 4nat,
{
    lemma_match_value_bounds(s, i);
    if let Outcome::Matched(v, e) = match_value(s, i) {
        let j = skip_ws(s, e);
        lemma_skip_ws_bounds(s, e);
        if holds(s, j, ']') {
        } else if holds(s, j, ',') {
            lemma_skip_ws_bounds(s, j + 1);
            lemma_match_elements_bounds(s, skip_ws(s, j + 1), acc.push(v));
        }
    }
}

/// An array whose elements are all objects.
pub open spec fn match_key_value_array(s: Seq<char>, i: int) -> Outcome {
    if !holds(s, i, '[') {
        Outcome::Failed(stuck(i, Rule::key_value_array))
    } else {
        let j = skip_ws(s, i + 1);
        if holds(s, j, ']') {
            Outcome::Matched(span(Rule::key_value_array, s, i, j + 1, seq![]), j + 1)
        } else {
            match match_objects(s, j, seq![]) {
                Run::Matched(kids, e) => Outcome::Matched(
                    span(Rule::key_value_array, s, i, e, kids),
                    e,
                ),
                Run::Failed(f) => Outcome::Failed(within(f, Rule::key_value_array)),
            }
        }
    }
}

/// The objects of such an array from the object at `i` to the closing
/// bracket, added to `acc`. An object is never empty, so `i < e` holds of
/// every match (`lemma_match_object_bounds`); it stands here for the
/// definition to be seen to end.
pub open spec fn match_objects(s: Seq<char>, i: int, acc: Seq<Span>) -> Run
    decreases s.len() - i,
{
    match match_object(s, i) {
        Outcome::Failed(f) => Run::Failed(f),
        Outcome::Matched(v, e) => {
            let j = skip_ws(s, e);
            if holds(s, j, ']') {
                Run::Matched(acc.push(v), j + 1)
            } else if holds(s, j, ',') && i < e {
                proof {
                    lemma_skip_ws_bounds(s, e);
                    lemma_skip_ws_bounds(s, j + 1);
                }
                match_objects(s, skip_ws(s, j + 1), acc.push(v))
            } else {
                Run::Failed(Failure { position: j, rules: seq![] })
            }
        },
    }
}

/// A document: an object or an array, with whitespace allowed before and
/// after it. The span leaves the whitespace out; the end lies behind it.
pub open spec fn match_json(s: Seq<char>, i: int) -> Outcome {
    let a = skip_ws(s, i);
    let top = if holds(s, a, '{') {
        match_object(s, a)
    } else if holds(s, a, '[') {
        match_array(s, a)
    } else {
        Outcome::Failed(Failure { position: a, rules: seq![] })
    };
    match top {
        Outcome::Failed(f) => Outcome::Failed(within(f, Rule::json)),
        Outcome::Matched(v, e) => Outcome::Matched(span(Rule::json, s, a, e, seq![v]), skip_ws(s, e)),
    }
}

/// What `rule` matches in `s` from position `i` on.
pub open spec fn match_at(rule: Rule, s: Seq<char>, i: int) -> Outcome {
    match rule {
        Rule::json => match_json(s, i),
        Rule::object => match_object(s, i),
        Rule::array => match_array(s, i),
        Rule::pair => match_pair(s, i),
        Rule::value => match_value(s, i),
        Rule::string => match_string(s, i),
        Rule::character => leaf(rule, s, i, character_end(s, i)),
        Rule::escape_sequence => leaf(rule, s, i, escape_end(s, i)),
        Rule::number => leaf(rule, s, i, number_end(s, i)),
        Rule::boolean => leaf(rule, s, i, boolean_end(s, i)),
        Rule::null => leaf(rule, s, i, null_end(s, i)),
        Rule::identifier => leaf(rule, s, i, identifier_end(s, i)),
        Rule::date => leaf(rule, s, i, date_end(s, i)),
        Rule::version => leaf(rule, s, i, version_end(s, i)),
        Rule::key_value_array => match_key_value_array(s, i),
    }
}

/// The tree that `rule` leaves when it matches the whole of `s`, or the
/// failure: where the rule itself breaks off, or, where it ends early, the
/// position at which input is left over.
pub open spec fn parse_tree(rule: Rule, s: Seq<char>) -> Result<Span, Failure> {
    match match_at(rule, s, 0) {
        Outcome::Failed(f) => Err(f),
        Outcome::Matched(tree, e) => if e == s.len() {
            Ok(tree)
        } else {
            Err(stuck(e, rule))
        },
    }
}

} // verus!
