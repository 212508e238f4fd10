//! The grammar engine: it matches a rule against a text and hands back the
//! tree of spans, or the failure with its position. Each matching function
//! computes the spec function of the same name in `grammar`.

use crate::grammar;
use crate::grammar::{Failure, Outcome, Rule, Span};
use crate::scanner;
use crate::text::{chars_of, string_of};
use vstd::prelude::*;

verus! {

/// A stretch of input that a rule matched: the rule, the exact text, and the
/// spans of its sub-rules in source order.
#[derive(Debug)]
pub struct TokenSpan {
    pub rule: Rule,
    pub text: String,
    pub children: Vec<TokenSpan>,
}

impl View for TokenSpan {
    type V = Span;

    open spec fn view(&self) -> Span
        decreases self,
    {
        Span {
            rule: self.rule,
            text: self.text@,
            children: Seq::new(
                self.children@.len(),
                |k: int|
                    if 0 <= k < self.children@.len() {
                        self.children@[k]@
                    } else {
                        Span { rule: Rule::null, text: Seq::empty(), children: Seq::empty() }
                    },
            ),
        }
    }
}

/// The spans that a vector of token spans stands for.
pub open spec fn spans(v: Seq<TokenSpan>) -> Seq<Span> {
    Seq::new(v.len(), |k: int| v[k]@)
}

/// The children of what a token span stands for are what its children
/// stand for.
pub proof fn lemma_children_view(t: TokenSpan)
    ensures
        t@.children == spans(t.children@),
{
    assert(t@.children =~= spans(t.children@));
}

/// The spans of a vector with one more token span are the spans it had and
/// the span of that one.
pub proof fn lemma_spans_push(v: Seq<TokenSpan>, t: TokenSpan)
    ensures
        spans(v.push(t)) == spans(v).push(t@),
{
    assert(spans(v.push(t)) =~= spans(v).push(t@));
}

impl TokenSpan {
    /// The rule that matched.
    pub fn as_rule(&self) -> (r: Rule)
        ensures
            r == self@.rule,
    {
        self.rule
    }

    /// The text that the rule matched.
    pub fn as_str(&self) -> (r: &str)
        ensures
            r@ == self@.text,
    {
        self.text.as_str()
    }

    /// The spans of the sub-rules, in source order.
    pub fn into_inner(self) -> (r: Vec<TokenSpan>)
        ensures
            spans(r@) == self@.children,
    {
        proof {
            lemma_children_view(self);
        }
        self.children
    }
}

/// Why a text does not match a rule: the position, counted in characters, at
/// which matching stopped, and the rules that were open there, innermost
/// first.
#[derive(Debug, PartialEq, Eq)]
pub struct ParseFailure {
    pub position: usize,
    pub rules: Vec<Rule>,
}

impl View for ParseFailure {
    type V = Failure;

    open spec fn view(&self) -> Failure {
        Failure { position: self.position as int, rules: self.rules@ }
    }
}

/// What a matching function returns, as the grammar states it.
pub open spec fn outcome_view(r: Result<(TokenSpan, usize), ParseFailure>) -> Outcome {
    match r {
        Ok((t, e)) => Outcome::Matched(t@, e as int),
        Err(f) => Outcome::Failed(f@),
    }
}

fn make_span(rule: Rule, s: &Vec<char>, i: usize, e: usize, children: Vec<TokenSpan>) -> (t:
    TokenSpan)
    requires
        i <= e <= s.len(),
    ensures
        t@ == grammar::span(rule, s@, i as int, e as int, spans(children@)),
{
    let t = TokenSpan { rule, text: string_of(s, i, e), children };
    proof {
        lemma_children_view(t);
    }
    t
}

fn bare(p: usize) -> (f: ParseFailure)
    ensures
        f@ == (Failure { position: p as int, rules: seq![] }),
{
    ParseFailure { position: p, rules: Vec::new() }
}

fn stuck(p: usize, rule: Rule) -> (f: ParseFailure)
    ensures
        f@ == grammar::stuck(p as int, rule),
{
    let mut rules: Vec<Rule> = Vec::new();
    rules.push(rule);
    assert(rules@ =~= seq![rule]);
    ParseFailure { position: p, rules }
}

fn within(f: ParseFailure, rule: Rule) -> (g: ParseFailure)
    ensures
        g@ == grammar::within(f@, rule),
{
    let mut f = f;
    f.rules.push(rule);
    f
}

fn leaf(rule: Rule, s: &Vec<char>, i: usize, scan: Result<usize, usize>) -> (r: Result<
    (TokenSpan, usize),
    ParseFailure,
>)
    requires
        scan matches Ok(e) ==> i <= e <= s.len(),
    ensures
        outcome_view(r) == grammar::leaf(rule, s@, i as int, scanner::scan_view(scan)),
        r matches Ok((_, e)) ==> scan == Ok::<usize, usize>(e),
{
    match scan {
        Ok(e) => {
            let t = make_span(rule, s, i, e, Vec::new());
            assert(spans(Seq::<TokenSpan>::empty()) =~= Seq::<Span>::empty());
            Ok((t, e))
        },
        Err(p) => Err(stuck(p, rule)),
    }
}

#[verifier::loop_isolation(false)]
fn match_string(s: &Vec<char>, i: usize) -> (r: Result<(TokenSpan, usize), ParseFailure>)
    requires
        i <= s.len(),
    ensures
        outcome_view(r) == grammar::match_string(s@, i as int),
        r matches Ok((_, e)) ==> i < e <= s.len(),
{
    if !scanner::holds(s, i, '"') {
        return Err(stuck(i, Rule::string));
    }
    let mut kids: Vec<TokenSpan> = Vec::new();
    let mut j: usize = i + 1;
    assert(spans(kids@) =~= Seq::<Span>::empty());
    loop
        invariant
            i < j <= s.len(),
            grammar::match_chars(s@, i + 1, seq![]) == grammar::match_chars(
                s@,
                j as int,
                spans(kids@),
            ),
        decreases s.len() - j,
    {
        if j >= s.len() {
            return Err(stuck(j, Rule::string));
        }
        let c = s[j];
        if c == '"' {
            return Ok((make_span(Rule::string, s, i, j + 1, kids), j + 1));
        } else if c == '\\' {
            match scanner::escape_end(s, j) {
                Ok(e) => {
                    let t = make_span(Rule::escape_sequence, s, j, e, Vec::new());
                    proof {
                        assert(spans(Seq::<TokenSpan>::empty()) =~= Seq::<Span>::empty());
                        lemma_spans_push(kids@, t);
                    }
                    kids.push(t);
                    j = e;
                },
                Err(p) => {
                    return Err(within(stuck(p, Rule::escape_sequence), Rule::string));
                },
            }
        } else {
            let t = make_span(Rule::character, s, j, j + 1, Vec::new());
            proof {
                assert(spans(Seq::<TokenSpan>::empty()) =~= Seq::<Span>::empty());
                lemma_spans_push(kids@, t);
            }
            kids.push(t);
            j += 1;
        }
    }
}

fn match_value(s: &Vec<char>, i: usize) -> (r: Result<(TokenSpan, usize), ParseFailure>)
    requires
        i <= s.len(),
    ensures
        outcome_view(r) == grammar::match_value(s@, i as int),
        r matches Ok((_, e)) ==> i < e <= s.len(),
    decreases s.len() - i, 3nat,
{
    if i >= s.len() {
        return Err(bare(i));
    }
    let c = s[i];
    if c == '{' {
        match_object(s, i)
    } else if c == '[' {
        match_array(s, i)
    } else if c == '"' {
        match_string(s, i)
    } else if c == '-' || scanner::is_digit(c) {
        leaf(Rule::number, s, i, scanner::number_end(s, i))
    } else if c == 't' || c == 'f' {
        leaf(Rule::boolean, s, i, scanner::boolean_end(s, i))
    } else if c == 'n' {
        leaf(Rule::null, s, i, scanner::null_end(s, i))
    } else {
        Err(bare(i))
    }
}

#[verifier::loop_isolation(false)]
fn match_object(s: &Vec<char>, i: usize) -> (r: Result<(TokenSpan, usize), ParseFailure>)
    requires
        i <= s.len(),
    ensures
        outcome_view(r) == grammar::match_object(s@, i as int),
        r matches Ok((_, e)) ==> i < e <= s.len(),
    decreases s.len() - i, 2nat,
{
    if !scanner::holds(s, i, '{') {
        return Err(stuck(i, Rule::object));
    }
    let j = scanner::skip_ws(s, i + 1);
    let mut kids: Vec<TokenSpan> = Vec::new();
    assert(spans(kids@) =~= Seq::<Span>::empty());
    if scanner::holds(s, j, '}') {
        return Ok((make_span(Rule::object, s, i, j + 1, kids), j + 1));
    }
    let mut p: usize = j;
    loop
        invariant
            i < p <= s.len(),
            grammar::match_pairs(s@, j as int, seq![]) == grammar::match_pairs(
                s@,
                p as int,
                spans(kids@),
            ),
        decreases s.len() - p,
    {
        match match_pair(s, p) {
            Err(f) => {
                return Err(within(f, Rule::object));
            },
            Ok((pair, e)) => {
                proof {
                    lemma_spans_push(kids@, pair);
                }
                kids.push(pair);
                let q = scanner::skip_ws(s, e);
                if scanner::holds(s, q, '}') {
                    return Ok((make_span(Rule::object, s, i, q + 1, kids), q + 1));
                } else if scanner::holds(s, q, ',') {
                    p = scanner::skip_ws(s, q + 1);
                } else {
                    return Err(within(bare(q), Rule::object));
                }
            },
        }
    }
}

fn match_pair(s: &Vec<char>, i: usize) -> (r: Result<(TokenSpan, usize), ParseFailure>)
    requires
        i <= s.len(),
    ensures
        outcome_view(r) == grammar::match_pair(s@, i as int),
        r matches Ok((_, e)) ==> i < e <= s.len(),
    decreases s.len() - i, 0nat,
{
    match match_string(s, i) {
        Err(f) => Err(within(f, Rule::pair)),
        Ok((key, a)) => {
            let b = scanner::skip_ws(s, a);
            if !scanner::holds(s, b, ':') {
                return Err(stuck(b, Rule::pair));
            }
            let c = scanner::skip_ws(s, b + 1);
            match match_value(s, c) {
                Err(f) => Err(within(f, Rule::pair)),
                Ok((v, e)) => {
                    let mut kids: Vec<TokenSpan> = Vec::new();
                    proof {
                        assert(spans(seq![key, v]) =~= seq![key@, v@]);
                    }
                    kids.push(key);
                    kids.push(v);
                    assert(kids@ =~= seq![key, v]);
                    Ok((make_span(Rule::pair, s, i, e, kids), e))
                },
            }
        },
    }
}

#[verifier::loop_isolation(false)]
fn match_array(s: &Vec<char>, i: usize) -> (r: Result<(TokenSpan, usize), ParseFailure>)
    requires
        i <= s.len(),
    ensures
        outcome_view(r) == grammar::match_array(s@, i as int),
        r matches Ok((_, e)) ==> i < e <= s.len(),
    decreases s.len() - i, 2nat,
{
    if !scanner::holds(s, i, '[') {
        return Err(stuck(i, Rule::array));
    }
    let j = scanner::skip_ws(s, i + 1);
    let mut kids: Vec<TokenSpan> = Vec::new();
    assert(spans(kids@) =~= Seq::<Span>::empty());
    if scanner::holds(s, j, ']') {
        return Ok((make_span(Rule::array, s, i, j + 1, kids), j + 1));
    }
    let mut p: usize = j;
    loop
        invariant
            i < p <= s.len(),
            grammar::match_elements(s@, j as int, seq![]) == grammar::match_elements(
                s@,
                p as int,
                spans(kids@),
            ),
        decreases s.len() - p,
    {
        match match_value(s, p) {
            Err(f) => {
                return Err(within(f, Rule::array));
            },
            Ok((v, e)) => {
                proof {
                    lemma_spans_push(kids@, v);
                }
                kids.push(v);
                let q = scanner::skip_ws(s, e);
                if scanner::holds(s, q, ']') {
                    return Ok((make_span(Rule::array, s, i, q + 1, kids), q + 1));
                } else if scanner::holds(s, q, ',') {
                    p = scanner::skip_ws(s, q + 1);
                } else {
                    return Err(within(bare(q), Rule::array));
                }
            },
        }
    }
}

#[verifier::loop_isolation(false)]
fn match_key_value_array(s: &Vec<char>, i: usize) -> (r: Result<(TokenSpan, usize), ParseFailure>)
    requires
        i <= s.len(),
    ensures
        outcome_view(r) == grammar::match_key_value_array(s@, i as int),
        r matches Ok((_, e)) ==> i < e <= s.len(),
{
    if !scanner::holds(s, i, '[') {
        return Err(stuck(i, Rule::key_value_array));
    }
    let j = scanner::skip_ws(s, i + 1);
    let mut kids: Vec<TokenSpan> = Vec::new();
    assert(spans(kids@) =~= Seq::<Span>::empty());
    if scanner::holds(s, j, ']') {
        return Ok((make_span(Rule::key_value_array, s, i, j + 1, kids), j + 1));
    }
    let mut p: usize = j;
    loop
        invariant
            i < p <= s.len(),
            grammar::match_objects(s@, j as int, seq![]) == grammar::match_objects(
                s@,
                p as int,
                spans(kids@),
            ),
        decreases s.len() - p,
    {
        match match_object(s, p) {
            Err(f) => {
                return Err(within(f, Rule::key_value_array));
            },
            Ok((v, e)) => {
                proof {
                    lemma_spans_push(kids@, v);
                }
                kids.push(v);
                let q = scanner::skip_ws(s, e);
                if scanner::holds(s, q, ']') {
                    return Ok((make_span(Rule::key_value_array, s, i, q + 1, kids), q + 1));
                } else if scanner::holds(s, q, ',') {
                    p = scanner::skip_ws(s, q + 1);
                } else {
                    return Err(within(bare(q), Rule::key_value_array));
                }
            },
        }
    }
}

fn match_json(s: &Vec<char>, i: usize) -> (r: Result<(TokenSpan, usize), ParseFailure>)
    requires
        i <= s.len(),
    ensures
        outcome_view(r) == grammar::match_json(s@, i as int),
        r matches Ok((_, e)) ==> i < e <= s.len(),
{
    let a = scanner::skip_ws(s, i);
    let top = if scanner::holds(s, a, '{') {
        match_object(s, a)
    } else if scanner::holds(s, a, '[') {
        match_array(s, a)
    } else {
        Err(bare(a))
    };
    match top {
        Err(f) => Err(within(f, Rule::json)),
        Ok((v, e)) => {
            let mut kids: Vec<TokenSpan> = Vec::new();
            proof {
                assert(spans(seq![v]) =~= seq![v@]);
            }
            kids.push(v);
            assert(kids@ =~= seq![v]);
            Ok((make_span(Rule::json, s, a, e, kids), scanner::skip_ws(s, e)))
        },
    }
}

fn match_at(rule: Rule, s: &Vec<char>, i: usize) -> (r: Result<(TokenSpan, usize), ParseFailure>)
    requires
        i <= s.len(),
    ensures
        outcome_view(r) == grammar::match_at(rule, s@, i as int),
        r matches Ok((_, e)) ==> i < e <= s.len(),
{
    match rule {
        Rule::json => match_json(s, i),
        Rule::object => match_object(s, i),
        Rule::array => match_array(s, i),
        Rule::pair => match_pair(s, i),
        Rule::value => match_value(s, i),
        Rule::string => match_string(s, i),
        Rule::character => leaf(rule, s, i, scanner::character_end(s, i)),
        Rule::escape_sequence => leaf(rule, s, i, scanner::escape_end(s, i)),
        Rule::number => leaf(rule, s, i, scanner::number_end(s, i)),
        Rule::boolean => leaf(rule, s, i, scanner::boolean_end(s, i)),
        Rule::null => leaf(rule, s, i, scanner::null_end(s, i)),
        Rule::identifier => leaf(rule, s, i, scanner::identifier_end(s, i)),
        Rule::date => leaf(rule, s, i, scanner::date_end(s, i)),
        Rule::version => leaf(rule, s, i, scanner::version_end(s, i)),
        Rule::key_value_array => match_key_value_array(s, i),
    }
}

/// What `JSONParser::parse` returns, as the grammar states it.
pub open spec fn tree_view(r: Result<TokenSpan, ParseFailure>) -> Result<Span, Failure> {
    match r {
        Ok(t) => Ok(t@),
        Err(f) => Err(f@),
    }
}

/// The parser of the grammar.
pub struct JSONParser;

impl JSONParser {
    /// Matches `rule` against the whole of `input`: the tree of spans where
    /// the input conforms to the rule from its first character to its last,
    /// else the failure.
    pub fn parse(rule: Rule, input: &str) -> (r: Result<TokenSpan, ParseFailure>)
        ensures
            tree_view(r) == grammar::parse_tree(rule, input@),
    {
        let s = chars_of(input);
        match match_at(rule, &s, 0) {
            Err(f) => Err(f),
            Ok((t, e)) => {
                if e == s.len() {
                    Ok(t)
                } else {
                    Err(stuck(e, rule))
                }
            },
        }
    }
}

} // verus!
