//! Parsing a document, and the operations on a parsed document.

use crate::builder::{build_value, built, fails_plainly, insert_member, parse_value};
use crate::engine::{lemma_children_view, JSONParser};
use crate::grammar::{holds, match_array, match_object, parse_tree, skip_ws, Failure, Rule};
use crate::roundtrip::lemma_document_wf;
use crate::value::{
    find_key, insert, lemma_insert_wf, lemma_object_view, lookup, members_view, Json, Value,
};
use vstd::prelude::*;

pub use crate::emit::{
    convert_json_to_xml, display_structure, display_structure_recursive, minify_json, write_xml,
    Format,
};
pub use crate::error::{EditError, ParseError, ParserError};
pub use crate::path::get_by_path;
pub use crate::search::{search_by_value, search_recursive};

verus! {

/// The value that the text `t` spells: the text matches the rule `json`, and
/// the tree of the match builds a value.
pub open spec fn document(t: Seq<char>) -> Option<Json> {
    match parse_tree(Rule::json, t) {
        Ok(tree) => build_value(tree),
        Err(_) => None,
    }
}

/// The model of a `ParseError`: the stage that refused a text.
pub enum Refusal {
    /// The grammar, with where matching stopped and which rules were open.
    Grammar(Failure),
    /// The builder, for want of a span under the top one.
    Empty,
    /// The builder, for a token that stands for no value.
    Build,
}

/// What parsing the text `t` gives: the document, or the reason why the text
/// is none. The grammar speaks first, with the place of its failure; then the
/// builder, which needs a span under the top one and a value for each token.
pub open spec fn parse_outcome(t: Seq<char>) -> Result<Json, Refusal> {
    match parse_tree(Rule::json, t) {
        Err(f) => Err(Refusal::Grammar(f)),
        Ok(tree) => if tree.children.len() == 0 {
            Err(Refusal::Empty)
        } else {
            match build_value(tree.children[0]) {
                Some(v) => Ok(v),
                None => Err(Refusal::Build),
            }
        },
    }
}

/// What `parse_document` returns, in terms of the model.
pub open spec fn parsed(r: Result<Value, ParseError>) -> Result<Json, Refusal> {
    match r {
        Ok(v) => Ok(v@),
        Err(ParseError::GrammarMismatch(f)) => Err(Refusal::Grammar(f@)),
        Err(ParseError::EmptyOrNoMatch) => Err(Refusal::Empty),
        Err(ParseError::ContainerBuildFailure) => Err(Refusal::Build),
    }
}

/// The grammar leaves a span under the top one wherever it matches, so no
/// text is refused for want of one.
pub proof fn lemma_never_empty(t: Seq<char>)
    ensures
        parse_outcome(t) != Err::<Json, Refusal>(Refusal::Empty),
{
    if let Ok(tree) = parse_tree(Rule::json, t) {
        let a = skip_ws(t, 0);
        let inner = if holds(t, a, '{') { match_object(t, a) } else { match_array(t, a) };
        assert(tree.children =~= seq![inner->Matched_0]);
    }
}

/// Parses a document, and says which stage refused a text that is none.
pub fn parse_document(text: &str) -> (r: Result<Value, ParseError>)
    ensures
        parsed(r) == parse_outcome(text@),
        r matches Ok(v) ==> document(text@) == Some(v@) && v@.wf() && (v@ is Object || v@ is Array),
        r is Err ==> document(text@) is None,
{
    proof {
        lemma_document_wf(text@);
    }
    match JSONParser::parse(Rule::json, text) {
        Err(f) => Err(ParseError::GrammarMismatch(f)),
        Ok(tree) => {
            proof {
                lemma_children_view(tree);
            }
            if tree.children.len() == 0 {
                return Err(ParseError::EmptyOrNoMatch);
            }
            match parse_value(&tree.children[0]) {
                Ok(v) => Ok(v),
                Err(_) => Err(ParseError::ContainerBuildFailure),
            }
        },
    }
}

/// Parses a document. Whatever refused the text, the error is the same;
/// `parse_document` tells the reasons apart.
pub fn parse_json(json_str: &str) -> (r: Result<Value, ParserError>)
    ensures
        built(r) == document(json_str@),
        fails_plainly(r),
        parse_tree(Rule::json, json_str@) is Err ==> r is Err,
        r matches Ok(v) ==> v@.wf() && (v@ is Object || v@ is Array),
{
    match parse_document(json_str) {
        Ok(v) => Ok(v),
        Err(_) => Err(ParserError::JsonParseError),
    }
}

/// The document `json` fits the schema `schema`: both are objects, and the
/// schema has each key that the document has. The schema may have more.
pub open spec fn fits_schema(json: Json, schema: Json) -> bool {
    match (json, schema) {
        (Json::Object(ms), Json::Object(ss)) => forall|i: int|
            0 <= i < ms.len() ==> lookup(ss, (#[trigger] ms[i]).0) is Some,
        _ => false,
    }
}

/// Checks a document against a schema.
#[verifier::loop_isolation(false)]
pub fn validate_json_schema(json: &Value, schema: &Value) -> (r: Result<(), ParserError>)
    ensures
        fits_schema(json@, schema@) ==> r is Ok,
        !fits_schema(json@, schema@) ==> r == Err::<(), ParserError>(
            ParserError::SchemaValidationError,
        ),
{
    match (json, schema) {
        (Value::Object(members), Value::Object(wanted)) => {
            proof {
                lemma_object_view(*members);
                lemma_object_view(*wanted);
            }
            let ghost ms = members_view(members@);
            let ghost ss = members_view(wanted@);
            let mut k: usize = 0;
            while k < members.len()
                invariant
                    0 <= k <= members.len(),
                    forall|i: int| 0 <= i < k ==> lookup(ss, (#[trigger] ms[i]).0) is Some,
                decreases members.len() - k,
            {
                if find_key(wanted, members[k].0.as_str()).is_none() {
                    assert(lookup(ss, ms[k as int].0) is None);
                    return Err(ParserError::SchemaValidationError);
                }
                k += 1;
            }
            Ok(())
        },
        _ => Err(ParserError::SchemaValidationError),
    }
}

/// The member of `json` under `key`, where `json` is an object that has one.
pub fn parse_partial_json(json: &Value, key: &str) -> (r: Option<Value>)
    ensures
        match json@.member(key@) {
            Some(j) => r matches Some(v) && v@ == j,
            None => r is None,
        },
{
    match json.get(key) {
        Some(v) => Some(v.clone()),
        None => None,
    }
}

/// Sets the member of `json` under `key` to `new_value`. A key that is there
/// keeps its place; a new one goes to the end. Only an object can be edited:
/// any other value stays as it is.
pub fn edit_json(json: &mut Value, key: &str, new_value: Value) -> (r: Result<(), EditError>)
    ensures
        match old(json)@ {
            Json::Object(ms) => r is Ok && final(json)@ == Json::Object(
                insert(ms, key@, new_value@),
            ),
            _ => r == Err::<(), EditError>(EditError::NotAnObject) && final(json)@ == old(json)@,
        },
        old(json)@.wf() && new_value@.wf() ==> final(json)@.wf(),
{
    match json {
        Value::Object(members) => {
            proof {
                lemma_object_view(*members);
                if Json::Object(members_view(members@)).wf() && new_value@.wf() {
                    lemma_insert_wf(members_view(members@), key@, new_value@);
                }
            }
            insert_member(members, key.to_owned(), new_value);
            proof {
                lemma_object_view(*members);
            }
            Ok(())
        },
        _ => Err(EditError::NotAnObject),
    }
}

} // verus!
