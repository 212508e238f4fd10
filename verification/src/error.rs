//! The errors of the library.

use crate::engine::ParseFailure;
use vstd::prelude::*;
use vstd::string::StringExecFns;

verus! {

/// Why parsing or validating a document failed.
#[derive(Debug, PartialEq, Eq)]
pub enum ParserError {
    /// The document could not be read; the text says why.
    FileReadError(String),
    /// The text is no document of the grammar, or holds a token that no value
    /// can stand for.
    JsonParseError,
    /// The document does not fit the schema.
    SchemaValidationError,
}

impl ParserError {
    /// The error in words.
    pub open spec fn message_text(self) -> Seq<char> {
        match self {
            ParserError::FileReadError(why) => "File read error: "@ + why@,
            ParserError::JsonParseError => "JSON parse error"@,
            ParserError::SchemaValidationError => "Schema validation failed"@,
        }
    }

    /// The error in words.
    pub fn message(&self) -> (m: String)
        ensures
            m@ == self.message_text(),
    {
        match self {
            ParserError::FileReadError(why) => {
                let mut m = String::from_str("File read error: ");
                m.append(why.as_str());
                m
            },
            ParserError::JsonParseError => String::from_str("JSON parse error"),
            ParserError::SchemaValidationError => String::from_str("Schema validation failed"),
        }
    }
}

/// Why a text is no document, told apart by the stage that refused it.
#[derive(Debug, PartialEq, Eq)]
pub enum ParseError {
    /// The text does not match the grammar: where matching stopped, and the
    /// rules that were open there.
    GrammarMismatch(ParseFailure),
    /// The match left nothing to build a value from.
    EmptyOrNoMatch,
    /// The text matches the grammar, but one of its tokens stands for no
    /// value.
    ContainerBuildFailure,
}

/// Why a document could not be edited.
#[derive(Debug, PartialEq, Eq)]
pub enum EditError {
    /// Only an object has keys to set.
    NotAnObject,
}

impl EditError {
    /// The error in words.
    pub fn message(&self) -> (m: String)
        ensures
            m@ == "Invalid JSON structure for editing"@,
    {
        String::from_str("Invalid JSON structure for editing")
    }
}

} // verus!
