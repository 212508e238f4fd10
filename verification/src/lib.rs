//! A parser for JSON documents, with the operations on a parsed document:
//! lookup by path, search by value, the compact text, an XML rendering and a
//! listing of the structure.
//!
//! `grammar` states what the rules match, `engine` matches them and `builder`
//! turns the tree of a match into a `value::Value`. Each function is verified
//! against a model of the text as a sequence of characters and of the
//! document as a `value::Json`.

pub mod builder;
pub mod conformance;
pub mod emit;
pub mod engine;
pub mod error;
pub mod grammar;
pub mod parser;
pub mod path;
pub mod roundtrip;
pub mod scanner;
pub mod search;
pub mod text;
pub mod value;

pub use parser::{
    edit_json, parse_document, parse_json, parse_partial_json, validate_json_schema, ParseError,
    ParserError,
};
