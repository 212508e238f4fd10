use json_parser_with_pest::builder::{parse_number, parse_string, parse_value};
use json_parser_with_pest::engine::{JSONParser, ParseFailure, TokenSpan};
use json_parser_with_pest::grammar::Rule;
use json_parser_with_pest::value::{Number, Value};
use json_parser_with_pest::{parse_document, parse_json, ParseError, ParserError};

fn number(text: &str) -> Value {
    Value::Number(Number::parse(text).unwrap())
}

fn string(text: &str) -> Value {
    Value::String(text.to_string())
}

fn object(members: Vec<(&str, Value)>) -> Value {
    Value::Object(members.into_iter().map(|(k, v)| (k.to_string(), v)).collect())
}

fn failure(rule: Rule, input: &str) -> ParseFailure {
    JSONParser::parse(rule, input).unwrap_err()
}

fn rules_of(tree: &TokenSpan) -> Vec<Rule> {
    tree.children.iter().map(|c| c.as_rule()).collect()
}

/// Tests basic JSON parsing functionality.
#[test]
fn tests_test_parse_simple_json() {
    let json_data = r#"{ "name": "John", "age": 30, "city": "New York" }"#;
    let result = parse_json(json_data).expect("Failed to parse valid JSON");
    assert!(result.is_object(), "Expected parsed JSON to be an object.");
}

/// Tests basic JSON parsing functionality.
#[test]
fn test_parse_simple_json() {
    let json_data = r#"{ "name": "John", "age": 30, "city": "New York" }"#;
    let result = parse_json(json_data);
    assert!(result.is_ok(), "Failed to parse valid JSON: {:?}", result.err());
}

/// Tests invalid JSON input parsing.
#[test]
fn tests_test_invalid_json_parse() {
    let invalid_json_data = "{ name: John, age: 30 }";
    let result = parse_json(invalid_json_data);
    assert!(
        result.is_err(),
        "Expected failure for invalid JSON input, but parsing succeeded."
    );
}

/// Tests handling of invalid JSON input.
#[test]
fn test_invalid_json_parse() {
    let invalid_json_data = "{ name: John, age: 30 }";
    let result = parse_json(invalid_json_data);
    assert!(
        result.is_err(),
        "Expected failure for invalid JSON input, but parsing succeeded."
    );
    if let Err(err) = result {
        assert!(
            matches!(err, ParserError::JsonParseError),
            "Expected JsonParseError, but got: {:?}",
            err
        );
    }
}

/// Tests recursive JSON object parsing.
#[test]
fn tests_test_recursive_object_parsing() {
    let input = r#"
            {
                "key1": {
                    "nested_key": {
                        "deep_nested_key": "value"
                    }
                }
            }
        "#;
    JSONParser::parse(Rule::json, input).expect("Failed to parse nested JSON object");
}

/// Test recursive JSON object parsing.
#[test]
fn test_recursive_object_parsing() {
    let input = r#"
        {
            "key1": {
                "nested_key": {
                    "deep_nested_key": "value"
                }
            }
        }
        "#;
    let result = JSONParser::parse(Rule::json, input);
    assert!(
        result.is_ok(),
        "Failed to parse nested JSON object. Error: {:?}",
        result.err()
    );
}

/// Tests edge cases for empty objects and arrays.
#[test]
fn tests_test_empty_structures() {
    let valid_inputs = vec!["{}", "[]"];
    for input in valid_inputs {
        assert!(
            JSONParser::parse(Rule::json, input).is_ok(),
            "Failed to parse empty structure: {}",
            input
        );
    }
}

/// Test edge cases for empty objects and arrays.
#[test]
fn test_empty_structures() {
    let valid_inputs = vec!["{}", "[]"];
    for input in valid_inputs {
        let result = JSONParser::parse(Rule::json, input);
        assert!(
            result.is_ok(),
            "Failed to parse empty structure: {}. Error: {:?}",
            input,
            result.err()
        );
    }
}

/// Tests parsing invalid key-value arrays.
#[test]
fn test_key_value_array_invalid() {
    let inputs = vec![
        r#"
            [
                { "key1": "value1" },
                { "key2" "value2" }  // Missing colon
            ]
            "#,
        r#"
            [
                { "key1": "value1" },
                "not_an_object"
            ]
            "#,
        r#"
            [
                { "key1": "value1", "key2": "value2" }
            "#, // Missing closing bracket
    ];

    for input in inputs {
        let result = JSONParser::parse(Rule::key_value_array, input);
        assert!(
            result.is_err(),
            "Expected failure for invalid key-value array: {}. Result: {:?}",
            input,
            result
        );
    }
}

/// Test parsing of JSON date in format YYYY-MM-DD.
#[test]
fn test_date_parsing() {
    let valid_dates = vec!["2023-11-15", "2000-01-01", "1999-12-31"];
    for date in valid_dates {
        let result = JSONParser::parse(Rule::date, date);
        assert!(
            result.is_ok(),
            "Failed to parse valid date: {}. Error: {:?}",
            date,
            result.err()
        );
    }

    let invalid_dates = vec!["2023-13-01", "202-11-15", "2023-11", "abcd-11-15"];
    for date in invalid_dates {
        let result = JSONParser::parse(Rule::date, date);
        assert!(
            result.is_err(),
            "Parsed invalid date: {}. Result: {:?}",
            date,
            result
        );
    }
}

/// Test parsing of JSON identifier.
#[test]
fn test_identifier_parsing() {
    let valid_identifiers = vec!["key", "key1", "_key", "key_name", "Key123"];
    for identifier in valid_identifiers {
        let result = JSONParser::parse(Rule::identifier, identifier);
        assert!(
            result.is_ok(),
            "Failed to parse valid identifier: {}. Error: {:?}",
            identifier,
            result.err()
        );
    }

    let invalid_identifiers = vec!["1key", "-key", "key@", "key name"];
    for identifier in invalid_identifiers {
        let result = JSONParser::parse(Rule::identifier, identifier);
        assert!(
            result.is_err(),
            "Parsed invalid identifier: {}. Result: {:?}",
            identifier,
            result
        );
    }
}

/// Test parsing of SemVer version strings.
#[test]
fn test_version_parsing() {
    let valid_versions = vec![
        "1.0.0",
        "2.1.3-alpha",
        "3.2.1-beta.1",
        "4.5.6+build.123",
        "0.1.0",
        "10.20.30-pre.4+metadata.12345",
    ];
    for version in valid_versions {
        let result = JSONParser::parse(Rule::version, version);
        assert!(
            result.is_ok(),
            "Failed to parse valid version: {}. Error: {:?}",
            version,
            result.err()
        );
    }

    let invalid_versions = vec![
        "1.0",
        "v1.0.0",
        "1.0.0-",
        "1.0.0+",
        "1.0.0-beta..1",
        "1.0.0-alpha+build@123",
    ];
    for version in invalid_versions {
        let result = JSONParser::parse(Rule::version, version);
        assert!(
            result.is_err(),
            "Parsed invalid version: {}. Result: {:?}",
            version,
            result
        );
    }
}

/// Test parsing of key-value arrays.
#[test]
fn test_key_value_array_parsing() {
    let valid_arrays = vec![
        r#"[{ "key1": "value1" }, { "key2": "value2" }]"#,
        r#"[{ "key": "value" }]"#,
        r#"[]"#,
    ];
    for array in valid_arrays {
        let result = JSONParser::parse(Rule::key_value_array, array);
        assert!(
            result.is_ok(),
            "Failed to parse valid key-value array: {}. Error: {:?}",
            array,
            result.err()
        );
    }

    let invalid_arrays = vec![
        r#"[{ "key1": "value1" }, { "key2" "value2" }]"#, // Missing colon
        r#"[{ "key": "value" }, "string"]"#,              // Non-object element
        r#"[{ "key": "value""#,                           // Missing closing bracket
    ];
    for array in invalid_arrays {
        let result = JSONParser::parse(Rule::key_value_array, array);
        assert!(
            result.is_err(),
            "Parsed invalid key-value array: {}. Result: {:?}",
            array,
            result
        );
    }
}

/// Test parsing of JSON arrays with mixed types.
#[test]
fn test_mixed_type_array_parsing() {
    let input = r#"[123, "string", true, null, { "key": "value" }, [1, 2, 3]]"#;
    let result = JSONParser::parse(Rule::json, input);
    assert!(
        result.is_ok(),
        "Failed to parse mixed-type array. Error: {:?}",
        result.err()
    );
}

#[test]
fn parse_builds_the_value_tree() {
    let parsed = parse_json(r#" { "name" : "John", "tags": [1, -2.50, true, false, null, {}, []] } "#)
        .unwrap();
    let expected = object(vec![
        ("name", string("John")),
        (
            "tags",
            Value::Array(vec![
                number("1"),
                number("-2.50"),
                Value::Bool(true),
                Value::Bool(false),
                Value::Null,
                Value::Object(vec![]),
                Value::Array(vec![]),
            ]),
        ),
    ]);
    assert_eq!(parsed, expected);
}

#[test]
fn parse_takes_whitespace_between_tokens() {
    let parsed = parse_json("\n\t[ 1 ,\r\n 2 ]\n").unwrap();
    assert_eq!(parsed, Value::Array(vec![number("1"), number("2")]));
}

#[test]
fn top_level_must_be_object_or_array() {
    for input in ["\"text\"", "12", "true", "null", "", "   "] {
        assert_eq!(parse_json(input), Err(ParserError::JsonParseError), "{}", input);
    }
}

#[test]
fn trailing_input_is_rejected() {
    for input in ["{} x", "[1] [2]", "[1],", "{}}"] {
        assert_eq!(parse_json(input), Err(ParserError::JsonParseError), "{}", input);
    }
}

#[test]
fn broken_documents_are_rejected() {
    for input in [
        "{",
        "[",
        "[1,]",
        "[1 2]",
        "{\"a\" 1}",
        "{\"a\":}",
        "{\"a\":1,}",
        "{,}",
        "[01]",
        "[1.]",
        "[.5]",
        "[1e]",
        "[+1]",
        "[-]",
        "[tru]",
        "[nul]",
        "[\"open]",
        "[\"bad \\x escape\"]",
        "[\"\\u12\"]",
        "['single']",
    ] {
        assert_eq!(parse_json(input), Err(ParserError::JsonParseError), "{}", input);
    }
}

#[test]
fn a_later_member_replaces_the_value_and_keeps_the_place() {
    let parsed = parse_json(r#"{"a": 1, "b": 2, "a": 3}"#).unwrap();
    assert_eq!(parsed, object(vec![("a", number("3")), ("b", number("2"))]));
}

#[test]
fn unicode_escape_decodes_to_one_character() {
    let parsed = parse_json("[\"\\u00e9\"]").unwrap();
    assert_eq!(parsed, Value::Array(vec![string("\u{e9}")]));
    let parsed = parse_json("[\"\\u00E9\\u0041\"]").unwrap();
    assert_eq!(parsed, Value::Array(vec![string("\u{e9}A")]));
}

#[test]
fn surrogate_escape_is_rejected() {
    assert_eq!(parse_json("[\"\\ud800\"]"), Err(ParserError::JsonParseError));
    assert_eq!(parse_json("[\"\\udfff\"]"), Err(ParserError::JsonParseError));
    assert_eq!(parse_json("[\"\\ud83d\\ude00\"]"), Err(ParserError::JsonParseError));
    assert!(JSONParser::parse(Rule::json, "[\"\\ud800\"]").is_ok());
    assert_eq!(parse_json("[\"\\ud7ff\\ue000\"]").unwrap(), Value::Array(vec![string("\u{d7ff}\u{e000}")]));
}

#[test]
fn escapes_decode() {
    let parsed = parse_json(r#"["\"\\\/\b\f\n\r\t"]"#).unwrap();
    assert_eq!(parsed, Value::Array(vec![string("\"\\/\u{8}\u{c}\n\r\t")]));
}

#[test]
fn raw_characters_pass_through() {
    let parsed = parse_json("[\"tab\there \u{1F600} \u{e9}\"]").unwrap();
    assert_eq!(parsed, Value::Array(vec![string("tab\there \u{1F600} \u{e9}")]));
}

#[test]
fn numbers_keep_their_digits() {
    for (literal, text) in [
        ("0", "0"),
        ("-0", "-0"),
        ("30", "30"),
        ("-12", "-12"),
        ("1.50", "1.50"),
        ("123456789012345678901234567890", "123456789012345678901234567890"),
        ("0.1000000000000000000000000000001", "0.1000000000000000000000000000001"),
        ("1e5", "1e+5"),
        ("1E5", "1e+5"),
        ("1e+5", "1e+5"),
        ("1E-5", "1e-5"),
        ("-2.5E+10", "-2.5e+10"),
        ("1e400", "1e+400"),
        ("0e0", "0e+0"),
        ("0E-0", "0e-0"),
        ("-0.0e+00", "-0.0e+00"),
        ("18446744073709551615", "18446744073709551615"),
        ("18446744073709551616", "18446744073709551616"),
        ("-9223372036854775808", "-9223372036854775808"),
        ("-9223372036854775809", "-9223372036854775809"),
        ("1.0E0001", "1.0e+0001"),
    ] {
        let n = Number::parse(literal).unwrap();
        assert_eq!(n.as_str(), text, "{}", literal);
        let again = Number::parse(n.as_str()).unwrap();
        assert_eq!(again.as_str(), text, "{}", literal);
    }
}

#[test]
fn what_is_no_number_literal_is_rejected() {
    for literal in [
        "", "-", "+1", "01", "-01", "1.", ".5", "1e", "1e+", "1.5e", "1 ", " 1", "1,", "0x10", "1_000",
        "NaN", "Infinity", "1.2.3", "1ee5", "--1", "\u{661}", "1e1.5", "0e", "-0e", "1e-", "1.e1",
        "-.5", "1e+-1", "0.", "00", "-00", "1\n", "\u{ff11}",
    ] {
        assert_eq!(Number::parse(literal).err(), Some(ParserError::JsonParseError), "{}", literal);
    }
}

#[test]
fn failure_tells_position_and_open_rules() {
    let f = failure(Rule::json, "{ name: John }");
    assert_eq!(f.position, 2);
    assert_eq!(f.rules, vec![Rule::string, Rule::pair, Rule::object, Rule::json]);

    let f = failure(Rule::json, "[1, tru]");
    assert_eq!(f.position, 4);
    assert_eq!(f.rules, vec![Rule::boolean, Rule::array, Rule::json]);

    let f = failure(Rule::json, "{} x");
    assert_eq!(f.position, 3);
    assert_eq!(f.rules, vec![Rule::json]);

    let f = failure(Rule::json, "[\"a\\q\"]");
    assert_eq!(f.position, 3);
    assert_eq!(f.rules, vec![Rule::escape_sequence, Rule::string, Rule::array, Rule::json]);

    let f = failure(Rule::json, "{\"a\" 1}");
    assert_eq!(f.position, 5);
    assert_eq!(f.rules, vec![Rule::pair, Rule::object, Rule::json]);

    let f = failure(Rule::json, "[1 2]");
    assert_eq!(f.position, 3);
    assert_eq!(f.rules, vec![Rule::array, Rule::json]);

    let f = failure(Rule::json, "");
    assert_eq!(f.position, 0);
    assert_eq!(f.rules, vec![Rule::json]);

    let f = failure(Rule::date, "2023-13-01");
    assert_eq!(f.position, 5);
    assert_eq!(f.rules, vec![Rule::date]);

    let f = failure(Rule::date, "2023-11");
    assert_eq!(f.position, 7);

    let f = failure(Rule::version, "1.0.0-");
    assert_eq!(f.position, 5);
    assert_eq!(f.rules, vec![Rule::version]);

    let f = failure(Rule::version, "1.0.0-beta..1");
    assert_eq!(f.position, 10);

    let f = failure(Rule::identifier, "key@");
    assert_eq!(f.position, 3);
}

#[test]
fn tree_holds_rule_text_and_children() {
    let tree = JSONParser::parse(Rule::json, " {\"k\" : [true, \"a\\nb\"]} ").unwrap();
    assert_eq!(tree.as_rule(), Rule::json);
    assert_eq!(tree.as_str(), "{\"k\" : [true, \"a\\nb\"]}");
    assert_eq!(rules_of(&tree), vec![Rule::object]);
    let object = &tree.children[0];
    assert_eq!(rules_of(object), vec![Rule::pair]);
    let pair = &object.children[0];
    assert_eq!(pair.as_str(), "\"k\" : [true, \"a\\nb\"]");
    assert_eq!(rules_of(pair), vec![Rule::string, Rule::array]);
    assert_eq!(pair.children[0].as_str(), "\"k\"");
    assert_eq!(rules_of(&pair.children[0]), vec![Rule::character]);
    let array = &pair.children[1];
    assert_eq!(rules_of(array), vec![Rule::boolean, Rule::string]);
    assert_eq!(array.children[0].as_str(), "true");
    let text = &array.children[1];
    assert_eq!(
        rules_of(text),
        vec![Rule::character, Rule::escape_sequence, Rule::character]
    );
    assert_eq!(text.children[1].as_str(), "\\n");
    let inner = JSONParser::parse(Rule::json, "[]").unwrap().into_inner();
    assert_eq!(inner.len(), 1);
    assert_eq!(inner[0].as_rule(), Rule::array);
}

#[test]
fn each_rule_matches_the_whole_input_only() {
    assert!(JSONParser::parse(Rule::object, "{\"a\":1}").is_ok());
    assert!(JSONParser::parse(Rule::object, " {\"a\":1}").is_err());
    assert!(JSONParser::parse(Rule::object, "{\"a\":1} ").is_err());
    assert!(JSONParser::parse(Rule::array, "[ ]").is_ok());
    assert!(JSONParser::parse(Rule::pair, "\"a\" : null").is_ok());
    assert!(JSONParser::parse(Rule::string, "\"a\"").is_ok());
    assert!(JSONParser::parse(Rule::string, "\"a\"b").is_err());
    assert!(JSONParser::parse(Rule::character, "a").is_ok());
    assert!(JSONParser::parse(Rule::character, "\"").is_err());
    assert!(JSONParser::parse(Rule::character, "ab").is_err());
    assert!(JSONParser::parse(Rule::escape_sequence, "\\u00e9").is_ok());
    assert!(JSONParser::parse(Rule::escape_sequence, "\\u00g9").is_err());
    assert!(JSONParser::parse(Rule::escape_sequence, "\\/").is_ok());
    assert!(JSONParser::parse(Rule::number, "-1.5e-3").is_ok());
    assert!(JSONParser::parse(Rule::number, "1.").is_err());
    assert!(JSONParser::parse(Rule::boolean, "true").is_ok());
    assert!(JSONParser::parse(Rule::boolean, "false").is_ok());
    assert!(JSONParser::parse(Rule::boolean, "truefalse").is_err());
    assert!(JSONParser::parse(Rule::null, "null").is_ok());
    assert!(JSONParser::parse(Rule::null, "nul").is_err());
    assert!(JSONParser::parse(Rule::key_value_array, " []").is_err());
    assert!(JSONParser::parse(Rule::json, " [] ").is_ok());
}

#[test]
fn dates_are_checked_by_range_only() {
    assert!(JSONParser::parse(Rule::date, "2023-02-30").is_ok());
    assert!(JSONParser::parse(Rule::date, "0000-01-31").is_ok());
    for date in ["2023-00-10", "2023-01-00", "2023-01-32", "2023-1-01", "2023-01-1", "2023/01/01", "2023-01-011", "12023-01-01"] {
        assert!(JSONParser::parse(Rule::date, date).is_err(), "{}", date);
    }
}

#[test]
fn versions_follow_the_numeral_rules() {
    for version in ["0.0.0", "1.2.3-0", "1.0.0-a.b.c+d.e", "1.0.0+001"] {
        assert!(JSONParser::parse(Rule::version, version).is_ok(), "{}", version);
    }
    for version in ["01.0.0", "1.00.0", "1.0.01", "1.0.0.0", "1.0.0-a-b", "1.0.0+a+b", "1.0.0-+b", ".1.0", "1..0"] {
        assert!(JSONParser::parse(Rule::version, version).is_err(), "{}", version);
    }
}

#[test]
fn identifiers_are_ascii_words() {
    for identifier in ["_", "a", "A_1", "__init__"] {
        assert!(JSONParser::parse(Rule::identifier, identifier).is_ok(), "{}", identifier);
    }
    for identifier in ["", "9", "a-b", "a.b", "\u{e9}t\u{e9}", " a"] {
        assert!(JSONParser::parse(Rule::identifier, identifier).is_err(), "{}", identifier);
    }
}

#[test]
fn parser_error_messages() {
    assert_eq!(ParserError::JsonParseError.message(), "JSON parse error");
    assert_eq!(ParserError::SchemaValidationError.message(), "Schema validation failed");
    assert_eq!(
        ParserError::FileReadError("no such file".to_string()).message(),
        "File read error: no such file"
    );
}

#[test]
fn the_rule_value_matches_each_kind_of_value() {
    for (input, rule) in [
        ("{}", Rule::object),
        ("[1]", Rule::array),
        ("\"s\"", Rule::string),
        ("-1.5", Rule::number),
        ("true", Rule::boolean),
        ("null", Rule::null),
    ] {
        assert_eq!(JSONParser::parse(Rule::value, input).unwrap().as_rule(), rule, "{}", input);
    }
    let f = failure(Rule::value, "nope");
    assert_eq!((f.position, f.rules), (0, vec![Rule::null]));
    let f = failure(Rule::value, "?");
    assert_eq!((f.position, f.rules), (0, vec![]));
    let f = failure(Rule::value, "1 ");
    assert_eq!((f.position, f.rules), (1, vec![Rule::value]));
}

fn is_literal_by_the_grammar(text: &str) -> bool {
    let chars: Vec<char> = text.chars().collect();
    json_parser_with_pest::scanner::number_end(&chars, 0) == Ok(chars.len())
}

fn canonical_by_hand(text: &str) -> String {
    match text.find(|c| c == 'e' || c == 'E') {
        None => text.to_string(),
        Some(at) => {
            let rest = &text[at + 1..];
            let sign = if rest.starts_with('+') || rest.starts_with('-') { "" } else { "+" };
            format!("{}e{}{}", &text[..at], sign, rest)
        }
    }
}

#[test]
fn number_parsing_agrees_with_the_grammar_on_all_short_texts() {
    let alphabet = ['0', '1', '-', '+', '.', 'e', 'E', ' '];
    let mut texts: Vec<String> = vec![String::new()];
    let mut checked = 0;
    let mut accepted = 0;
    for _ in 0..5 {
        let mut longer = Vec::with_capacity(texts.len() * alphabet.len());
        for text in &texts {
            for c in alphabet {
                let mut t = text.clone();
                t.push(c);
                longer.push(t);
            }
        }
        for text in &longer {
            let parsed = Number::parse(text);
            assert_eq!(parsed.is_ok(), is_literal_by_the_grammar(text), "{:?}", text);
            if let Ok(n) = parsed {
                assert_eq!(n.as_str(), canonical_by_hand(text), "{:?}", text);
                accepted += 1;
            }
            checked += 1;
        }
        texts = longer;
    }
    assert_eq!(checked, 8 + 64 + 512 + 4096 + 32768);
    assert!(accepted > 300);
}

#[test]
fn parse_document_tells_the_refusals_apart() {
    assert_eq!(parse_document(" [1, \"a\"] "), Ok(Value::Array(vec![number("1"), string("a")])));
    assert_eq!(
        parse_document("{ name: John }"),
        Err(ParseError::GrammarMismatch(ParseFailure {
            position: 2,
            rules: vec![Rule::string, Rule::pair, Rule::object, Rule::json],
        }))
    );
    assert_eq!(
        parse_document(""),
        Err(ParseError::GrammarMismatch(ParseFailure { position: 0, rules: vec![Rule::json] }))
    );
    assert_eq!(parse_document("[\"\\udc00\"]"), Err(ParseError::ContainerBuildFailure));
    assert_eq!(parse_document("{\"k\": [\"\\ud800\"]}"), Err(ParseError::ContainerBuildFailure));
    for text in ["", " ", "[", "{}{}", "[\"\\ud800\"]", "nonsense"] {
        assert_ne!(parse_document(text), Err(ParseError::EmptyOrNoMatch), "{:?}", text);
        assert_eq!(parse_document(text).is_ok(), parse_json(text).is_ok(), "{:?}", text);
    }
}

#[test]
fn builder_refuses_trees_that_the_grammar_would_not_give() {
    let span = |rule: Rule, text: &str, children: Vec<TokenSpan>| TokenSpan {
        rule,
        text: text.to_string(),
        children,
    };
    assert_eq!(parse_value(&span(Rule::json, "", vec![])), Err(ParserError::JsonParseError));
    assert_eq!(parse_value(&span(Rule::boolean, "yes", vec![])), Err(ParserError::JsonParseError));
    assert_eq!(parse_value(&span(Rule::boolean, "true", vec![])), Ok(Value::Bool(true)));
    assert_eq!(parse_value(&span(Rule::boolean, "false", vec![])), Ok(Value::Bool(false)));
    assert_eq!(parse_value(&span(Rule::null, "anything", vec![])), Ok(Value::Null));
    for rule in [Rule::pair, Rule::value, Rule::character, Rule::escape_sequence, Rule::date,
        Rule::identifier, Rule::version, Rule::key_value_array]
    {
        assert_eq!(parse_value(&span(rule, "1", vec![])), Err(ParserError::JsonParseError));
    }
    assert_eq!(parse_number(&span(Rule::number, "1.", vec![])).err(), Some(ParserError::JsonParseError));
    assert_eq!(parse_number(&span(Rule::number, "1E2", vec![])).unwrap().as_str(), "1e+2");
    let pair_without_value = span(Rule::pair, "", vec![span(Rule::string, "\"k\"", vec![])]);
    assert_eq!(
        parse_value(&span(Rule::object, "", vec![pair_without_value])),
        Err(ParserError::JsonParseError)
    );
    let stray = span(Rule::number, "1", vec![]);
    assert_eq!(parse_value(&span(Rule::object, "", vec![stray])), Ok(Value::Object(vec![])));
    let text = span(
        Rule::string,
        "",
        vec![
            span(Rule::character, "run of text", vec![]),
            span(Rule::number, "ignored", vec![]),
            span(Rule::escape_sequence, "\\u0041", vec![]),
        ],
    );
    assert_eq!(parse_string(&text), Ok("run of textA".to_string()));
    for escape in ["\\u41", "\\u00411", "\\x41", "\\", "u0041", "\\U0041", "\\u+041", "\\ud800"] {
        let bad = span(Rule::string, "", vec![span(Rule::escape_sequence, escape, vec![])]);
        assert_eq!(parse_string(&bad), Err(ParserError::JsonParseError), "{}", escape);
    }
}
