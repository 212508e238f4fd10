use json_parser_with_pest::error::EditError;
use json_parser_with_pest::parser::{
    convert_json_to_xml, display_structure, get_by_path, minify_json, search_by_value,
};
use json_parser_with_pest::value::{Number, Value};
use json_parser_with_pest::{
    edit_json, parse_json, parse_partial_json, validate_json_schema, ParserError,
};

fn number(text: &str) -> Value {
    Value::Number(Number::parse(text).unwrap())
}

fn string(text: &str) -> Value {
    Value::String(text.to_string())
}

fn object(members: Vec<(&str, Value)>) -> Value {
    Value::Object(members.into_iter().map(|(k, v)| (k.to_string(), v)).collect())
}

fn john() -> Value {
    object(vec![("name", string("John")), ("age", number("30"))])
}

fn john_in_new_york() -> Value {
    object(vec![
        ("name", string("John")),
        ("age", number("30")),
        ("city", string("New York")),
    ])
}

fn items() -> Value {
    object(vec![(
        "data",
        object(vec![(
            "items",
            Value::Array(vec![
                object(vec![("name", string("Item1"))]),
                object(vec![("name", string("Item2"))]),
            ]),
        )]),
    )])
}

fn john_with_details() -> Value {
    object(vec![
        ("name", string("John")),
        (
            "details",
            object(vec![
                ("age", number("30")),
                ("location", string("New York")),
                ("nickname", string("John")),
            ]),
        ),
    ])
}

fn serde_john_in_new_york() -> serde_json::Value {
    let mut map = serde_json::Map::new();
    map.insert("name".to_string(), serde_json::Value::String("John".to_string()));
    map.insert("age".to_string(), serde_json::Value::Number(serde_json::Number::from(30)));
    map.insert("city".to_string(), serde_json::Value::String("New York".to_string()));
    serde_json::Value::Object(map)
}

/// Tests JSON schema validation functionality.
#[test]
fn tests_test_validate_json_schema() {
    let json_data = john();
    let schema = object(vec![("name", string("")), ("age", number("0"))]);
    validate_json_schema(&json_data, &schema)
        .expect("Schema validation failed for valid JSON and schema");
}

/// Tests JSON schema validation functionality.
#[test]
fn test_validate_json_schema() {
    let json_data = john();
    let schema = object(vec![("name", string("")), ("age", number("0"))]);
    let result = validate_json_schema(&json_data, &schema);
    assert!(
        result.is_ok(),
        "Schema validation failed for valid JSON and schema."
    );
}

/// A schema may hold keys that the document lacks.
#[test]
fn test_invalid_json_schema() {
    let json_data = john();
    let schema = object(vec![
        ("name", string("")),
        ("age", number("0")),
        ("extra_key", string("")),
    ]);
    let result = validate_json_schema(&json_data, &schema);
    assert!(
        result.is_ok(),
        "Expected schema validation to pass: the schema has every key of the document."
    );
}

/// Tests partial JSON parsing by a specific key.
#[test]
fn tests_test_parse_partial_json() {
    let json_data = john_in_new_york();
    let result = parse_partial_json(&json_data, "city")
        .expect("Failed to retrieve value for the key 'city'");
    assert_eq!(result, string("New York"), "Incorrect value retrieved for 'city'.");
}

/// Tests partial JSON parsing by a specific key.
#[test]
fn test_parse_partial_json() {
    let json_data = john_in_new_york();
    let result = parse_partial_json(&json_data, "city");
    assert_eq!(
        result,
        Some(string("New York")),
        "Failed to retrieve the correct value for the key 'city'."
    );
}

/// Tests editing a JSON object by modifying a specific key's value.
#[test]
fn tests_test_edit_json() {
    let mut json_data = john();
    edit_json(&mut json_data, "age", number("35")).expect("Failed to edit JSON key 'age'");
    assert_eq!(
        json_data.get("age"),
        Some(&number("35")),
        "Value of key 'age' did not update correctly."
    );
}

/// Tests editing a JSON object by modifying a specific key's value.
#[test]
fn test_edit_json() {
    let mut json_data = john();
    let result = edit_json(&mut json_data, "age", number("35"));
    assert!(result.is_ok(), "Failed to edit JSON key 'age'.");
    assert_eq!(
        json_data.get("age"),
        Some(&number("35")),
        "Value of key 'age' did not update correctly."
    );
}

/// Tests conversion of JSON to XML format.
#[test]
fn tests_test_convert_to_xml() {
    let json_data = john();
    let result = convert_json_to_xml(&json_data);
    assert!(
        result.contains("<name>John</name>"),
        "XML conversion did not contain expected data."
    );
}

/// Tests conversion of JSON to XML format.
#[test]
fn test_convert_to_xml() {
    let json_data = john();
    let result = convert_json_to_xml(&json_data);
    assert!(
        result.contains("<name>John</name>"),
        "XML conversion did not contain expected data."
    );
}

/// Tests minifying JSON by removing whitespace.
#[test]
fn tests_test_minify_json() {
    let json_data = john_in_new_york();
    let minified = minify_json(&json_data);
    let parsed_minified: serde_json::Value =
        serde_json::from_str(&minified).expect("Failed to parse minified JSON");
    assert_eq!(
        parsed_minified,
        serde_john_in_new_york(),
        "Minified JSON does not match the original structure."
    );
}

/// Tests minifying JSON by removing whitespace.
#[test]
fn test_minify_json() {
    let json_data = john_in_new_york();
    let minified = minify_json(&json_data);
    let parsed_minified: serde_json::Value = serde_json::from_str(&minified).unwrap();
    assert_eq!(
        parsed_minified,
        serde_john_in_new_york(),
        "Minified JSON does not match the original structure."
    );
    assert_eq!(parse_json(&minified), Ok(json_data));
}

/// Tests retrieving a value by JSON path.
#[test]
fn tests_test_get_by_path() {
    let json_data = items();
    let result = get_by_path(&json_data, "data.items[1].name")
        .expect("Failed to retrieve value by JSON path");
    assert_eq!(result, string("Item2"), "Incorrect value retrieved by JSON path.");
}

/// Tests retrieving a value by JSON path.
#[test]
fn test_get_by_path() {
    let json_data = items();
    let result = get_by_path(&json_data, "data.items[1].name");
    assert_eq!(
        result,
        Some(string("Item2")),
        "Failed to retrieve value by JSON path."
    );
}

/// Tests searching JSON by a specific value, retrieving paths where the value is found.
#[test]
fn tests_test_search_by_value() {
    let json_data = john_with_details();
    let mut results = search_by_value(&json_data, "John");
    results.sort();
    assert_eq!(
        results,
        vec!["details.nickname", "name"],
        "Failed to find correct paths for value 'John'."
    );
}

/// Tests searching JSON by a specific value, retrieving paths where the value is found.
#[test]
fn test_search_by_value() {
    let json_data = john_with_details();
    let mut results = search_by_value(&json_data, "John");
    results.sort();
    assert_eq!(
        results,
        vec!["details.nickname", "name"],
        "Failed to find correct paths for value 'John'."
    );
}

#[test]
fn search_walks_depth_first_in_stored_order() {
    let tree = parse_json(
        r#"{"b": "x", "a": ["x", {"k": "x", "n": 1}, ["y", "x"]], "c": {"d": {"e": "x"}}, "x": "z"}"#,
    )
    .unwrap();
    assert_eq!(
        search_by_value(&tree, "x"),
        vec!["b", "a[0]", "a[1].k", "a[2][1]", "c.d.e"]
    );
    assert_eq!(search_by_value(&tree, "absent"), Vec::<String>::new());
    assert_eq!(search_by_value(&tree, "1"), Vec::<String>::new());
}

#[test]
fn search_at_the_root_and_in_a_root_array() {
    assert_eq!(search_by_value(&string("x"), "x"), vec![""]);
    assert_eq!(search_by_value(&string("x"), "y"), Vec::<String>::new());
    let tree = Value::Array(vec![string("x"), object(vec![("k", string("x"))])]);
    assert_eq!(search_by_value(&tree, "x"), vec!["[0]", "[1].k"]);
    let many = Value::Array((0..12).map(|_| string("x")).collect());
    assert_eq!(search_by_value(&many, "x")[10..], ["[10]".to_string(), "[11]".to_string()]);
}

#[test]
fn search_paths_lose_leading_dots_only() {
    let tree = object(vec![(".k", string("x")), ("a", object(vec![(".k", string("x"))]))]);
    assert_eq!(search_by_value(&tree, "x"), vec!["k", "a..k"]);
}

#[test]
fn get_by_path_misses() {
    let json_data = items();
    for path in [
        "missing",
        "data.missing",
        "data.items[2].name",
        "data.items[1].missing",
        "data.items[1].name.deeper",
        "data.items.name",
        "data[0]",
        "data.items[x]",
        "data.items[]",
        "data.items[-1]",
        "data.items[1.0]",
        "data.items]1[",
        "data.items[99999999999999999999999]",
        "",
        ".",
        "data.",
        ".data",
        "data..items",
        "[0]",
    ] {
        assert_eq!(get_by_path(&json_data, path), None, "{}", path);
    }
}

#[test]
fn get_by_path_reads_segments() {
    let json_data = items();
    assert_eq!(get_by_path(&json_data, "data"), json_data.get("data").cloned());
    assert_eq!(
        get_by_path(&json_data, "data.items[0]"),
        Some(object(vec![("name", string("Item1"))]))
    );
    assert_eq!(get_by_path(&json_data, "data.items[+1].name"), Some(string("Item2")));
    assert_eq!(get_by_path(&json_data, "data.items[001].name"), Some(string("Item2")));
    assert_eq!(get_by_path(&json_data, "data.items[1]rest.name"), Some(string("Item2")));
    assert_eq!(get_by_path(&json_data, "data.items[0][1].name"), Some(string("Item1")));
    let odd = object(vec![("", Value::Array(vec![number("7")])), ("a[b", number("1"))]);
    assert_eq!(get_by_path(&odd, "[0]"), Some(number("7")));
    assert_eq!(get_by_path(&odd, ""), Some(Value::Array(vec![number("7")])));
    assert_eq!(get_by_path(&odd, "a[b"), Some(number("1")));
}

#[test]
fn partial_json_reads_objects_only() {
    assert_eq!(parse_partial_json(&john(), "name"), Some(string("John")));
    assert_eq!(parse_partial_json(&john(), "city"), None);
    assert_eq!(parse_partial_json(&Value::Array(vec![john()]), "name"), None);
    assert_eq!(parse_partial_json(&string("name"), "name"), None);
}

#[test]
fn edit_adds_at_the_end_and_replaces_in_place() {
    let mut doc = john();
    assert_eq!(edit_json(&mut doc, "city", string("Kyiv")), Ok(()));
    assert_eq!(
        doc,
        object(vec![("name", string("John")), ("age", number("30")), ("city", string("Kyiv"))])
    );
    assert_eq!(edit_json(&mut doc, "name", Value::Null), Ok(()));
    assert_eq!(
        doc,
        object(vec![("name", Value::Null), ("age", number("30")), ("city", string("Kyiv"))])
    );
}

#[test]
fn edit_refuses_what_is_no_object() {
    let mut doc = Value::Array(vec![number("1")]);
    assert_eq!(edit_json(&mut doc, "k", Value::Null), Err(EditError::NotAnObject));
    assert_eq!(doc, Value::Array(vec![number("1")]));
    assert_eq!(EditError::NotAnObject.message(), "Invalid JSON structure for editing");
}

#[test]
fn schema_check_wants_objects_and_known_keys() {
    let schema = object(vec![("name", string("")), ("age", number("0"))]);
    let more = object(vec![("name", string("John")), ("age", number("30")), ("city", string("x"))]);
    assert_eq!(validate_json_schema(&more, &schema), Err(ParserError::SchemaValidationError));
    assert_eq!(validate_json_schema(&object(vec![]), &schema), Ok(()));
    assert_eq!(validate_json_schema(&object(vec![]), &object(vec![])), Ok(()));
    assert_eq!(
        validate_json_schema(&Value::Array(vec![]), &schema),
        Err(ParserError::SchemaValidationError)
    );
    assert_eq!(
        validate_json_schema(&john(), &Value::Null),
        Err(ParserError::SchemaValidationError)
    );
}

#[test]
fn minify_writes_the_compact_document() {
    let tree = parse_json(
        " { \"a\" : [ 1 , 2.50 , 1E5 , \"x\u{e9}\\n\" ] , \"b\" : { \"c\" : null , \"d\" : true , \"e\" : false } , \"f\" : [ ] , \"g\" : { } } ",
    )
    .unwrap();
    assert_eq!(
        minify_json(&tree),
        "{\"a\":[1,2.50,1e+5,\"x\u{e9}\\n\"],\"b\":{\"c\":null,\"d\":true,\"e\":false},\"f\":[],\"g\":{}}"
    );
}

#[test]
fn minify_escapes_strings() {
    let text = "q\" b\\ s/ \u{8}\u{c}\n\r\t \u{0}\u{1}\u{1f}\u{7f} \u{e9}\u{1F600}";
    let tree = Value::Array(vec![string(text)]);
    let minified = minify_json(&tree);
    assert_eq!(
        minified,
        "[\"q\\\" b\\\\ s/ \\b\\f\\n\\r\\t \\u0000\\u0001\\u001f\u{7f} \u{e9}\u{1F600}\"]"
    );
    assert_eq!(parse_json(&minified), Ok(tree));
    let by_serde: serde_json::Value = serde_json::from_str(&minified).unwrap();
    assert_eq!(
        by_serde,
        serde_json::Value::Array(vec![serde_json::Value::String(text.to_string())])
    );
}

#[test]
fn minified_text_parses_to_the_same_document() {
    for text in [
        "{}",
        "[]",
        "[[[[]]]]",
        r#"{"a":{"b":{"c":[1,{"d":"e"}]}}}"#,
        r#" [ -0 , 0.0 , 1e-7 , 12E+3 , 99999999999999999999 ] "#,
        "[\"\\u00e9\\u0000\\\\\\\"\\/\"]",
        r#"{"k":1,"k":2,"":{"":[]}}"#,
    ] {
        let tree = parse_json(text).unwrap();
        let minified = minify_json(&tree);
        assert_eq!(parse_json(&minified), Ok(tree.clone()), "{}", text);
        assert_eq!(minify_json(&parse_json(&minified).unwrap()), minified, "{}", text);
    }
}

#[test]
fn xml_renders_each_kind() {
    let tree = object(vec![
        ("name", string("John")),
        ("age", number("30")),
        ("ok", Value::Bool(true)),
        ("no", Value::Bool(false)),
        ("none", Value::Null),
        ("tags", Value::Array(vec![string("a"), number("2"), Value::Array(vec![Value::Null])])),
        ("inner", object(vec![("k", string("<v>"))])),
        ("empty", object(vec![])),
    ]);
    assert_eq!(
        convert_json_to_xml(&tree),
        "<root>\n<name>John</name>\n<age>30</age>\n<ok>true</ok>\n<no>false</no>\n<none />\n\
         <tags>a</tags>\n<tags>2</tags>\n<tags />\n<inner>\n<k><v></k>\n</inner>\n<empty>\n</empty>\n</root>\n"
    );
    assert_eq!(convert_json_to_xml(&Value::Null), "<root />\n");
    assert_eq!(convert_json_to_xml(&Value::Array(vec![])), "");
    assert_eq!(convert_json_to_xml(&string("s")), "<root>s</root>\n");
}

#[test]
fn structure_lists_keys_and_indices() {
    let tree = parse_json(r#"{"a": 1, "b": {"c": [true, {"d": null}], "e": []}, "f": [[2]]}"#).unwrap();
    assert_eq!(
        display_structure(&tree),
        "a\nb\n  c\n    [0]\n    [1]\n      d\n  e\nf\n  [0]\n    [0]\n"
    );
    assert_eq!(display_structure(&string("leaf")), "");
    assert_eq!(display_structure(&Value::Object(vec![])), "");
}

#[test]
fn value_accessors() {
    let doc = john();
    assert!(doc.is_object() && !doc.is_array() && !doc.is_string());
    assert!(Value::Array(vec![]).is_array());
    assert_eq!(string("s").as_str(), Some("s"));
    assert_eq!(doc.as_str(), None);
    assert_eq!(doc.get("name"), Some(&string("John")));
    assert_eq!(doc.get("nope"), None);
    assert_eq!(doc.get_index(0), None);
    let list = Value::Array(vec![number("1"), number("2")]);
    assert_eq!(list.get_index(1), Some(&number("2")));
    assert_eq!(list.get_index(2), None);
    assert_eq!(list.get("0"), None);
}

#[test]
fn equality_goes_by_kind_order_and_text() {
    assert_eq!(john(), john().clone());
    assert_ne!(john(), object(vec![("age", number("30")), ("name", string("John"))]));
    assert_ne!(number("1"), number("1.0"));
    assert_ne!(number("1"), string("1"));
    assert_ne!(Value::Null, Value::Bool(false));
    assert_ne!(Value::Array(vec![]), Value::Object(vec![]));
    assert_ne!(Value::Array(vec![Value::Null]), Value::Array(vec![]));
    assert_eq!(number("1E2"), number("1e+2"));
}

#[test]
fn minify_writes_what_serde_json_writes() {
    for text in [
        "{}",
        "[]",
        r#"{"b": 1, "a": [true, false, null], "c": {"z": "y", "x": {}}}"#,
        r#"{"k": 1, "other": 2, "k": 3}"#,
        r#"[0, -0, 1.50, 1E5, 2e-3, 123456789012345678901234567890, 0.1e+1]"#,
        "[\"q\\\" b\\\\ s\\/ \\b\\f\\n\\r\\t \\u0000\\u001f\\u007f \\u00e9 \u{1F600}\"]",
    ] {
        let ours = minify_json(&parse_json(text).unwrap());
        let theirs: serde_json::Value = serde_json::from_str(text).unwrap();
        assert_eq!(ours, serde_json::to_string(&theirs).unwrap(), "{}", text);
    }
}

fn agrees_with_serde_json(text: &str) -> bool {
    let ours = parse_json(text);
    let theirs = serde_json::from_str::<serde_json::Value>(text)
        .ok()
        .filter(|v| v.is_object() || v.is_array());
    assert_eq!(ours.is_ok(), theirs.is_some(), "{:?}", text);
    match (ours, theirs) {
        (Ok(ours), Some(theirs)) => {
            assert_eq!(minify_json(&ours), serde_json::to_string(&theirs).unwrap(), "{:?}", text);
            true
        }
        _ => false,
    }
}

#[test]
fn parsing_agrees_with_serde_json_on_all_short_texts() {
    let alphabet = ['[', ']', '{', '}', '"', ':', ',', '1', '0', ' ', 'a', '\\', '-', '.'];
    let mut texts: Vec<String> = vec![String::new()];
    let mut documents = 0;
    for length in 1..=5 {
        let mut longer = Vec::with_capacity(texts.len() * alphabet.len());
        for text in &texts {
            for c in alphabet {
                let mut t = text.clone();
                t.push(c);
                longer.push(t);
            }
        }
        if length == 1 {
            longer.retain(|t| t == "[" || t == "{" || t == " ");
        }
        for text in &longer {
            if agrees_with_serde_json(text) {
                documents += 1;
            }
        }
        texts = longer;
    }
    assert!(documents > 100);
    for text in ["x", "1", "\"a\"", "]", "}", ",", "-1", ".", "a", "0", ":", "\\"] {
        assert!(!agrees_with_serde_json(text), "{:?}", text);
    }
}
