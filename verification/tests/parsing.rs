use std::collections::HashMap;

use json_node::JsonNode;
use json_node::JsonNodeError;
use json_node::JsonNodeParser;
use json_node::JsonPropertyMap;

#[test]
fn parse_string() {
    let json_string = "\"text\"";

    let json_node = JsonNode::parse(&json_string).unwrap();
    assert_eq!(json_node, JsonNode::String("text".to_owned()));
}

#[test]
fn parse_integer() {
    let json_integer = "123";

    let json_node = JsonNode::parse(&json_integer).unwrap();
    assert_eq!(json_node, JsonNode::Integer(123));
}

#[test]
fn parse_float() {
    let json_float = "123.456";

    let json_node = JsonNode::parse(&json_float).unwrap();
    assert_eq!(json_node, JsonNode::Float("123.456".to_owned()));
    assert_eq!(json_node.as_float().unwrap().parse::<f64>().unwrap(), 123.456);
}

#[test]
fn parse_true() {
    let json_true = "true";

    let json_node = JsonNode::parse(&json_true).unwrap();
    assert_eq!(json_node, JsonNode::Boolean(true));
}

#[test]
fn parse_false() {
    let json_false = "false";

    let json_node = JsonNode::parse(&json_false).unwrap();
    assert_eq!(json_node, JsonNode::Boolean(false));
}

#[test]
fn parse_null() {
    let json_null = "null";

    let json_node = JsonNode::parse(&json_null).unwrap();
    assert_eq!(json_node, JsonNode::Null);
}

#[test]
fn parse_empty_object() {
    let json_empty_object = "{}";

    let json_node = JsonNode::parse(&json_empty_object).unwrap();
    assert_eq!(json_node, JsonNode::Object(JsonPropertyMap::new()));
}

#[test]
fn parse_filled_object() {
    let filled_json_object = r#"
        {
            "string": "value",
            "integer": 123,
            "float": 123.456,
            "true": true,
            "false": false,
            "null": null
        }"#;

    let json_object_node = JsonNode::parse(&filled_json_object).unwrap();
    let mut filled_map = HashMap::new();

    filled_map.insert("string".to_owned(), JsonNode::String("value".to_owned()));
    filled_map.insert("integer".to_owned(), JsonNode::Integer(123));
    filled_map.insert("float".to_owned(), JsonNode::Float("123.456".to_owned()));
    filled_map.insert("true".to_owned(), JsonNode::Boolean(true));
    filled_map.insert("false".to_owned(), JsonNode::Boolean(false));
    filled_map.insert("null".to_owned(), JsonNode::Null);

    match json_object_node {
        JsonNode::Object(map) => {
            for i in 0..map.len() {
                let entry = map.at(i);
                assert_eq!(&entry.1, filled_map.get(&entry.0).unwrap());
            }
        },
        _ => panic!("Expected JsonObject"),
    }
}

#[test]
fn parse_empty_array() {
    let json_empty_object = "[]";

    let json_node = JsonNode::parse(&json_empty_object).unwrap();
    assert_eq!(json_node, JsonNode::Array(Vec::new()));
}

#[test]
fn parse_filled_array() {
    let filled_json_object = r#"
        [
            "string",
            123,
            123.456,
            true,
            false,
            null
        ]"#;

    let json_array_node = JsonNode::parse(&filled_json_object).unwrap();
    let mut filled_array = Vec::new();

    filled_array.push(JsonNode::String("string".to_owned()));
    filled_array.push(JsonNode::Integer(123));
    filled_array.push(JsonNode::Float("123.456".to_owned()));
    filled_array.push(JsonNode::Boolean(true));
    filled_array.push(JsonNode::Boolean(false));
    filled_array.push(JsonNode::Null);

    assert_eq!(json_array_node, JsonNode::Array(filled_array));
}

#[test]
fn parse_sample_json() {
    let json = r#"
        {
            "name": "Jason",
            "age": 30,
            "isMale": true,
            "height": 1.8,
            "numbers": [1, 2, 3, 4, 5],
            "children": [
                {
                    "name": "Jason Jr.",
                    "age": 5,
                    "isMale": true,
                    "height": 1.2
                },
                {
                    "name": "Jasmine",
                    "age": 3,
                    "isMale": false,
                    "height": 1.1
                }
            ]
        }"#;

    let parsed_json_tree = JsonNode::parse(&json).unwrap();

    let constructed_json_tree = JsonNode::Object(JsonPropertyMap::from(vec![
        ("name".to_owned(), JsonNode::String("Jason".to_owned())),
        ("age".to_owned(), JsonNode::Integer(30)),
        ("isMale".to_owned(), JsonNode::Boolean(true)),
        ("height".to_owned(), JsonNode::Float("1.8".to_owned())),
        (
            "numbers".to_owned(),
            JsonNode::Array(vec![
                JsonNode::Integer(1),
                JsonNode::Integer(2),
                JsonNode::Integer(3),
                JsonNode::Integer(4),
                JsonNode::Integer(5),
            ]),
        ),
        (
            "children".to_owned(),
            JsonNode::Array(vec![
                JsonNode::Object(JsonPropertyMap::from(vec![
                    ("name".to_owned(), JsonNode::String("Jason Jr.".to_owned())),
                    ("age".to_owned(), JsonNode::Integer(5)),
                    ("isMale".to_owned(), JsonNode::Boolean(true)),
                    ("height".to_owned(), JsonNode::Float("1.2".to_owned())),
                ])),
                JsonNode::Object(JsonPropertyMap::from(vec![
                    ("name".to_owned(), JsonNode::String("Jasmine".to_owned())),
                    ("age".to_owned(), JsonNode::Integer(3)),
                    ("isMale".to_owned(), JsonNode::Boolean(false)),
                    ("height".to_owned(), JsonNode::Float("1.1".to_owned())),
                ])),
            ]),
        ),
    ]));

    assert_eq!(parsed_json_tree, constructed_json_tree);
}

#[test]
fn parse_doc() {
    // Create a valid JSON string.
    let json = "10";
    // Manually create a tree with the expected structure and value.
    let expected = JsonNode::Integer(10);

    // Parse the json string into a node tree.
    let node_tree = JsonNode::parse(json).unwrap();

    assert_eq!(node_tree, expected);
}

#[test]
fn parse_scalar_quoted() {
    assert_eq!(
        JsonNode::parse("\"x\"").unwrap(),
        JsonNode::String("x".to_owned())
    );
}

#[test]
fn parse_scalar_integer() {
    assert_eq!(JsonNode::parse("42").unwrap(), JsonNode::Integer(42));
}

#[test]
fn parse_scalar_float() {
    assert_eq!(
        JsonNode::parse("3.14").unwrap(),
        JsonNode::Float("3.14".to_owned())
    );
}

#[test]
fn parse_signed_integers() {
    assert_eq!(JsonNode::parse("+7").unwrap(), JsonNode::Integer(7));
    assert_eq!(JsonNode::parse("-7").unwrap(), JsonNode::Integer(-7));
    assert_eq!(
        JsonNode::parse("9223372036854775807").unwrap(),
        JsonNode::Integer(i64::MAX)
    );
    assert_eq!(
        JsonNode::parse("-9223372036854775808").unwrap(),
        JsonNode::Integer(i64::MIN)
    );
}

#[test]
fn parse_integer_overflow_becomes_float() {
    // One past i64::MAX no longer fits the integer grammar; the float
    // grammar takes it, keeping the text verbatim.
    let node = JsonNode::parse("9223372036854775808").unwrap();
    assert_eq!(node, JsonNode::Float("9223372036854775808".to_owned()));
}

#[test]
fn parse_case_insensitive_words() {
    assert_eq!(JsonNode::parse("TRUE").unwrap(), JsonNode::Boolean(true));
    assert_eq!(JsonNode::parse("False").unwrap(), JsonNode::Boolean(false));
    assert_eq!(JsonNode::parse("NULL").unwrap(), JsonNode::Null);
}

#[test]
fn parse_float_exponent_and_specials() {
    assert_eq!(
        JsonNode::parse("1e3").unwrap(),
        JsonNode::Float("1e3".to_owned())
    );
    assert_eq!(
        JsonNode::parse("-2.5E-4").unwrap(),
        JsonNode::Float("-2.5E-4".to_owned())
    );
    assert_eq!(
        JsonNode::parse("inf").unwrap(),
        JsonNode::Float("inf".to_owned())
    );
}

#[test]
fn parse_empty_input_errors() {
    assert_eq!(JsonNode::parse("").unwrap_err(), JsonNodeError::EmptyJson(None));
    assert_eq!(
        JsonNode::parse("   \t\n ").unwrap_err(),
        JsonNodeError::EmptyJson(None)
    );
}

#[test]
fn parse_unparsable_errors() {
    assert_eq!(
        JsonNode::parse("not json").unwrap_err(),
        JsonNodeError::CouldntParseNode("not json".to_owned())
    );
    // A failing element collapses the whole enclosing array parse.
    assert_eq!(
        JsonNode::parse("[1, nope]").unwrap_err(),
        JsonNodeError::CouldntParseNode("[1, nope]".to_owned())
    );
}

#[test]
fn parse_trims_whitespace() {
    assert_eq!(JsonNode::parse("  42  ").unwrap(), JsonNode::Integer(42));
    assert_eq!(
        JsonNode::parse(" [ 1 , 2 ] ").unwrap(),
        JsonNode::Array(vec![JsonNode::Integer(1), JsonNode::Integer(2)])
    );
}

#[test]
fn parse_node_carries_parent_context() {
    let err = JsonNodeParser::parse_node("   ", Some("the enclosing text".to_owned()))
        .unwrap_err();
    assert_eq!(
        err,
        JsonNodeError::EmptyJson(Some(Box::new("the enclosing text".to_owned())))
    );
    assert_eq!(err.message(), "the enclosing text");

    assert_eq!(
        JsonNodeParser::parse_node("7", None).unwrap(),
        JsonNode::Integer(7)
    );
}

#[test]
fn parse_degenerate_spans_error() {
    // A lone quote, bracket or brace matches no grammar.
    assert_eq!(
        JsonNode::parse("\"").unwrap_err(),
        JsonNodeError::CouldntParseNode("\"".to_owned())
    );
    assert_eq!(
        JsonNode::parse("[").unwrap_err(),
        JsonNodeError::CouldntParseNode("[".to_owned())
    );
    assert_eq!(
        JsonNode::parse("{").unwrap_err(),
        JsonNodeError::CouldntParseNode("{".to_owned())
    );
    // An object member needs a colon and a quoted name.
    assert_eq!(
        JsonNode::parse("{\"a\" 1}").unwrap_err(),
        JsonNodeError::CouldntParseNode("{\"a\" 1}".to_owned())
    );
    assert_eq!(
        JsonNode::parse("{a:1}").unwrap_err(),
        JsonNodeError::CouldntParseNode("{a:1}".to_owned())
    );
}

#[test]
fn parse_quoted_comma_is_not_protected() {
    // The splitter counts brackets only: a comma inside a quoted string
    // still splits the array interior, so neither piece parses and the
    // whole parse fails. This documents the open, unescaped-string
    // limitation of the grammar rather than fixing it.
    assert_eq!(
        JsonNode::parse("[\"a,b\"]").unwrap_err(),
        JsonNodeError::CouldntParseNode("[\"a,b\"]".to_owned())
    );
}
