use json_node::JsonNode;
use json_node::JsonPropertyMap;
use json_node::SurroundWith;

#[test]
fn scalar_to_json_string() {
    assert_eq!(JsonNode::Null.to_json_string(), "null");
    assert_eq!(JsonNode::Boolean(true).to_json_string(), "true");
    assert_eq!(JsonNode::Boolean(false).to_json_string(), "false");
    assert_eq!(JsonNode::Integer(0).to_json_string(), "0");
    assert_eq!(JsonNode::Integer(42).to_json_string(), "42");
    assert_eq!(JsonNode::Integer(-42).to_json_string(), "-42");
    assert_eq!(
        JsonNode::Integer(i64::MIN).to_json_string(),
        "-9223372036854775808"
    );
    assert_eq!(
        JsonNode::Integer(i64::MAX).to_json_string(),
        "9223372036854775807"
    );
    assert_eq!(
        JsonNode::Float("0.5".to_owned()).to_json_string(),
        "0.5"
    );
    assert_eq!(
        JsonNode::String("Hello".to_owned()).to_json_string(),
        "\"Hello\""
    );
}

#[test]
fn array_to_json_string() {
    let node_tree = JsonNode::Array(Vec::from([
        JsonNode::Integer(0),
        JsonNode::Float("0.5".to_owned()),
        JsonNode::Integer(1),
        JsonNode::Null,
        JsonNode::Boolean(false),
    ]));

    let json_string = node_tree.to_json_string();

    assert_eq!(json_string, "[0,0.5,1,null,false]".to_owned());
    assert_eq!(JsonNode::Array(Vec::new()).to_json_string(), "[]");
}

#[test]
fn object_to_json_string() {
    let map = JsonPropertyMap::from(vec![
        ("name".to_owned(), JsonNode::String("John Doe".to_owned())),
        ("age".to_owned(), JsonNode::Integer(42)),
    ]);
    assert_eq!(map.to_json_string(), "{\"name\":\"John Doe\",\"age\":42}");
    assert_eq!(JsonPropertyMap::new().to_json_string(), "{}");
    assert_eq!(
        JsonNode::Object(JsonPropertyMap::new()).to_json_string(),
        "{}"
    );
}

#[test]
fn end_to_end_object() {
    // Parsing a compact object yields its entries in order, and
    // serializing the result reproduces the input text exactly.
    let text = "{\"name\":\"Jason\",\"age\":30,\"numbers\":[1,2,3]}";
    let node = JsonNode::parse(text).unwrap();

    let map = node.as_object().unwrap();
    assert_eq!(map.len(), 3);
    assert_eq!(
        map.property_names(),
        vec![&"name".to_owned(), &"age".to_owned(), &"numbers".to_owned()]
    );
    assert_eq!(
        map.get("name").unwrap(),
        &JsonNode::String("Jason".to_owned())
    );
    assert_eq!(map.get("age").unwrap(), &JsonNode::Integer(30));
    let numbers = map.get("numbers").unwrap().as_array().unwrap();
    assert_eq!(
        numbers,
        &vec![
            JsonNode::Integer(1),
            JsonNode::Integer(2),
            JsonNode::Integer(3)
        ]
    );

    assert_eq!(node.to_json_string(), text);
}

#[test]
fn round_trip_built_tree() {
    // A tree built directly from plain, non-escaping values survives a
    // serialize-then-parse round trip structurally unchanged.
    let tree = JsonNode::Object(JsonPropertyMap::from(vec![
        ("s".to_owned(), JsonNode::String("plain text".to_owned())),
        ("i".to_owned(), JsonNode::Integer(-5)),
        ("f".to_owned(), JsonNode::Float("2.75".to_owned())),
        ("b".to_owned(), JsonNode::Boolean(true)),
        ("n".to_owned(), JsonNode::Null),
        (
            "a".to_owned(),
            JsonNode::Array(vec![
                JsonNode::Integer(1),
                JsonNode::Array(vec![]),
                JsonNode::Object(JsonPropertyMap::new()),
            ]),
        ),
    ]));

    let text = tree.to_json_string();
    let reparsed = JsonNode::parse(&text).unwrap();
    assert_eq!(reparsed, tree);
}

#[test]
fn round_trip_parsed_tree() {
    let text = "[[1],2,[3],{\"k\":\"v\"},4.5,null]";
    let tree = JsonNode::parse(text).unwrap();
    assert_eq!(tree.to_json_string(), text);
    assert_eq!(JsonNode::parse(&tree.to_json_string()).unwrap(), tree);
}

#[test]
fn surround_with_wraps() {
    assert_eq!("x".surround_with("(", ")"), "(x)");
    assert_eq!("name".to_owned().surround_with("\"", "\""), "\"name\"");
    assert_eq!("".surround_with("[", "]"), "[]");
}
