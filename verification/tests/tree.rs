use json_node::JsonNode;
use json_node::JsonNodeError;
use json_node::JsonPropertyMap;

#[test]
fn get_mut() {
    // Create node with mappings.
    let mut object_node = JsonNode::Object(JsonPropertyMap::from(vec![
        ("name".to_owned(), JsonNode::String("John Doe".to_owned())),
        ("age".to_owned(), JsonNode::Integer(42)),
    ]));

    let mut_map = object_node.as_object_mut().unwrap(); // &mut JsonPropertyMap.
    let mut_property = mut_map.get_mut("name").unwrap(); // &mut JsonNode.
    let mut_name = mut_property.as_string_mut().unwrap(); // &mut String.

    mut_name.make_ascii_uppercase(); // Mutates the string in place.

    let map = object_node.as_object().unwrap(); // &JsonPropertyMap.
    let property = map.get("name").unwrap(); // &JsonNode.
    let name = property.as_string().unwrap(); // &str.

    assert_eq!(name, "JOHN DOE");
}

#[test]
fn iterate_works() {
    let json = r#"
        {
            "name": "Jason",
            "age": 30,
            "isMale": true,
            "height": 1.8,
            "numbers": [1, 2, 3, 4, 5],
            "children": [
                {
                    "name": "Jason Jr.",
                    "age": 5,
                    "isMale": true,
                    "height": 1.2
                },
                {
                    "name": "Jasmine",
                    "age": 3,
                    "isMale": false,
                    "height": 1.1
                }
            ]
        }"#;

    let node = JsonNode::parse(json).unwrap();
    let mut it = node.into_iter();
    while let Some(e) = it.next() {
        println!("{:?}", e)
    }
}

#[test]
fn into_iter() {
    let node_tree = JsonNode::Array(Vec::from([
        JsonNode::Array(Vec::from([
            // First element is an array with the value `1` inside.
            JsonNode::Integer(1),
        ])),
        JsonNode::Integer(2), // Second element is the value `2`.
        JsonNode::Array(Vec::from([
            JsonNode::Integer(3), // Third element is an array with the value `3` inside.
        ])),
    ]));

    let mut it = node_tree.into_iter();
    let mut sequence: Vec<&JsonNode> = Vec::new();
    while let Some(n) = it.next() {
        sequence.push(n);
    }

    let one = JsonNode::Integer(1);
    let two = JsonNode::Integer(2);
    let three = JsonNode::Integer(3);
    let expected = vec![&one, &two, &three];

    assert_eq!(sequence, expected);
}

#[test]
fn traversal_flattens_nested_scalars() {
    // Depth-first traversal over [[1],2,[3]] yields 1, 2, 3 in order.
    let tree = JsonNode::parse("[[1],2,[3]]").unwrap();
    let mut it = tree.into_iter();
    let mut seen: Vec<i64> = Vec::new();
    while let Some(n) = it.next() {
        seen.push(*n.as_integer().unwrap());
    }
    assert_eq!(seen, vec![1, 2, 3]);
}

#[test]
fn traversal_visits_object_values_in_order() {
    let tree = JsonNode::parse("{\"a\":1,\"b\":[2,{\"c\":3}],\"d\":4}").unwrap();
    let mut it = tree.into_iter();
    let mut seen: Vec<i64> = Vec::new();
    while let Some(n) = it.next() {
        seen.push(*n.as_integer().unwrap());
    }
    assert_eq!(seen, vec![1, 2, 3, 4]);
    // The sequence is not restartable: once consumed it stays empty.
    assert!(it.next().is_none());
    assert!(it.next().is_none());
}

#[test]
fn add_first_write_wins() {
    let mut map = JsonPropertyMap::new();
    map.add("name", JsonNode::Integer(1));
    map.add("name", JsonNode::Integer(2));

    assert_eq!(map.len(), 1);
    assert_eq!(map.get("name").unwrap(), &JsonNode::Integer(1));
}

#[test]
fn remove_missing_key_fails() {
    let mut empty = JsonPropertyMap::new();
    assert_eq!(
        empty.remove("name").unwrap_err(),
        JsonNodeError::KeyNotFound("name".to_owned())
    );

    let mut map = JsonPropertyMap::from(vec![("other".to_owned(), JsonNode::Null)]);
    assert_eq!(
        map.remove("name").unwrap_err(),
        JsonNodeError::KeyNotFound("name".to_owned())
    );
    assert_eq!(map.len(), 1);
}

#[test]
fn remove_duplicate_key_fails() {
    // `add` keeps names unique, but direct construction can repeat them;
    // `remove` still performs the check and refuses.
    let mut map = JsonPropertyMap::from(vec![
        ("name".to_owned(), JsonNode::Integer(1)),
        ("name".to_owned(), JsonNode::Integer(2)),
    ]);
    assert_eq!(
        map.remove("name").unwrap_err(),
        JsonNodeError::MultiplePropertiesWithSameKey("name".to_owned())
    );
    assert_eq!(map.len(), 2);
}

#[test]
fn remove_returns_the_node() {
    let mut map = JsonPropertyMap::from(vec![
        ("a".to_owned(), JsonNode::Integer(1)),
        ("b".to_owned(), JsonNode::Integer(2)),
    ]);
    assert_eq!(map.remove("a").unwrap(), JsonNode::Integer(1));
    assert_eq!(map.len(), 1);
    assert!(!map.contains_property("a"));
    assert!(map.contains_property("b"));
}

#[test]
fn map_accessors() {
    let mut map = JsonPropertyMap::new();
    assert!(map.is_empty());
    map.add("a", JsonNode::Integer(1));
    map.add("b", JsonNode::Boolean(true));
    assert!(!map.is_empty());
    assert_eq!(map.len(), 2);

    let names = map.property_names();
    assert_eq!(names, vec![&"a".to_owned(), &"b".to_owned()]);

    let nodes = map.nodes();
    assert_eq!(nodes[0], &JsonNode::Integer(1));
    assert_eq!(nodes[1], &JsonNode::Boolean(true));

    let entry = map.at(1);
    assert_eq!(entry.0, "b");
    assert_eq!(entry.1, JsonNode::Boolean(true));

    assert!(map.get("c").is_none());

    map.clear();
    assert!(map.is_empty());
}

#[test]
fn node_predicates_and_accessors() {
    let object_node = JsonNode::Object(JsonPropertyMap::new());
    let array_node = JsonNode::Array(Vec::new());
    let string_node = JsonNode::String("Hello World!".to_owned());
    let integer_node = JsonNode::Integer(42);
    let float_node = JsonNode::Float("3.14".to_owned());
    let bool_node = JsonNode::Boolean(true);
    let null_node = JsonNode::Null;

    assert!(object_node.is_object());
    assert!(!null_node.is_object());
    assert!(array_node.is_array());
    assert!(!null_node.is_array());
    assert!(string_node.is_string());
    assert!(integer_node.is_integer());
    assert!(float_node.is_float());
    assert!(bool_node.is_bool());
    assert!(null_node.is_null());
    assert!(!integer_node.is_null());

    assert_eq!(object_node.as_object(), Some(&JsonPropertyMap::new()));
    assert_eq!(null_node.as_object(), None);
    assert_eq!(array_node.as_array(), Some(&Vec::new()));
    assert_eq!(null_node.as_array(), None);
    assert_eq!(string_node.as_string(), Some("Hello World!"));
    assert_eq!(null_node.as_string(), None);
    assert_eq!(integer_node.as_integer(), Some(&42));
    assert_eq!(null_node.as_integer(), None);
    assert_eq!(float_node.as_float(), Some(&"3.14".to_owned()));
    assert_eq!(null_node.as_float(), None);
    assert_eq!(bool_node.as_boolean(), Some(&true));
    assert_eq!(null_node.as_boolean(), None);
}

#[test]
fn node_mut_accessors() {
    let mut integer_node = JsonNode::Integer(42);
    *integer_node.as_integer_mut().unwrap() = 7;
    assert_eq!(integer_node, JsonNode::Integer(7));
    assert!(integer_node.as_boolean_mut().is_none());

    let mut bool_node = JsonNode::Boolean(true);
    *bool_node.as_boolean_mut().unwrap() = false;
    assert_eq!(bool_node, JsonNode::Boolean(false));

    let mut float_node = JsonNode::Float("1.5".to_owned());
    float_node.as_float_mut().unwrap().push('0');
    assert_eq!(float_node, JsonNode::Float("1.50".to_owned()));

    let mut array_node = JsonNode::Array(vec![JsonNode::Null]);
    array_node.as_array_mut().unwrap().push(JsonNode::Integer(1));
    assert_eq!(
        array_node,
        JsonNode::Array(vec![JsonNode::Null, JsonNode::Integer(1)])
    );

    let mut object_node = JsonNode::Object(JsonPropertyMap::new());
    object_node
        .as_object_mut()
        .unwrap()
        .add("k", JsonNode::Integer(9));
    assert_eq!(
        object_node,
        JsonNode::Object(JsonPropertyMap::from(vec![(
            "k".to_owned(),
            JsonNode::Integer(9)
        )]))
    );
}

#[test]
fn clone_is_deep() {
    let tree = JsonNode::parse("{\"a\":[1,{\"b\":\"x\"}],\"c\":2.5}").unwrap();
    let mut copy = tree.clone();
    assert_eq!(copy, tree);

    // Mutating the copy leaves the original untouched.
    let map = copy.as_object_mut().unwrap();
    *map.get_mut("a").unwrap() = JsonNode::Null;
    assert_ne!(copy, tree);
    assert_eq!(
        tree.as_object().unwrap().get("a").unwrap().is_array(),
        true
    );
}

#[test]
fn at_mut_edits_in_place() {
    let mut map = JsonPropertyMap::from(vec![
        ("a".to_owned(), JsonNode::Integer(1)),
        ("b".to_owned(), JsonNode::Integer(2)),
    ]);
    for i in 0..map.len() {
        let entry = map.at_mut(i);
        if let Some(v) = entry.1.as_integer_mut() {
            *v *= 10;
        }
    }
    assert_eq!(map.get("a").unwrap(), &JsonNode::Integer(10));
    assert_eq!(map.get("b").unwrap(), &JsonNode::Integer(20));
}

#[test]
fn error_messages() {
    assert_eq!(
        JsonNodeError::EmptyJson(None).message(),
        "Json node has no parent"
    );
    assert_eq!(
        JsonNodeError::EmptyJson(Some(Box::new("ctx".to_owned()))).message(),
        "ctx"
    );
    assert_eq!(
        JsonNodeError::CouldntParseNode("bad".to_owned()).message(),
        "bad"
    );
    assert_eq!(
        JsonNodeError::MultiplePropertiesWithSameKey("k".to_owned()).message(),
        "k"
    );
    assert_eq!(JsonNodeError::KeyNotFound("k".to_owned()).message(), "k");
}
