use content_tree::digest::D;
use content_tree::input::create_value;
use content_tree::value::{Node, ObjectValue, Value};

fn digest_of_ones() -> D {
    D { sha2_256: [1u8; 32] }
}

fn digest_mixed() -> D {
    let mut bytes = [0u8; 32];
    bytes[0] = 255;
    bytes[1] = 10;
    bytes[31] = 100;
    D { sha2_256: bytes }
}

fn ones_json() -> String {
    format!("{{\"sha2_256\":[{}]}}", vec!["1"; 32].join(","))
}

fn text_of_string(s: &str) -> String {
    Node { id: 0, value: Value::String(s.to_string()) }.serialize()
}

#[test]
fn serialize_empty_value() {
    let node = Node { id: 1, value: Value::Empty };
    assert_eq!(node.serialize(), "{\"id\":1,\"value\":\"Empty\"}");
}

#[test]
fn serialize_default_node() {
    assert_eq!(Node::default().serialize(), "{\"id\":0,\"value\":\"Empty\"}");
}

#[test]
fn serialize_scalars() {
    assert_eq!(
        Node { id: 4294967295, value: Value::String("Hi".to_string()) }.serialize(),
        "{\"id\":4294967295,\"value\":{\"String\":\"Hi\"}}"
    );
    assert_eq!(
        Node { id: 2, value: Value::Int(-42) }.serialize(),
        "{\"id\":2,\"value\":{\"Int\":-42}}"
    );
    assert_eq!(
        Node { id: 2, value: Value::Int(i64::MIN) }.serialize(),
        "{\"id\":2,\"value\":{\"Int\":-9223372036854775808}}"
    );
    assert_eq!(
        Node { id: 2, value: Value::Int(i64::MAX) }.serialize(),
        "{\"id\":2,\"value\":{\"Int\":9223372036854775807}}"
    );
    assert_eq!(
        Node { id: 3, value: Value::Boolean(true) }.serialize(),
        "{\"id\":3,\"value\":{\"Boolean\":true}}"
    );
    assert_eq!(
        Node { id: 3, value: Value::Boolean(false) }.serialize(),
        "{\"id\":3,\"value\":{\"Boolean\":false}}"
    );
}

#[test]
fn serialize_number_as_its_bits() {
    assert_eq!(
        Node { id: 9, value: Value::Number(0.0f64.to_bits()) }.serialize(),
        "{\"id\":9,\"value\":{\"Number\":0}}"
    );
    assert_eq!(
        Node { id: 9, value: Value::Number(1.5f64.to_bits()) }.serialize(),
        "{\"id\":9,\"value\":{\"Number\":4609434218613702656}}"
    );
}

#[test]
fn serialize_new_document() {
    let node = Node { id: 1, value: create_value() };
    assert_eq!(
        node.serialize(),
        "{\"id\":1,\"value\":{\"Object\":{\"object_type_id\":2325,\"fields\":{\"0\":[],\"1\":[],\"2\":[]}}}}"
    );
}

#[test]
fn serialize_object_with_children_in_field_order() {
    let mut object = ObjectValue::new(7);
    object.append(20, digest_of_ones());
    object.append(3, digest_of_ones());
    object.append(3, digest_of_ones());
    let node = Node { id: 8, value: Value::Object(object) };
    let expected = format!(
        "{{\"id\":8,\"value\":{{\"Object\":{{\"object_type_id\":7,\"fields\":{{\"3\":[{o},{o}],\"20\":[{o}]}}}}}}}}",
        o = ones_json()
    );
    assert_eq!(node.serialize(), expected);
}

#[test]
fn serialize_digest_bytes_in_decimal() {
    let mut object = ObjectValue::new(0);
    object.append(0, digest_mixed());
    let text = Node { id: 0, value: Value::Object(object) }.serialize();
    assert!(text.contains("{\"sha2_256\":[255,10,0,0,"));
    assert!(text.contains(",0,100]}"));
}

#[test]
fn serialize_object_without_fields() {
    let node = Node { id: 8, value: Value::Object(ObjectValue::new(5528)) };
    assert_eq!(
        node.serialize(),
        "{\"id\":8,\"value\":{\"Object\":{\"object_type_id\":5528,\"fields\":{}}}}"
    );
}

#[test]
fn strings_are_escaped_as_in_json() {
    assert_eq!(text_of_string("a\"b"), "{\"id\":0,\"value\":{\"String\":\"a\\\"b\"}}");
    assert_eq!(text_of_string("a\\b"), "{\"id\":0,\"value\":{\"String\":\"a\\\\b\"}}");
    assert_eq!(
        text_of_string("\n\r\t\u{8}\u{c}"),
        "{\"id\":0,\"value\":{\"String\":\"\\n\\r\\t\\b\\f\"}}"
    );
    assert_eq!(
        text_of_string("\u{0}\u{1}\u{1f}"),
        "{\"id\":0,\"value\":{\"String\":\"\\u0000\\u0001\\u001f\"}}"
    );
    assert_eq!(
        text_of_string("\u{7f}\u{e9}\u{1F600}/"),
        "{\"id\":0,\"value\":{\"String\":\"\u{7f}\u{e9}\u{1F600}/\"}}"
    );
}

#[test]
fn strings_are_written_as_serde_json_writes_them() {
    let samples = [
        "",
        "plain",
        "quote \" and backslash \\",
        "line\nfeed\rreturn\ttab",
        "\u{0}\u{1}\u{2}\u{7}\u{8}\u{b}\u{c}\u{e}\u{1f} ",
        "\u{7f}\u{80}\u{7ff}\u{800}\u{ffff}\u{10000}\u{10ffff}",
        "{\"id\":1,\"value\":\"Empty\"}",
    ];
    for s in samples {
        let quoted = serde_json::to_string(s).unwrap();
        assert_eq!(
            text_of_string(s),
            format!("{{\"id\":0,\"value\":{{\"String\":{}}}}}", quoted)
        );
    }
}

#[test]
fn integers_are_written_as_serde_json_writes_them() {
    for i in [0i64, 1, -1, 9, 10, 99, 100, -100, 1234567890123, i64::MAX, i64::MIN] {
        let digits = serde_json::to_string(&i).unwrap();
        assert_eq!(
            Node { id: 0, value: Value::Int(i) }.serialize(),
            format!("{{\"id\":0,\"value\":{{\"Int\":{}}}}}", digits)
        );
    }
}

#[test]
fn the_text_is_json_with_the_members_in_place() {
    let mut object = ObjectValue::new(2325);
    object.append(3, digest_mixed());
    let text = Node { id: 12, value: Value::Object(object) }.serialize();
    let json: serde_json::Value = serde_json::from_str(&text).unwrap();
    assert_eq!(json["id"], 12);
    assert_eq!(json["value"]["Object"]["object_type_id"], 2325);
    assert_eq!(json["value"]["Object"]["fields"]["3"][0]["sha2_256"][0], 255);
    assert_eq!(json["value"]["Object"]["fields"]["3"][0]["sha2_256"][31], 100);
    assert_eq!(
        json["value"]["Object"]["fields"]["3"][0]["sha2_256"].as_array().unwrap().len(),
        32
    );
}

#[test]
fn deserialize_gives_back_what_was_serialized() {
    let mut object = ObjectValue::new(2325);
    object.append(0, digest_of_ones());
    object.append(2, digest_mixed());
    object.append(2, digest_of_ones());
    object.fields.insert(1, Vec::new());
    let nodes = vec![
        Node::default(),
        Node { id: 1, value: Value::Empty },
        Node { id: 2, value: Value::String(String::new()) },
        Node { id: 3, value: Value::String("a\"b\\c\n\u{1}\u{1f}\u{e9}\u{1F600}".to_string()) },
        Node { id: 4, value: Value::Int(0) },
        Node { id: 5, value: Value::Int(i64::MIN) },
        Node { id: 6, value: Value::Int(i64::MAX) },
        Node { id: 7, value: Value::Number(u64::MAX) },
        Node { id: 8, value: Value::Number(2.5f64.to_bits()) },
        Node { id: 9, value: Value::Boolean(true) },
        Node { id: 10, value: Value::Boolean(false) },
        Node { id: 11, value: Value::Object(ObjectValue::new(0)) },
        Node { id: u32::MAX, value: Value::Object(object) },
        Node { id: 1, value: create_value() },
    ];
    for node in nodes {
        assert_eq!(Node::deserialize(&node.serialize()), Some(node));
    }
}

#[test]
fn deserialize_reads_the_known_texts() {
    assert_eq!(
        Node::deserialize("{\"id\":1,\"value\":\"Empty\"}"),
        Some(Node { id: 1, value: Value::Empty })
    );
    assert_eq!(
        Node::deserialize("{\"id\":6,\"value\":{\"Int\":-42}}"),
        Some(Node { id: 6, value: Value::Int(-42) })
    );
    assert_eq!(
        Node::deserialize("{\"id\":6,\"value\":{\"String\":\"a\\nb\\u0001\"}}"),
        Some(Node { id: 6, value: Value::String("a\nb\u{1}".to_string()) })
    );
    assert_eq!(
        Node::deserialize(
            "{\"id\":1,\"value\":{\"Object\":{\"object_type_id\":2325,\"fields\":{\"0\":[],\"1\":[],\"2\":[]}}}}"
        ),
        Some(Node { id: 1, value: create_value() })
    );
}

#[test]
fn deserialize_refuses_what_is_no_canonical_text() {
    let refused = [
        "",
        "xxx",
        "null",
        "{}",
        "{\"id\":1}",
        "{\"id\":1,\"value\":\"Empty\"} ",
        " {\"id\":1,\"value\":\"Empty\"}",
        "{\"id\": 1,\"value\":\"Empty\"}",
        "{\"value\":\"Empty\",\"id\":1}",
        "{\"id\":01,\"value\":\"Empty\"}",
        "{\"id\":-1,\"value\":\"Empty\"}",
        "{\"id\":4294967296,\"value\":\"Empty\"}",
        "{\"id\":1,\"value\":\"empty\"}",
        "{\"id\":1,\"value\":{\"Int\":+1}}",
        "{\"id\":1,\"value\":{\"Int\":-0}}",
        "{\"id\":1,\"value\":{\"Int\":9223372036854775808}}",
        "{\"id\":1,\"value\":{\"Int\":-9223372036854775809}}",
        "{\"id\":1,\"value\":{\"Int\":1.0}}",
        "{\"id\":1,\"value\":{\"Number\":18446744073709551616}}",
        "{\"id\":1,\"value\":{\"Boolean\":True}}",
        "{\"id\":1,\"value\":{\"String\":\"a}}",
        "{\"id\":1,\"value\":{\"String\":\"\\x\"}}",
        "{\"id\":1,\"value\":{\"String\":\"\\u0041\"}}",
        "{\"id\":1,\"value\":{\"String\":\"\\u000A\"}}",
        "{\"id\":1,\"value\":{\"String\":\"\\u000a\"}}",
        "{\"id\":1,\"value\":{\"String\":\"\\/\"}}",
        "{\"id\":1,\"value\":{\"String\":\"\n\"}}",
        "{\"id\":1,\"value\":{\"Object\":{\"object_type_id\":1,\"fields\":{\"1\":[],\"0\":[]}}}}",
        "{\"id\":1,\"value\":{\"Object\":{\"object_type_id\":1,\"fields\":{\"1\":[],\"1\":[]}}}}",
        "{\"id\":1,\"value\":{\"Object\":{\"object_type_id\":1,\"fields\":{\"1\":[],}}}}",
        "{\"id\":1,\"value\":{\"Object\":{\"object_type_id\":1,\"fields\":{\"1\":[{\"sha2_256\":[1,2,3]}]}}}}",
        "{\"id\":1,\"value\":{\"Object\":{\"fields\":{},\"object_type_id\":1}}}",
    ];
    for text in refused {
        assert_eq!(Node::deserialize(text), None, "{}", text);
    }
}

#[test]
fn deserialize_refuses_a_digest_byte_out_of_range() {
    let mut bytes = vec!["1".to_string(); 32];
    bytes[5] = "256".to_string();
    let text = format!(
        "{{\"id\":1,\"value\":{{\"Object\":{{\"object_type_id\":1,\"fields\":{{\"1\":[{{\"sha2_256\":[{}]}}]}}}}}}}}",
        bytes.join(",")
    );
    assert_eq!(Node::deserialize(&text), None);
    bytes[5] = "255".to_string();
    let good = format!(
        "{{\"id\":1,\"value\":{{\"Object\":{{\"object_type_id\":1,\"fields\":{{\"1\":[{{\"sha2_256\":[{}]}}]}}}}}}}}",
        bytes.join(",")
    );
    assert!(Node::deserialize(&good).is_some());
    bytes.push("1".to_string());
    let long = format!(
        "{{\"id\":1,\"value\":{{\"Object\":{{\"object_type_id\":1,\"fields\":{{\"1\":[{{\"sha2_256\":[{}]}}]}}}}}}}}",
        bytes.join(",")
    );
    assert_eq!(Node::deserialize(&long), None);
}
