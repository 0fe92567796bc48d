use content_tree::digest::D;
use content_tree::input::create_value;
use content_tree::ordered::OrderedMap;
use content_tree::value::{Node, ObjectValue, Selector, Type, Value};

fn digest_filled(b: u8) -> D {
    D { sha2_256: [b; 32] }
}

#[test]
fn default_values_by_type() {
    assert_eq!(Type::String.default_value(), Value::String(String::new()));
    assert_eq!(Type::Int.default_value(), Value::Int(0));
    assert_eq!(Type::Number.default_value(), Value::Number(0.0f64.to_bits()));
    assert_eq!(Type::Boolean.default_value(), Value::Boolean(false));
    assert_eq!(Type::Object(5528).default_value(), Value::Object(ObjectValue::new(5528)));
}

#[test]
fn default_object_has_no_fields() {
    match Type::Object(27092).default_value() {
        Value::Object(o) => {
            assert_eq!(o.object_type_id, 27092);
            assert_eq!(o.fields.len(), 0);
        }
        other => panic!("{:?}", other),
    }
}

#[test]
fn every_type_but_an_object_type_is_primitive() {
    assert!(Type::String.is_primitive());
    assert!(Type::Int.is_primitive());
    assert!(Type::Number.is_primitive());
    assert!(Type::Boolean.is_primitive());
    assert!(!Type::Object(1).is_primitive());
}

#[test]
fn the_default_value_is_empty() {
    assert_eq!(Value::default(), Value::Empty);
    assert_eq!(Node::default(), Node { id: 0, value: Value::Empty });
}

#[test]
fn parse_string_takes_the_text() {
    assert_eq!(
        Value::parse(Type::String, "any text", None),
        Some(Value::String("any text".to_string()))
    );
    assert_eq!(Value::parse(Type::String, "", None), Some(Value::String(String::new())));
}

#[test]
fn parse_int_reads_decimal() {
    assert_eq!(Value::parse(Type::Int, "42", None), Some(Value::Int(42)));
    assert_eq!(Value::parse(Type::Int, "-42", None), Some(Value::Int(-42)));
    assert_eq!(Value::parse(Type::Int, "+7", None), Some(Value::Int(7)));
    assert_eq!(Value::parse(Type::Int, "007", None), Some(Value::Int(7)));
    assert_eq!(Value::parse(Type::Int, "-0", None), Some(Value::Int(0)));
    assert_eq!(
        Value::parse(Type::Int, "9223372036854775807", None),
        Some(Value::Int(i64::MAX))
    );
    assert_eq!(
        Value::parse(Type::Int, "-9223372036854775808", None),
        Some(Value::Int(i64::MIN))
    );
}

#[test]
fn parse_int_refuses_what_is_no_integer() {
    for text in [
        "",
        "-",
        "+",
        "abc",
        "1a",
        " 1",
        "1 ",
        "1.0",
        "1_000",
        "--1",
        "9223372036854775808",
        "-9223372036854775809",
        "\u{661}",
    ] {
        assert_eq!(Value::parse(Type::Int, text, None), None, "{}", text);
    }
}

#[test]
fn parse_boolean_reads_true_and_false() {
    assert_eq!(Value::parse(Type::Boolean, "true", None), Some(Value::Boolean(true)));
    assert_eq!(Value::parse(Type::Boolean, "false", None), Some(Value::Boolean(false)));
    for text in ["", "True", "FALSE", "1", "0", "yes", " true", "truee"] {
        assert_eq!(Value::parse(Type::Boolean, text, None), None, "{}", text);
    }
}

#[test]
fn parse_number_takes_the_bits_that_the_caller_read() {
    let text = "1.5";
    let bits = text.parse::<f64>().ok().map(f64::to_bits);
    assert_eq!(Value::parse(Type::Number, text, bits), Some(Value::Number(1.5f64.to_bits())));
    let bad = "one";
    let none = bad.parse::<f64>().ok().map(f64::to_bits);
    assert_eq!(Value::parse(Type::Number, bad, none), None);
}

#[test]
fn parse_never_reads_an_object() {
    assert_eq!(Value::parse(Type::Object(2325), "{}", None), None);
    assert_eq!(Value::parse(Type::Object(2325), "", Some(0)), None);
}

#[test]
fn parse_ignores_the_number_for_other_types() {
    assert_eq!(Value::parse(Type::Int, "3", Some(7)), Some(Value::Int(3)));
    assert_eq!(Value::parse(Type::Boolean, "x", Some(7)), None);
}

#[test]
fn values_are_shown_as_text() {
    assert_eq!(Value::Empty.to_string(""), "<EMPTY>");
    assert_eq!(Value::String("some text".to_string()).to_string(""), "some text");
    assert_eq!(Value::Int(-15).to_string(""), "-15");
    assert_eq!(Value::Int(0).to_string(""), "0");
    assert_eq!(Value::Int(i64::MIN).to_string(""), i64::MIN.to_string());
    assert_eq!(Value::Boolean(true).to_string(""), "true");
    assert_eq!(Value::Boolean(false).to_string(""), "false");
    assert_eq!(Value::Object(ObjectValue::new(1)).to_string(""), "<OBJECT>");
    let number = 2.5f64;
    assert_eq!(Value::Number(number.to_bits()).to_string(&format!("{}", number)), "2.5");
}

#[test]
fn new_document_has_three_empty_fields() {
    match create_value() {
        Value::Object(o) => {
            assert_eq!(o.object_type_id, 2325);
            assert_eq!(o.fields.len(), 3);
            assert_eq!(o.fields.get(0), Some(&Vec::new()));
            assert_eq!(o.fields.get(1), Some(&Vec::new()));
            assert_eq!(o.fields.get(2), Some(&Vec::new()));
            assert_eq!(o.fields.get(3), None);
        }
        other => panic!("{:?}", other),
    }
}

#[test]
fn append_adds_at_the_end() {
    let mut o = ObjectValue::new(1);
    assert_eq!(o.count(4), 0);
    o.append(4, digest_filled(1));
    o.append(4, digest_filled(2));
    o.append(2, digest_filled(3));
    assert_eq!(o.count(4), 2);
    assert_eq!(o.count(2), 1);
    assert_eq!(o.get(4, 0), Some(&digest_filled(1)));
    assert_eq!(o.get(4, 1), Some(&digest_filled(2)));
    assert_eq!(o.get(4, 2), None);
    assert_eq!(o.get(2, 0), Some(&digest_filled(3)));
    assert_eq!(o.get(9, 0), None);
    assert_eq!(o.object_type_id, 1);
}

#[test]
fn delete_moves_later_entries_down() {
    let mut o = ObjectValue::new(1);
    for b in 0..5u8 {
        o.append(7, digest_filled(b));
    }
    o.delete(7, 1);
    assert_eq!(o.count(7), 4);
    assert_eq!(o.get(7, 0), Some(&digest_filled(0)));
    assert_eq!(o.get(7, 1), Some(&digest_filled(2)));
    assert_eq!(o.get(7, 2), Some(&digest_filled(3)));
    assert_eq!(o.get(7, 3), Some(&digest_filled(4)));
    o.delete(7, 3);
    assert_eq!(o.count(7), 3);
    o.delete(7, 0);
    assert_eq!(o.get(7, 0), Some(&digest_filled(2)));
    assert_eq!(o.get(7, 1), Some(&digest_filled(3)));
}

#[test]
fn delete_of_the_last_entry_leaves_an_empty_field() {
    let mut o = ObjectValue::new(1);
    o.append(7, digest_filled(1));
    o.delete(7, 0);
    assert_eq!(o.count(7), 0);
    assert_eq!(o.fields.get(7), Some(&Vec::new()));
}

#[test]
fn delete_in_a_field_that_is_not_there_changes_nothing() {
    let mut o = ObjectValue::new(1);
    o.append(7, digest_filled(1));
    let before = o.clone();
    o.delete(8, 0);
    assert_eq!(o, before);
}

#[test]
fn set_replaces_an_entry() {
    let mut o = ObjectValue::new(1);
    o.append(7, digest_filled(1));
    o.append(7, digest_filled(2));
    o.set(7, 1, digest_filled(9));
    assert_eq!(o.get(7, 0), Some(&digest_filled(1)));
    assert_eq!(o.get(7, 1), Some(&digest_filled(9)));
    assert_eq!(o.count(7), 2);
}

#[test]
fn set_past_the_end_keeps_the_list() {
    let mut o = ObjectValue::new(1);
    o.append(7, digest_filled(1));
    o.set(7, 1, digest_filled(9));
    assert_eq!(o.count(7), 1);
    assert_eq!(o.get(7, 0), Some(&digest_filled(1)));
    o.set(8, 0, digest_filled(9));
    assert_eq!(o.count(8), 0);
    assert_eq!(o.fields.get(8), Some(&Vec::new()));
}

#[test]
fn ordered_map_keeps_keys_in_order() {
    let mut m: OrderedMap<u8> = OrderedMap::new();
    assert_eq!(m.len(), 0);
    m.insert(30, 3);
    m.insert(10, 1);
    m.insert(20, 2);
    m.insert(4000000000, 4);
    m.insert(0, 0);
    assert_eq!(m.len(), 5);
    let keys: Vec<u32> = (0..m.len()).map(|i| m.key_at(i)).collect();
    assert_eq!(keys, vec![0, 10, 20, 30, 4000000000]);
    let values: Vec<u8> = (0..m.len()).map(|i| *m.value_at(i)).collect();
    assert_eq!(values, vec![0, 1, 2, 3, 4]);
    assert_eq!(m.position(20), Some(2));
    assert_eq!(m.position(25), None);
    assert_eq!(m.get(30), Some(&3));
    assert_eq!(m.get(31), None);
}

#[test]
fn ordered_map_insert_replaces_under_the_same_key() {
    let mut m: OrderedMap<u8> = OrderedMap::new();
    m.insert(10, 1);
    m.insert(20, 2);
    m.insert(10, 7);
    assert_eq!(m.len(), 2);
    assert_eq!(m.get(10), Some(&7));
    assert_eq!(m.get(20), Some(&2));
    let copy = m.clone();
    assert_eq!(copy, m);
}

#[test]
fn selectors_compare_by_field_and_place() {
    let a = Selector { field_id: 1, index: 2 };
    assert_eq!(a, Selector { field_id: 1, index: 2 });
    assert_ne!(a, Selector { field_id: 1, index: 3 });
    assert_ne!(a, Selector { field_id: 2, index: 2 });
}
