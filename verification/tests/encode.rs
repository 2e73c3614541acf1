use zzz_codec::{to_string, Decimal, Node, Serializer, Value};

fn text(v: Value) -> String {
    to_string(&v).unwrap()
}

#[test]
fn encodes_null() {
    assert_eq!(text(Value::Null), "null");
}

#[test]
fn encodes_booleans() {
    assert_eq!(text(Value::Bool(true)), "true");
    assert_eq!(text(Value::Bool(false)), "false");
}

#[test]
fn encodes_integers() {
    assert_eq!(text(Value::I32(0)), "0");
    assert_eq!(text(Value::I32(7)), "7");
    assert_eq!(text(Value::I32(10)), "10");
    assert_eq!(text(Value::I32(-1)), "-1");
    assert_eq!(text(Value::I32(1234567890)), "1234567890");
    assert_eq!(text(Value::I32(i32::MAX)), "2147483647");
    assert_eq!(text(Value::I32(i32::MIN)), "-2147483648");
}

#[test]
fn encodes_floats() {
    let d = |negative, mantissa, exponent| Value::F32(Decimal { negative, mantissa, exponent });
    assert_eq!(text(d(false, 0, 0)), "0e0");
    assert_eq!(text(d(true, 0, 0)), "-0e0");
    assert_eq!(text(d(false, 15, -1)), "15e-1");
    assert_eq!(text(d(true, 4294967295, i32::MAX)), "-4294967295e2147483647");
    assert_eq!(text(d(false, 1, i32::MIN)), "1e-2147483648");
}

#[test]
fn encodes_strings_with_escapes() {
    assert_eq!(text(Value::Str(String::new())), "\"\"");
    assert_eq!(text(Value::Str("plain é".to_string())), "\"plain é\"");
    assert_eq!(text(Value::Str("\"".to_string())), "\"\\\"\"");
    assert_eq!(text(Value::Str("\\".to_string())), "\"\\\\\"");
    assert_eq!(text(Value::Str("a\nb\tc\rd".to_string())), "\"a\\nb\\tc\\rd\"");
}

#[test]
fn encodes_arrays() {
    assert_eq!(text(Value::Array(vec![])), "[]");
    assert_eq!(text(Value::Array(vec![Value::I32(1)])), "[1]");
    assert_eq!(text(Value::Array(vec![Value::I32(1), Value::Null, Value::Bool(true)])), "[1,null,true]");
    assert_eq!(text(Value::Array(vec![Value::Array(vec![]), Value::Array(vec![Value::Array(vec![])])])), "[[],[[]]]");
}

#[test]
fn encodes_maps_in_insertion_order() {
    assert_eq!(text(Value::Dict(vec![])), "{}");
    let v = Value::Dict(vec![
        (Value::Str("z".to_string()), Value::I32(1)),
        (Value::Str("a".to_string()), Value::I32(2)),
        (Value::I32(3), Value::Dict(vec![])),
        (Value::Str("a".to_string()), Value::I32(4)),
    ]);
    assert_eq!(text(v), "{\"z\":1,\"a\":2,3:{},\"a\":4}");
}

#[test]
fn encodes_variants() {
    assert_eq!(text(Value::EnumVariant("Unit".to_string(), Box::new(Value::Null))), "@\"Unit\"null");
    assert_eq!(
        text(Value::EnumVariant("A\"b".to_string(), Box::new(Value::EnumVariant(String::new(), Box::new(Value::I32(1)))))),
        "@\"A\\\"b\"@\"\"1"
    );
}

#[test]
fn encodes_nodes() {
    assert_eq!(text(Value::Node(Node::Tuple(vec![]))), "#[]");
    assert_eq!(text(Value::Node(Node::Record(vec![]))), "#{}");
    assert_eq!(text(Value::Node(Node::Tuple(vec![Value::I32(1), Value::I32(2)]))), "#[1,2]");
    assert_eq!(
        text(Value::Node(Node::Record(vec![(Value::Str("x".to_string()), Value::Node(Node::Tuple(vec![])))]))),
        "#{\"x\":#[]}"
    );
}

#[test]
fn encodes_nested_array() {
    let v = Value::Array(vec![
        Value::I32(-12),
        Value::Str("a\"b\\c\n".to_string()),
        Value::Array(vec![]),
        Value::Dict(vec![(Value::Str("k".to_string()), Value::Bool(true))]),
        Value::EnumVariant("Some".to_string(), Box::new(Value::I32(i32::MIN))),
        Value::Node(Node::Tuple(vec![
            Value::Null,
            Value::F32(Decimal { negative: true, mantissa: 15, exponent: -1 }),
        ])),
    ]);
    assert_eq!(
        text(v),
        "[-12,\"a\\\"b\\\\c\\n\",[],{\"k\":true},@\"Some\"-2147483648,#[null,-15e-1]]"
    );
}

#[test]
fn the_serializer_appends_to_what_it_wrote() {
    let mut ser = Serializer::new();
    ser.write_null();
    ser.write_bool(false);
    ser.write_i32(-40);
    ser.write_f32(Decimal { negative: false, mantissa: 2, exponent: 3 });
    ser.write_str("s");
    ser.write_array(&vec![Value::Null]);
    ser.write_map(&vec![(Value::I32(1), Value::I32(2))]);
    ser.write_enum("T", &Value::Null);
    ser.write_node(&Node::Tuple(vec![Value::Bool(true)]));
    ser.write_value(&Value::I32(9));
    assert_eq!(ser.finish(), "nullfalse-402e3\"s\"[null]{1:2}@\"T\"null#[true]9");
    assert_eq!(Serializer::new().finish(), "");
}

#[test]
fn clones_and_equality_follow_the_value() {
    let v = Value::Array(vec![
        Value::Dict(vec![(Value::Str("k".to_string()), Value::Node(Node::Record(vec![])))]),
        Value::EnumVariant("T".to_string(), Box::new(Value::F32(Decimal { negative: false, mantissa: 1, exponent: 0 }))),
    ]);
    let w = v.clone();
    assert_eq!(v, w);
    assert_eq!(text(v.clone()), text(w));
    assert_ne!(v, Value::Array(vec![]));
    assert_ne!(Value::Array(vec![]), Value::Node(Node::Tuple(vec![])));
    assert_ne!(Value::Dict(vec![]), Value::Node(Node::Record(vec![])));
    assert_ne!(Value::I32(1), Value::I32(2));
    assert_ne!(Value::Str("a".to_string()), Value::Str("b".to_string()));
    assert_ne!(
        Value::Array(vec![Value::I32(1), Value::I32(2)]),
        Value::Array(vec![Value::I32(1), Value::I32(3)])
    );
    assert_ne!(
        Value::EnumVariant("A".to_string(), Box::new(Value::Null)),
        Value::EnumVariant("B".to_string(), Box::new(Value::Null))
    );
    assert_eq!(Node::Tuple(vec![Value::Null]).clone(), Node::Tuple(vec![Value::Null]));
    assert_ne!(Node::Tuple(vec![]), Node::Record(vec![]));
}
