use zzz_codec::{from_str, to_string, Decimal, Deserializer, Error, Node, Shape, Value};

#[test]
fn truncated_boolean_is_expected_boolean() {
    let mut de = Deserializer::from_str("tru");
    assert_eq!(de.parse_bool(), Err(Error::ExpectedBoolean));
    assert_eq!(from_str("tru"), Err(Error::ExpectedBoolean));
}

#[test]
fn empty_input_is_eof_for_every_primitive() {
    assert_eq!(Deserializer::from_str("").parse_bool(), Err(Error::Eof));
    assert_eq!(Deserializer::from_str("").parse_null(), Err(Error::Eof));
    assert_eq!(Deserializer::from_str("").parse_i32(), Err(Error::Eof));
    assert_eq!(Deserializer::from_str("").parse_f32(), Err(Error::Eof));
    assert_eq!(Deserializer::from_str("").parse_string(), Err(Error::Eof));
    assert_eq!(Deserializer::from_str("  \n").parse_value(), Err(Error::Eof));
    assert_eq!(from_str(""), Err(Error::Eof));
}

#[test]
fn trailing_garbage_after_null() {
    assert_eq!(from_str("null!"), Err(Error::TrailingCharacters));
    assert_eq!(from_str("null  x"), Err(Error::TrailingCharacters));
    assert_eq!(from_str("null \n\t "), Ok(Value::Null));
}

#[test]
fn array_delimiters_are_strict() {
    assert_eq!(from_str("[1 2]"), Err(Error::ExpectedArrayComma));
    assert_eq!(from_str("[1,2"), Err(Error::ExpectedArrayEnd));
    assert_eq!(from_str("["), Err(Error::ExpectedArrayEnd));
    assert_eq!(from_str("[1,"), Err(Error::Eof));
    assert_eq!(from_str("[1,2]"), Ok(Value::Array(vec![Value::I32(1), Value::I32(2)])));
    assert_eq!(from_str("[]"), Ok(Value::Array(vec![])));
}

#[test]
fn map_separators_are_strict() {
    assert_eq!(from_str("{\"a\" 1}"), Err(Error::ExpectedMapColon));
    assert_eq!(from_str("{\"a\":1 \"b\":2}"), Err(Error::ExpectedMapComma));
    assert_eq!(from_str("{\"a\":1"), Err(Error::ExpectedMapEnd));
    assert_eq!(from_str("{"), Err(Error::ExpectedMapEnd));
    assert_eq!(from_str("{}"), Ok(Value::Dict(vec![])));
    assert_eq!(
        from_str("{\"b\":1,\"a\":2}"),
        Ok(Value::Dict(vec![
            (Value::Str("b".to_string()), Value::I32(1)),
            (Value::Str("a".to_string()), Value::I32(2)),
        ]))
    );
}

#[test]
fn unknown_variant_tag_is_expected_enum() {
    let variants = vec!["Red".to_string(), "Green".to_string()];
    let mut de = Deserializer::from_str("@\"Blue\" null");
    assert_eq!(de.parse_enum_of(&variants), Err(Error::ExpectedEnum));
    let mut de = Deserializer::from_str("@\"Green\" 7");
    assert_eq!(
        de.parse_enum_of(&variants),
        Ok(Value::EnumVariant("Green".to_string(), Box::new(Value::I32(7))))
    );
    assert_eq!(Deserializer::from_str("@Red").parse_enum(), Err(Error::ExpectedEnum));
    assert_eq!(Deserializer::from_str("Red").parse_enum(), Err(Error::ExpectedEnum));
}

#[test]
fn every_written_tag_is_read_back() {
    let variants = vec!["Red".to_string(), "Gr\"een".to_string()];
    for tag in variants.iter() {
        let v = Value::EnumVariant(tag.clone(), Box::new(Value::Null));
        let text = to_string(&v).unwrap();
        assert_eq!(Deserializer::from_str(&text).parse_enum_of(&variants), Ok(v));
    }
}

#[test]
fn numerals() {
    assert_eq!(from_str("-2147483648"), Ok(Value::I32(i32::MIN)));
    assert_eq!(from_str("2147483647"), Ok(Value::I32(i32::MAX)));
    assert_eq!(from_str("2147483648"), Err(Error::ExpectedI32));
    assert_eq!(from_str("-"), Err(Error::ExpectedI32));
    assert_eq!(from_str("1-2"), Err(Error::ExpectedI32));
    assert_eq!(from_str("007"), Ok(Value::I32(7)));
    assert_eq!(
        from_str("1.5"),
        Ok(Value::F32(Decimal { negative: false, mantissa: 15, exponent: -1 }))
    );
    assert_eq!(
        from_str("-12.25e3"),
        Ok(Value::F32(Decimal { negative: true, mantissa: 1225, exponent: 1 }))
    );
    assert_eq!(
        from_str("4e-2"),
        Ok(Value::F32(Decimal { negative: false, mantissa: 4, exponent: -2 }))
    );
    assert_eq!(from_str("1."), Err(Error::ExpectedF32));
    assert_eq!(from_str("1e"), Err(Error::ExpectedF32));
    assert_eq!(from_str("1e5e5"), Err(Error::ExpectedF32));
    assert_eq!(from_str("4294967296e0"), Err(Error::ExpectedF32));
    assert_eq!(
        Deserializer::from_str("5").parse_f32(),
        Ok(Decimal { negative: false, mantissa: 5, exponent: 0 })
    );
    assert_eq!(Deserializer::from_str("x").parse_i32(), Err(Error::ExpectedI32));
    assert_eq!(Deserializer::from_str("x").parse_f32(), Err(Error::ExpectedF32));
}

#[test]
fn strings() {
    assert_eq!(from_str("\"a\\n\\\"b\\\\\""), Ok(Value::Str("a\n\"b\\".to_string())));
    assert_eq!(from_str("\"abc"), Err(Error::ExpectedString));
    assert_eq!(from_str("\"a\\x\""), Err(Error::ExpectedString));
    assert_eq!(Deserializer::from_str("abc").parse_string(), Err(Error::ExpectedString));
}

#[test]
fn nodes() {
    assert_eq!(
        from_str("#[1, null]"),
        Ok(Value::Node(Node::Tuple(vec![Value::I32(1), Value::Null])))
    );
    assert_eq!(
        from_str("# { 1 : 2 }"),
        Ok(Value::Node(Node::Record(vec![(Value::I32(1), Value::I32(2))])))
    );
    assert_eq!(from_str("#1"), Err(Error::ExpectedNode));
    assert_eq!(from_str("#"), Err(Error::Eof));
    assert_eq!(
        Deserializer::from_str("#[1,2]").parse_node_of(Shape::Tuple(3)),
        Err(Error::ExpectedNode)
    );
    assert_eq!(
        Deserializer::from_str("#[1,2]").parse_node_of(Shape::Record(2)),
        Err(Error::ExpectedNode)
    );
    assert_eq!(
        Deserializer::from_str("#[1,2]").parse_node_of(Shape::Tuple(2)),
        Ok(Node::Tuple(vec![Value::I32(1), Value::I32(2)]))
    );
    assert_eq!(Deserializer::from_str("[1]").parse_node(), Err(Error::ExpectedNode));
}

#[test]
fn unknown_lookahead_is_syntax() {
    assert_eq!(from_str("?"), Err(Error::Syntax));
    assert_eq!(from_str("[1,]"), Err(Error::Syntax));
    assert_eq!(from_str("nul"), Err(Error::ExpectedNull));
    assert_eq!(from_str("nxll"), Err(Error::ExpectedNull));
    assert_eq!(Deserializer::from_str("1").parse_array(), Err(Error::ExpectedArray));
    assert_eq!(Deserializer::from_str("1").parse_map(), Err(Error::ExpectedMap));
}

#[test]
fn round_trip_of_a_nested_value() {
    let v = Value::Array(vec![
        Value::I32(-12),
        Value::Str("a\"b\\c\n\t\r é".to_string()),
        Value::Array(vec![]),
        Value::Dict(vec![(Value::Str("k".to_string()), Value::Bool(true))]),
        Value::EnumVariant("Some".to_string(), Box::new(Value::I32(i32::MIN))),
        Value::Node(Node::Tuple(vec![
            Value::Null,
            Value::F32(Decimal { negative: true, mantissa: 15, exponent: -1 }),
        ])),
        Value::Node(Node::Record(vec![(Value::Bool(false), Value::Dict(vec![]))])),
    ]);
    let text = to_string(&v).unwrap();
    assert_eq!(from_str(&text), Ok(v));
}

#[test]
fn white_space_between_tokens_changes_nothing() {
    let compact = "[1,{\"a\":@\"T\"#[true,2e0]},null]";
    let spaced = " [ 1 ,\n{ \"a\" :\t@ \"T\" # [ true , 2e0 ] } , null ]\r\n";
    assert_eq!(from_str(compact), from_str(spaced));
    assert!(from_str(compact).is_ok());
}

#[test]
fn round_trip_of_every_kind() {
    let d = |negative, mantissa, exponent| Value::F32(Decimal { negative, mantissa, exponent });
    let samples = vec![
        Value::Null,
        Value::Bool(true),
        Value::Bool(false),
        Value::I32(0),
        Value::I32(i32::MIN),
        Value::I32(i32::MAX),
        d(false, 0, 0),
        d(true, 0, 0),
        d(true, u32::MAX, i32::MIN),
        d(false, u32::MAX, i32::MAX),
        Value::Str(String::new()),
        Value::Str("\\\"\n\t\r\\n [1,2] {} @ # null".to_string()),
        Value::Array(vec![]),
        Value::Array(vec![Value::I32(1), d(false, 1, 1), Value::I32(-1)]),
        Value::Dict(vec![]),
        Value::Dict(vec![(Value::Array(vec![]), Value::Dict(vec![])), (Value::Null, Value::Null)]),
        Value::EnumVariant(String::new(), Box::new(Value::Null)),
        Value::EnumVariant("e".to_string(), Box::new(d(false, 5, -5))),
        Value::Node(Node::Tuple(vec![])),
        Value::Node(Node::Record(vec![])),
        Value::Node(Node::Record(vec![(Value::I32(1), Value::Node(Node::Tuple(vec![Value::I32(2)])))])),
    ];
    for v in samples.iter() {
        let text = to_string(v).unwrap();
        assert_eq!(from_str(&text).as_ref(), Ok(v), "{}", text);
    }
    let all = Value::Array(samples);
    let text = to_string(&all).unwrap();
    assert_eq!(from_str(&text), Ok(all));
}

#[test]
fn map_entries_keep_their_order() {
    let text = "{\"z\":1,\"a\":2,\"z\":3}";
    let v = from_str(text).unwrap();
    assert_eq!(
        v,
        Value::Dict(vec![
            (Value::Str("z".to_string()), Value::I32(1)),
            (Value::Str("a".to_string()), Value::I32(2)),
            (Value::Str("z".to_string()), Value::I32(3)),
        ])
    );
    assert_eq!(to_string(&v).unwrap(), text);
}

#[test]
fn errors_come_from_the_earliest_place() {
    assert_eq!(from_str("[tru, ?]"), Err(Error::ExpectedBoolean));
    assert_eq!(from_str("[1 ?"), Err(Error::ExpectedArrayComma));
    assert_eq!(from_str("{1:?} x"), Err(Error::Syntax));
    assert_eq!(from_str("{1:2} x"), Err(Error::TrailingCharacters));
    assert_eq!(from_str("[\"a] 1"), Err(Error::ExpectedString));
    assert_eq!(from_str("@\"T\""), Err(Error::Eof));
    assert_eq!(from_str("@"), Err(Error::Eof));
    assert_eq!(from_str("@\"T"), Err(Error::ExpectedEnum));
    assert_eq!(from_str("@ 1"), Err(Error::ExpectedEnum));
    assert_eq!(from_str("#[1;"), Err(Error::ExpectedArrayComma));
    assert_eq!(from_str("#{1:2;"), Err(Error::ExpectedMapComma));
    assert_eq!(from_str("{1"), Err(Error::Eof));
    assert_eq!(from_str("{1}"), Err(Error::ExpectedMapColon));
    assert_eq!(from_str("{1:2,}"), Err(Error::Syntax));
}

#[test]
fn shaped_nodes_and_tagged_variants_fail_before_their_contents() {
    assert_eq!(
        Deserializer::from_str("#{1 2}").parse_node_of(Shape::Tuple(1)),
        Err(Error::ExpectedNode)
    );
    assert_eq!(
        Deserializer::from_str("#{1 2}").parse_node_of(Shape::Record(1)),
        Err(Error::ExpectedMapColon)
    );
    assert_eq!(
        Deserializer::from_str("#{1:2}").parse_node_of(Shape::Record(1)),
        Ok(Node::Record(vec![(Value::I32(1), Value::I32(2))]))
    );
    assert_eq!(
        Deserializer::from_str("#{1:2}").parse_node_of(Shape::Record(0)),
        Err(Error::ExpectedNode)
    );
    assert_eq!(Deserializer::from_str("").parse_node_of(Shape::Tuple(0)), Err(Error::Eof));
    assert_eq!(Deserializer::from_str("#").parse_node_of(Shape::Tuple(0)), Err(Error::Eof));
    assert_eq!(Deserializer::from_str("5").parse_node_of(Shape::Tuple(0)), Err(Error::ExpectedNode));
    let none: Vec<String> = vec![];
    assert_eq!(
        Deserializer::from_str("@\"T\" ?").parse_enum_of(&none),
        Err(Error::ExpectedEnum)
    );
    assert_eq!(
        Deserializer::from_str("@\"T\" ?").parse_enum_of(&vec!["T".to_string()]),
        Err(Error::Syntax)
    );
    assert_eq!(Deserializer::from_str("").parse_enum_of(&none), Err(Error::Eof));
}

#[test]
fn float_numerals_with_fraction_and_exponent() {
    let d = |negative, mantissa, exponent| Ok(Value::F32(Decimal { negative, mantissa, exponent }));
    assert_eq!(from_str("0.0"), d(false, 0, -1));
    assert_eq!(from_str("-0.5"), d(true, 5, -1));
    assert_eq!(from_str("3.4028235e38"), d(false, 34028235, 31));
    assert_eq!(from_str("1e-45"), d(false, 1, -45));
    assert_eq!(from_str("1.0e-2147483647"), d(false, 10, i32::MIN));
    assert_eq!(from_str("1.00e-2147483647"), Err(Error::ExpectedF32));
    assert_eq!(from_str("1e2147483648"), Err(Error::ExpectedF32));
    assert_eq!(from_str("42949672.95"), d(false, 4294967295, -2));
    assert_eq!(from_str("42949672.96"), Err(Error::ExpectedF32));
    assert_eq!(from_str("00000000000001e0"), d(false, 1, 0));
    assert_eq!(from_str("1.2.3"), Err(Error::ExpectedF32));
    assert_eq!(from_str("-.5"), Err(Error::ExpectedF32));
    assert_eq!(from_str("-e1"), Err(Error::ExpectedF32));
    assert_eq!(from_str("1e-"), Err(Error::ExpectedF32));
    assert_eq!(from_str("1e1.5"), Err(Error::ExpectedF32));
    assert_eq!(from_str(".5"), Err(Error::Syntax));
}
