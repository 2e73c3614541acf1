use zzz_codec::Error;

#[test]
fn custom_carries_its_message() {
    let e = Error::custom("field `x` is missing");
    assert_eq!(e, Error::Message("field `x` is missing".to_string()));
    assert_eq!(e.to_string(), "field `x` is missing");
}

#[test]
fn every_tag_has_its_own_sentence() {
    let all = vec![
        (Error::Eof, "unexpected end of input"),
        (Error::Syntax, "malformed syntax"),
        (Error::ExpectedBoolean, "expected boolean"),
        (Error::ExpectedF32, "expected 32-bit float"),
        (Error::ExpectedI32, "expected 32-bit integer"),
        (Error::ExpectedString, "expected string"),
        (Error::ExpectedNode, "expected node"),
        (Error::ExpectedNull, "expected null"),
        (Error::ExpectedArray, "expected array"),
        (Error::ExpectedArrayComma, "expected array comma"),
        (Error::ExpectedArrayEnd, "expected array end"),
        (Error::ExpectedEnum, "expected enum"),
        (Error::ExpectedMap, "expected map"),
        (Error::ExpectedMapComma, "expected map comma"),
        (Error::ExpectedMapColon, "expected map colon"),
        (Error::ExpectedMapEnd, "expected map end"),
        (Error::TrailingCharacters, "trailing characters"),
    ];
    for (i, (e, text)) in all.iter().enumerate() {
        assert_eq!(e.to_string(), *text);
        for (j, (other, _)) in all.iter().enumerate() {
            assert_eq!(e == other, i == j);
            assert_eq!(e.to_string() == other.to_string(), i == j);
        }
    }
}

#[test]
fn errors_compare_by_value() {
    assert_eq!(Error::Message("a".to_string()), Error::Message("a".to_string()));
    assert_ne!(Error::Message("a".to_string()), Error::Message("b".to_string()));
    assert_ne!(Error::Message("unexpected end of input".to_string()), Error::Eof);
    assert_ne!(Error::Eof, Error::Message("unexpected end of input".to_string()));
    assert_eq!(Error::ExpectedMapEnd.clone(), Error::ExpectedMapEnd);
    assert_eq!(Error::custom("x").clone(), Error::custom("x"));
}
