use zzz_codec::de::{chars_of, in_class};
use zzz_codec::grammar::Class;
use zzz_codec::{Deserializer, Error, Value};

#[test]
fn peek_does_not_move_the_cursor() {
    let mut de = Deserializer::from_str("ab");
    assert_eq!(de.peek(), Ok('a'));
    assert_eq!(de.peek(), Ok('a'));
    assert_eq!(de.advance(), Ok('a'));
    assert_eq!(de.peek(), Ok('b'));
    assert_eq!(de.advance(), Ok('b'));
    assert_eq!(de.peek(), Err(Error::Eof));
    assert_eq!(de.advance(), Err(Error::Eof));
    assert_eq!(de.end(), Ok(()));
}

#[test]
fn consume_expected_tells_exhaustion_from_mismatch() {
    let mut de = Deserializer::from_str("nul");
    assert_eq!(de.consume_expected("null", Error::ExpectedNull), Err(Error::Eof));
    assert_eq!(de.peek(), Ok('n'));
    let mut de = Deserializer::from_str("nuxl");
    assert_eq!(de.consume_expected("null", Error::ExpectedNull), Err(Error::ExpectedNull));
    assert_eq!(de.peek(), Ok('n'));
    let mut de = Deserializer::from_str("");
    assert_eq!(de.consume_expected(":", Error::ExpectedMapColon), Err(Error::Eof));
    let mut de = Deserializer::from_str("null,");
    assert_eq!(de.consume_expected("null", Error::ExpectedNull), Ok(()));
    assert_eq!(de.peek(), Ok(','));
    assert_eq!(de.consume_expected("", Error::Syntax), Ok(()));
    assert_eq!(de.peek(), Ok(','));
}

#[test]
fn white_space_is_blank_tab_and_line_ends() {
    let mut de = Deserializer::from_str(" \t\r\n x");
    de.skip_whitespace();
    assert_eq!(de.peek(), Ok('x'));
    de.skip_whitespace();
    assert_eq!(de.peek(), Ok('x'));
    let mut de = Deserializer::from_str("\u{a0}1");
    de.skip_whitespace();
    assert_eq!(de.peek(), Ok('\u{a0}'));
    assert_eq!(de.end(), Err(Error::TrailingCharacters));
}

#[test]
fn the_cursor_stops_behind_what_was_read() {
    let mut de = Deserializer::from_str(" true,-5 , 2.50e1]\"s\"x");
    assert_eq!(de.parse_bool(), Ok(true));
    assert_eq!(de.advance(), Ok(','));
    assert_eq!(de.parse_i32(), Ok(-5));
    assert_eq!(de.peek(), Ok(' '));
    de.skip_whitespace();
    assert_eq!(de.advance(), Ok(','));
    assert_eq!(de.parse_number(), Ok(Value::F32(zzz_codec::Decimal {
        negative: false,
        mantissa: 250,
        exponent: -1,
    })));
    assert_eq!(de.advance(), Ok(']'));
    assert_eq!(de.parse_string(), Ok("s".to_string()));
    assert_eq!(de.peek(), Ok('x'));
}

#[test]
fn typed_integer_stops_before_a_point() {
    let mut de = Deserializer::from_str("1.5");
    assert_eq!(de.parse_i32(), Ok(1));
    assert_eq!(de.peek(), Ok('.'));
}

#[test]
fn character_classes() {
    for c in [' ', '\t', '\n', '\r'] {
        assert!(in_class(c, Class::Space));
        assert!(!in_class(c, Class::Integer));
        assert!(!in_class(c, Class::Float));
    }
    for c in ['-', '0', '5', '9'] {
        assert!(!in_class(c, Class::Space));
        assert!(in_class(c, Class::Integer));
        assert!(in_class(c, Class::Float));
    }
    for c in ['.', 'e'] {
        assert!(!in_class(c, Class::Integer));
        assert!(in_class(c, Class::Float));
    }
    for c in ['+', 'E', ',', ']', '}', ':', '/', ':'] {
        assert!(!in_class(c, Class::Integer));
        assert!(!in_class(c, Class::Float));
    }
}

#[test]
fn chars_of_keeps_every_character() {
    assert_eq!(chars_of(""), Vec::<char>::new());
    assert_eq!(chars_of("aé\u{1F600}z"), vec!['a', 'é', '\u{1F600}', 'z']);
}
