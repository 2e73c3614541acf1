//! The failures that encoding and decoding can report.
use vstd::prelude::*;

verus! {

/// A failure of the codec.
///
/// `Message` carries free text and is raised by the layer that maps values
/// of other types to and from the value model. Every other variant names
/// the token that the decoder needed at its cursor and did not find.
#[derive(Clone, Debug, Eq)]
pub enum Error {
    Message(String),
    Eof,
    Syntax,
    ExpectedBoolean,
    ExpectedF32,
    ExpectedI32,
    ExpectedString,
    ExpectedNode,
    ExpectedNull,
    ExpectedArray,
    ExpectedArrayComma,
    ExpectedArrayEnd,
    ExpectedEnum,
    ExpectedMap,
    ExpectedMapComma,
    ExpectedMapColon,
    ExpectedMapEnd,
    TrailingCharacters,
}

impl PartialEq for Error {
    /// Two errors are equal where they are the same variant and, for a
    /// `Message`, carry the same text.
    fn eq(&self, other: &Error) -> (same: bool) {
        match self {
            Error::Message(mine) => match other {
                Error::Message(theirs) => *mine == *theirs,
                _ => false,
            },
            Error::Eof => matches!(other, Error::Eof),
            Error::Syntax => matches!(other, Error::Syntax),
            Error::ExpectedBoolean => matches!(other, Error::ExpectedBoolean),
            Error::ExpectedF32 => matches!(other, Error::ExpectedF32),
            Error::ExpectedI32 => matches!(other, Error::ExpectedI32),
            Error::ExpectedString => matches!(other, Error::ExpectedString),
            Error::ExpectedNode => matches!(other, Error::ExpectedNode),
            Error::ExpectedNull => matches!(other, Error::ExpectedNull),
            Error::ExpectedArray => matches!(other, Error::ExpectedArray),
            Error::ExpectedArrayComma => matches!(other, Error::ExpectedArrayComma),
            Error::ExpectedArrayEnd => matches!(other, Error::ExpectedArrayEnd),
            Error::ExpectedEnum => matches!(other, Error::ExpectedEnum),
            Error::ExpectedMap => matches!(other, Error::ExpectedMap),
            Error::ExpectedMapComma => matches!(other, Error::ExpectedMapComma),
            Error::ExpectedMapColon => matches!(other, Error::ExpectedMapColon),
            Error::ExpectedMapEnd => matches!(other, Error::ExpectedMapEnd),
            Error::TrailingCharacters => matches!(other, Error::TrailingCharacters),
        }
    }
}

impl vstd::std_specs::cmp::PartialEqSpecImpl for Error {
    open spec fn obeys_eq_spec() -> bool {
        true
    }

    open spec fn eq_spec(&self, other: &Error) -> bool {
        self.same_as(*other)
    }
}

impl Error {
    /// Whether two errors are the same variant and, where they are
    /// messages, carry the same text.
    pub open spec fn same_as(self, other: Error) -> bool {
        match (self, other) {
            (Error::Message(mine), Error::Message(theirs)) => mine@ == theirs@,
            (Error::Message(_), _) => false,
            (_, Error::Message(_)) => false,
            _ => self == other,
        }
    }

    /// The human-readable text of this error: the carried text of a
    /// `Message`, and one fixed sentence for each other variant.
    pub open spec fn text(self) -> Seq<char> {
        match self {
            Error::Message(msg) => msg@,
            Error::Eof => "unexpected end of input"@,
            Error::Syntax => "malformed syntax"@,
            Error::ExpectedBoolean => "expected boolean"@,
            Error::ExpectedF32 => "expected 32-bit float"@,
            Error::ExpectedI32 => "expected 32-bit integer"@,
            Error::ExpectedString => "expected string"@,
            Error::ExpectedNode => "expected node"@,
            Error::ExpectedNull => "expected null"@,
            Error::ExpectedArray => "expected array"@,
            Error::ExpectedArrayComma => "expected array comma"@,
            Error::ExpectedArrayEnd => "expected array end"@,
            Error::ExpectedEnum => "expected enum"@,
            Error::ExpectedMap => "expected map"@,
            Error::ExpectedMapComma => "expected map comma"@,
            Error::ExpectedMapColon => "expected map colon"@,
            Error::ExpectedMapEnd => "expected map end"@,
            Error::TrailingCharacters => "trailing characters"@,
        }
    }

    /// Whether this error was raised by the grammar, not by a message.
    pub open spec fn is_syntactic(self) -> bool {
        !(self is Message)
    }

    /// An error that carries the given message.
    pub fn custom(msg: &str) -> (err: Error)
        ensures
            err matches Error::Message(m) && m@ == msg@,
    {
        Error::Message(String::from_str(msg))
    }

    /// Renders this error as text.
    pub fn to_string(&self) -> (out: String)
        ensures
            out@ == self.text(),
    {
        match self {
            Error::Message(msg) => msg.clone(),
            Error::Eof => String::from_str("unexpected end of input"),
            Error::Syntax => String::from_str("malformed syntax"),
            Error::ExpectedBoolean => String::from_str("expected boolean"),
            Error::ExpectedF32 => String::from_str("expected 32-bit float"),
            Error::ExpectedI32 => String::from_str("expected 32-bit integer"),
            Error::ExpectedString => String::from_str("expected string"),
            Error::ExpectedNode => String::from_str("expected node"),
            Error::ExpectedNull => String::from_str("expected null"),
            Error::ExpectedArray => String::from_str("expected array"),
            Error::ExpectedArrayComma => String::from_str("expected array comma"),
            Error::ExpectedArrayEnd => String::from_str("expected array end"),
            Error::ExpectedEnum => String::from_str("expected enum"),
            Error::ExpectedMap => String::from_str("expected map"),
            Error::ExpectedMapComma => String::from_str("expected map comma"),
            Error::ExpectedMapColon => String::from_str("expected map colon"),
            Error::ExpectedMapEnd => String::from_str("expected map end"),
            Error::TrailingCharacters => String::from_str("trailing characters"),
        }
    }
}

} // verus!
