//! What the decoder reads from a text.
//!
//! Each function takes the text that is left and gives either what it read
//! together with the text that is left behind it, or the error of the first
//! place where the text is not what the notation asks for.
use vstd::prelude::*;
use crate::error::Error;
use crate::grammar::{
    decimal_value, false_text, int_value, lemma_decimal_value_nonempty, lemma_int_value_nonempty,
    lemma_run_len_bound, lemma_unquote_shrinks, null_text, run_len, skip_spaces, true_text,
    unquote, Class,
};
use crate::value::{Shape, Tree};

verus! {

/// Reading one fixed token: what is left behind the token where the text
/// starts with it, `Eof` where the text ends before the token does, and
/// `tag` where a character differs.
pub open spec fn expect(s: Seq<char>, token: Seq<char>, tag: Error) -> Result<Seq<char>, Error> {
    if token.is_prefix_of(s) {
        Ok(s.skip(token.len() as int))
    } else if s.is_prefix_of(token) {
        Err(Error::Eof)
    } else {
        Err(tag)
    }
}

/// Reads `null`: on a text that does not start with it the error is
/// `ExpectedNull`, also where the text ends within the word.
pub open spec fn parse_null(s: Seq<char>) -> Result<(Tree, Seq<char>), Error> {
    let t = skip_spaces(s);
    if t.len() == 0 {
        Err(Error::Eof)
    } else if null_text().is_prefix_of(t) {
        Ok((Tree::Null, t.skip(4)))
    } else {
        Err(Error::ExpectedNull)
    }
}

/// Reads `true` or `false`: on a text that starts with neither the error is
/// `ExpectedBoolean`, also where the text ends within the word.
pub open spec fn parse_bool(s: Seq<char>) -> Result<(Tree, Seq<char>), Error> {
    let t = skip_spaces(s);
    if t.len() == 0 {
        Err(Error::Eof)
    } else if true_text().is_prefix_of(t) {
        Ok((Tree::Bool(true), t.skip(4)))
    } else if false_text().is_prefix_of(t) {
        Ok((Tree::Bool(false), t.skip(5)))
    } else {
        Err(Error::ExpectedBoolean)
    }
}

/// Reads the longest run of sign and digits, which must be the numeral of
/// a 32-bit integer.
pub open spec fn parse_i32(s: Seq<char>) -> Result<(Tree, Seq<char>), Error> {
    let t = skip_spaces(s);
    let n = run_len(t, Class::Integer) as int;
    if t.len() == 0 {
        Err(Error::Eof)
    } else {
        match int_value(t.take(n)) {
            Some(v) => Ok((Tree::I32(v), t.skip(n))),
            None => Err(Error::ExpectedI32),
        }
    }
}

/// Reads the longest run of sign, digits, point and `e`, which must be the
/// numeral of a float.
pub open spec fn parse_f32(s: Seq<char>) -> Result<(Tree, Seq<char>), Error> {
    let t = skip_spaces(s);
    let n = run_len(t, Class::Float) as int;
    if t.len() == 0 {
        Err(Error::Eof)
    } else {
        match decimal_value(t.take(n)) {
            Some(d) => Ok((Tree::F32(d), t.skip(n))),
            None => Err(Error::ExpectedF32),
        }
    }
}

/// Reads a numeral: a float where a point or an `e` follows the leading
/// sign and digits, an integer otherwise.
pub open spec fn parse_number(s: Seq<char>) -> Result<(Tree, Seq<char>), Error> {
    let t = skip_spaces(s);
    let n = run_len(t, Class::Integer) as int;
    if n < t.len() && (t[n] == '.' || t[n] == 'e') {
        parse_f32(s)
    } else {
        parse_i32(s)
    }
}

/// Reads a string: the text between its quotes, with the escapes undone.
pub open spec fn parse_string(s: Seq<char>) -> Result<(Seq<char>, Seq<char>), Error> {
    let t = skip_spaces(s);
    if t.len() == 0 {
        Err(Error::Eof)
    } else if t[0] != '"' {
        Err(Error::ExpectedString)
    } else {
        match unquote(t.skip(1)) {
            Some(found) => Ok(found),
            None => Err(Error::ExpectedString),
        }
    }
}

/// Reads `@` and the tag of a variant.
pub open spec fn parse_tag(s: Seq<char>) -> Result<(Seq<char>, Seq<char>), Error> {
    match expect(skip_spaces(s), seq!['@'], Error::ExpectedEnum) {
        Err(e) => Err(e),
        Ok(rest) => match parse_string(rest) {
            Ok(found) => Ok(found),
            Err(Error::Eof) => Err(Error::Eof),
            Err(_) => Err(Error::ExpectedEnum),
        },
    }
}

/// What `parse_string` leaves is shorter than what it was given, and its
/// error is no message.
pub proof fn lemma_parse_string_outcome(s: Seq<char>)
    ensures
        parse_string(s) matches Ok((_, rest)) ==> rest.len() < s.len(),
        parse_string(s) matches Err(e) ==> e.is_syntactic(),
{
    lemma_run_len_bound(s, Class::Space);
    let t = skip_spaces(s);
    if t.len() > 0 {
        lemma_unquote_shrinks(t.skip(1));
    }
}

/// What `parse_tag` leaves is shorter than what it was given, and its error
/// is no message.
pub proof fn lemma_parse_tag_outcome(s: Seq<char>)
    ensures
        parse_tag(s) matches Ok((_, rest)) ==> rest.len() < s.len(),
        parse_tag(s) matches Err(e) ==> e.is_syntactic(),
{
    lemma_run_len_bound(s, Class::Space);
    let t = skip_spaces(s);
    if expect(t, seq!['@'], Error::ExpectedEnum) is Ok {
        lemma_parse_string_outcome(t.skip(1));
    }
}

/// Reads a value, whatever its kind: the first character that is no white
/// space decides which.
pub open spec fn parse_value(s: Seq<char>) -> Result<(Tree, Seq<char>), Error>
    decreases s.len(), 1nat,
{
    let t = skip_spaces(s);
    if t.len() == 0 {
        Err(Error::Eof)
    } else if t[0] == 'n' {
        parse_null(s)
    } else if t[0] == 't' || t[0] == 'f' {
        parse_bool(s)
    } else if t[0] == '-' || ('0' <= t[0] <= '9') {
        parse_number(s)
    } else if t[0] == '"' {
        match parse_string(s) {
            Ok((text, rest)) => Ok((Tree::Str(text), rest)),
            Err(e) => Err(e),
        }
    } else if t[0] == '[' {
        match parse_array(s) {
            Ok((items, rest)) => Ok((Tree::Array(items), rest)),
            Err(e) => Err(e),
        }
    } else if t[0] == '{' {
        match parse_map(s) {
            Ok((entries, rest)) => Ok((Tree::Dict(entries), rest)),
            Err(e) => Err(e),
        }
    } else if t[0] == '@' {
        parse_enum(s)
    } else if t[0] == '#' {
        parse_node(s)
    } else {
        Err(Error::Syntax)
    }
}

/// Reads an array: `[`, then either `]` or items with a comma between
/// neighbours and `]` behind the last.
pub open spec fn parse_array(s: Seq<char>) -> Result<(Seq<Tree>, Seq<char>), Error>
    decreases s.len(), 0nat,
{
    match expect(skip_spaces(s), seq!['['], Error::ExpectedArray) {
        Err(e) => Err(e),
        Ok(rest) => {
            let u = skip_spaces(rest);
            if u.len() == 0 {
                Err(Error::ExpectedArrayEnd)
            } else if u[0] == ']' {
                Ok((Seq::empty(), u.skip(1)))
            } else {
                proof {
                    lemma_run_len_bound(s, Class::Space);
                    lemma_run_len_bound(rest, Class::Space);
                }
                parse_items(u)
            }
        },
    }
}

/// Reads the items of an array from the first item on, and the closing
/// bracket. (The test of the lengths is there for the recursion to end. A
/// value that was read took at least one character, so it never fails:
/// see `lemma_parse_items_next`.)
pub open spec fn parse_items(s: Seq<char>) -> Result<(Seq<Tree>, Seq<char>), Error>
    decreases s.len(), 2nat,
{
    match parse_value(s) {
        Err(e) => Err(e),
        Ok((item, rest)) => {
            let u = skip_spaces(rest);
            if u.len() == 0 {
                Err(Error::ExpectedArrayEnd)
            } else if u[0] == ']' {
                Ok((seq![item], u.skip(1)))
            } else if u[0] == ',' && u.len() <= s.len() {
                match parse_items(u.skip(1)) {
                    Ok((items, last)) => Ok((seq![item] + items, last)),
                    Err(e) => Err(e),
                }
            } else {
                Err(Error::ExpectedArrayComma)
            }
        },
    }
}

/// Reads a map: `{`, then either `}` or entries with a comma between
/// neighbours and `}` behind the last.
pub open spec fn parse_map(s: Seq<char>) -> Result<(Seq<(Tree, Tree)>, Seq<char>), Error>
    decreases s.len(), 0nat,
{
    match expect(skip_spaces(s), seq!['{'], Error::ExpectedMap) {
        Err(e) => Err(e),
        Ok(rest) => {
            let u = skip_spaces(rest);
            if u.len() == 0 {
                Err(Error::ExpectedMapEnd)
            } else if u[0] == '}' {
                Ok((Seq::empty(), u.skip(1)))
            } else {
                proof {
                    lemma_run_len_bound(s, Class::Space);
                    lemma_run_len_bound(rest, Class::Space);
                }
                parse_entries(u)
            }
        },
    }
}

/// Reads the entries of a map from the first key on, each as key, colon,
/// value, and the closing brace. (The tests of the lengths never fail, as
/// in `parse_items`: see `lemma_parse_entries_next`.)
pub open spec fn parse_entries(s: Seq<char>) -> Result<(Seq<(Tree, Tree)>, Seq<char>), Error>
    decreases s.len(), 2nat,
{
    match parse_value(s) {
        Err(e) => Err(e),
        Ok((key, after_key)) => match expect(
            skip_spaces(after_key),
            seq![':'],
            Error::ExpectedMapColon,
        ) {
            Err(e) => Err(e),
            Ok(after_colon) => if after_colon.len() < s.len() {
                match parse_value(after_colon) {
                    Err(e) => Err(e),
                    Ok((value, rest)) => {
                        let u = skip_spaces(rest);
                        if u.len() == 0 {
                            Err(Error::ExpectedMapEnd)
                        } else if u[0] == '}' {
                            Ok((seq![(key, value)], u.skip(1)))
                        } else if u[0] == ',' && u.len() <= s.len() {
                            match parse_entries(u.skip(1)) {
                                Ok((entries, last)) => Ok((seq![(key, value)] + entries, last)),
                                Err(e) => Err(e),
                            }
                        } else {
                            Err(Error::ExpectedMapComma)
                        }
                    },
                }
            } else {
                Err(Error::ExpectedMapColon)
            },
        },
    }
}

/// Reads a variant: `@`, its tag, then its payload.
pub open spec fn parse_enum(s: Seq<char>) -> Result<(Tree, Seq<char>), Error>
    decreases s.len(), 0nat,
{
    match parse_tag(s) {
        Err(e) => Err(e),
        Ok((tag, rest)) => {
            proof {
                lemma_parse_tag_outcome(s);
            }
            match parse_value(rest) {
                Ok((payload, last)) => Ok((Tree::Enum(tag, Box::new(payload)), last)),
                Err(e) => Err(e),
            }
        },
    }
}

/// Reads a node: `#`, then its fields as an array or as a map.
pub open spec fn parse_node(s: Seq<char>) -> Result<(Tree, Seq<char>), Error>
    decreases s.len(), 0nat,
{
    match expect(skip_spaces(s), seq!['#'], Error::ExpectedNode) {
        Err(e) => Err(e),
        Ok(rest) => {
            let u = skip_spaces(rest);
            proof {
                lemma_run_len_bound(s, Class::Space);
                lemma_run_len_bound(rest, Class::Space);
            }
            if u.len() == 0 {
                Err(Error::Eof)
            } else if u[0] == '[' {
                match parse_array(u) {
                    Ok((items, last)) => Ok((Tree::Tuple(items), last)),
                    Err(e) => Err(e),
                }
            } else if u[0] == '{' {
                match parse_map(u) {
                    Ok((entries, last)) => Ok((Tree::Record(entries), last)),
                    Err(e) => Err(e),
                }
            } else {
                Err(Error::ExpectedNode)
            }
        },
    }
}

/// Reads a variant of an enumeration whose tags are `variants`: a tag that
/// is none of them is refused with `ExpectedEnum` before the payload is
/// read.
pub open spec fn parse_enum_of(s: Seq<char>, variants: Seq<Seq<char>>) -> Result<
    (Tree, Seq<char>),
    Error,
> {
    match parse_tag(s) {
        Err(e) => Err(e),
        Ok((tag, rest)) => if variants.contains(tag) {
            parse_enum(s)
        } else {
            Err(Error::ExpectedEnum)
        },
    }
}

/// Reads a node of a declared shape: the other bracket, or another number
/// of fields, is refused with `ExpectedNode`.
pub open spec fn parse_node_of(s: Seq<char>, shape: Shape) -> Result<(Tree, Seq<char>), Error> {
    match expect(skip_spaces(s), seq!['#'], Error::ExpectedNode) {
        Err(e) => Err(e),
        Ok(rest) => {
            let u = skip_spaces(rest);
            let open = match shape {
                Shape::Tuple(_) => '[',
                Shape::Record(_) => '{',
            };
            if u.len() == 0 {
                Err(Error::Eof)
            } else if u[0] != open {
                Err(Error::ExpectedNode)
            } else {
                match parse_node(s) {
                    Ok((node, last)) => if shape.admits(node) {
                        Ok((node, last))
                    } else {
                        Err(Error::ExpectedNode)
                    },
                    Err(e) => Err(e),
                }
            }
        },
    }
}

/// `found`, with `items` put before the items that were read.
pub open spec fn with_items(items: Seq<Tree>, found: Result<(Seq<Tree>, Seq<char>), Error>) -> Result<
    (Seq<Tree>, Seq<char>),
    Error,
> {
    match found {
        Ok((more, rest)) => Ok((items + more, rest)),
        Err(e) => Err(e),
    }
}

/// `found`, with `entries` put before the entries that were read.
pub open spec fn with_entries(
    entries: Seq<(Tree, Tree)>,
    found: Result<(Seq<(Tree, Tree)>, Seq<char>), Error>,
) -> Result<(Seq<(Tree, Tree)>, Seq<char>), Error> {
    match found {
        Ok((more, rest)) => Ok((entries + more, rest)),
        Err(e) => Err(e),
    }
}

/// Reads a whole text: one value, and nothing but white space behind it.
pub open spec fn parse_document(s: Seq<char>) -> Result<Tree, Error> {
    match parse_value(s) {
        Err(e) => Err(e),
        Ok((tree, rest)) => if skip_spaces(rest).len() == 0 {
            Ok(tree)
        } else {
            Err(Error::TrailingCharacters)
        },
    }
}

/// A value that was read took at least one character, and an error is no
/// message.
pub proof fn lemma_parse_value_outcome(s: Seq<char>)
    ensures
        parse_value(s) matches Ok((_, rest)) ==> rest.len() < s.len(),
        parse_value(s) matches Err(e) ==> e.is_syntactic(),
    decreases s.len(), 1nat,
{
    lemma_run_len_bound(s, Class::Space);
    let t = skip_spaces(s);
    if t.len() == 0 {
    } else if t[0] == 'n' {
    } else if t[0] == 't' || t[0] == 'f' {
    } else if t[0] == '-' || ('0' <= t[0] <= '9') {
        lemma_run_len_bound(t, Class::Integer);
        lemma_run_len_bound(t, Class::Float);
        lemma_int_value_nonempty(t.take(run_len(t, Class::Integer) as int));
        lemma_decimal_value_nonempty(t.take(run_len(t, Class::Float) as int));
    } else if t[0] == '"' {
        lemma_parse_string_outcome(s);
    } else if t[0] == '[' {
        lemma_parse_array_outcome(s);
    } else if t[0] == '{' {
        lemma_parse_map_outcome(s);
    } else if t[0] == '@' {
        lemma_parse_enum_outcome(s);
    } else if t[0] == '#' {
        lemma_parse_node_outcome(s);
    }
}

/// An array that was read took at least one character, and an error is no
/// message.
pub proof fn lemma_parse_array_outcome(s: Seq<char>)
    ensures
        parse_array(s) matches Ok((_, rest)) ==> rest.len() < s.len(),
        parse_array(s) matches Err(e) ==> e.is_syntactic(),
    decreases s.len(), 0nat,
{
    lemma_run_len_bound(s, Class::Space);
    match expect(skip_spaces(s), seq!['['], Error::ExpectedArray) {
        Err(_) => {},
        Ok(rest) => {
            lemma_run_len_bound(rest, Class::Space);
            let u = skip_spaces(rest);
            if u.len() > 0 && u[0] != ']' {
                lemma_parse_items_outcome(u);
            }
        },
    }
}

/// Items that were read took at least one character, and an error is no
/// message.
pub proof fn lemma_parse_items_outcome(s: Seq<char>)
    ensures
        parse_items(s) matches Ok((_, rest)) ==> rest.len() < s.len(),
        parse_items(s) matches Err(e) ==> e.is_syntactic(),
    decreases s.len(), 2nat,
{
    lemma_parse_value_outcome(s);
    match parse_value(s) {
        Err(_) => {},
        Ok((_, rest)) => {
            lemma_run_len_bound(rest, Class::Space);
            let u = skip_spaces(rest);
            if u.len() > 0 && u[0] == ',' {
                lemma_parse_items_outcome(u.skip(1));
            }
        },
    }
}

/// A map that was read took at least one character, and an error is no
/// message.
pub proof fn lemma_parse_map_outcome(s: Seq<char>)
    ensures
        parse_map(s) matches Ok((_, rest)) ==> rest.len() < s.len(),
        parse_map(s) matches Err(e) ==> e.is_syntactic(),
    decreases s.len(), 0nat,
{
    lemma_run_len_bound(s, Class::Space);
    match expect(skip_spaces(s), seq!['{'], Error::ExpectedMap) {
        Err(_) => {},
        Ok(rest) => {
            lemma_run_len_bound(rest, Class::Space);
            let u = skip_spaces(rest);
            if u.len() > 0 && u[0] != '}' {
                lemma_parse_entries_outcome(u);
            }
        },
    }
}

/// Entries that were read took at least one character, and an error is no
/// message.
pub proof fn lemma_parse_entries_outcome(s: Seq<char>)
    ensures
        parse_entries(s) matches Ok((_, rest)) ==> rest.len() < s.len(),
        parse_entries(s) matches Err(e) ==> e.is_syntactic(),
    decreases s.len(), 2nat,
{
    lemma_parse_value_outcome(s);
    match parse_value(s) {
        Err(_) => {},
        Ok((_, after_key)) => {
            lemma_run_len_bound(after_key, Class::Space);
            match expect(skip_spaces(after_key), seq![':'], Error::ExpectedMapColon) {
                Err(_) => {},
                Ok(after_colon) => {
                    lemma_parse_value_outcome(after_colon);
                    match parse_value(after_colon) {
                        Err(_) => {},
                        Ok((_, rest)) => {
                            lemma_run_len_bound(rest, Class::Space);
                            let u = skip_spaces(rest);
                            if u.len() > 0 && u[0] == ',' {
                                lemma_parse_entries_outcome(u.skip(1));
                            }
                        },
                    }
                },
            }
        },
    }
}

/// A variant that was read took at least one character, and an error is no
/// message.
pub proof fn lemma_parse_enum_outcome(s: Seq<char>)
    ensures
        parse_enum(s) matches Ok((_, rest)) ==> rest.len() < s.len(),
        parse_enum(s) matches Err(e) ==> e.is_syntactic(),
    decreases s.len(), 0nat,
{
    lemma_parse_tag_outcome(s);
    match parse_tag(s) {
        Err(_) => {},
        Ok((_, rest)) => {
            lemma_parse_value_outcome(rest);
        },
    }
}

/// A node that was read took at least one character, and an error is no
/// message.
pub proof fn lemma_parse_node_outcome(s: Seq<char>)
    ensures
        parse_node(s) matches Ok((_, rest)) ==> rest.len() < s.len(),
        parse_node(s) matches Err(e) ==> e.is_syntactic(),
    decreases s.len(), 0nat,
{
    lemma_run_len_bound(s, Class::Space);
    match expect(skip_spaces(s), seq!['#'], Error::ExpectedNode) {
        Err(_) => {},
        Ok(rest) => {
            lemma_run_len_bound(rest, Class::Space);
            let u = skip_spaces(rest);
            if u.len() > 0 && u[0] == '[' {
                lemma_parse_array_outcome(u);
            } else if u.len() > 0 && u[0] == '{' {
                lemma_parse_map_outcome(u);
            }
        },
    }
}

/// Behind an item and a comma, the items of an array go on: the test of
/// the lengths in `parse_items` plays no part.
pub proof fn lemma_parse_items_next(s: Seq<char>, item: Tree, rest: Seq<char>)
    requires
        parse_value(s) == Ok::<_, Error>((item, rest)),
        skip_spaces(rest).len() > 0,
        skip_spaces(rest)[0] == ',',
    ensures
        parse_items(s) == with_items(seq![item], parse_items(skip_spaces(rest).skip(1))),
{
    lemma_parse_value_outcome(s);
    lemma_run_len_bound(rest, Class::Space);
}

/// Behind a key, a colon, a value and a comma, the entries of a map go on:
/// the tests of the lengths in `parse_entries` play no part.
pub proof fn lemma_parse_entries_next(
    s: Seq<char>,
    key: Tree,
    after_key: Seq<char>,
    after_colon: Seq<char>,
    value: Tree,
    rest: Seq<char>,
)
    requires
        parse_value(s) == Ok::<_, Error>((key, after_key)),
        expect(skip_spaces(after_key), seq![':'], Error::ExpectedMapColon) == Ok::<_, Error>(
            after_colon,
        ),
        parse_value(after_colon) == Ok::<_, Error>((value, rest)),
        skip_spaces(rest).len() > 0,
        skip_spaces(rest)[0] == ',',
    ensures
        parse_entries(s) == with_entries(
            seq![(key, value)],
            parse_entries(skip_spaces(rest).skip(1)),
        ),
{
    lemma_parse_value_outcome(s);
    lemma_run_len_bound(after_key, Class::Space);
    lemma_parse_value_outcome(after_colon);
    lemma_run_len_bound(rest, Class::Space);
}

} // verus!
