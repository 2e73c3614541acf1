//! Laws that relate what the encoder writes to what the decoder reads.
use vstd::prelude::*;
use crate::decoding::{
    lemma_parse_value_outcome, parse_array, parse_bool, parse_document, parse_entries,
    parse_enum_of, parse_f32, parse_i32, parse_items, parse_map, parse_null, parse_number,
    parse_string, parse_value,
};
use crate::encoding::{
    encode, entries_text, is_blank, items_text, lemma_spaced_compact, no_pad, spaced,
};
use crate::error::Error;
use crate::grammar::{
    all_of, closes_numeral, is_space, lemma_skip_pad, null_text, skip_spaces, Class,
};
use crate::readback::{
    lemma_encode_head, lemma_read_encoded, lemma_read_enum_tree, lemma_read_spaced,
};
use crate::value::Tree;

verus! {

/// Decoding the text of a tree gives the tree back.
pub proof fn law_round_trip(t: Tree)
    ensures
        parse_document(encode(t)) == Ok::<Tree, Error>(t),
{
    let none = Seq::<char>::empty();
    lemma_spaced_compact(t, 0);
    lemma_read_spaced(t, no_pad(), 0, none);
    assert(encode(t) + none =~= encode(t));
    lemma_skip_pad(none, none);
    assert(none + none =~= none);
}

/// White space between the tokens of the text of a tree, before the first
/// and behind the last, changes nothing of what is decoded: `pad` gives the
/// white space before each token, `tail` the white space behind the last.
pub proof fn law_white_space(t: Tree, pad: spec_fn(int) -> Seq<char>, tail: Seq<char>)
    requires
        is_blank(pad),
        all_of(tail, Class::Space),
    ensures
        parse_document(spaced(t, pad, 0) + tail) == parse_document(encode(t)),
        parse_document(spaced(t, pad, 0) + tail) == Ok::<Tree, Error>(t),
{
    let none = Seq::<char>::empty();
    law_round_trip(t);
    if tail.len() > 0 {
        assert(is_space(tail[0]));
    }
    lemma_read_spaced(t, pad, 0, tail);
    lemma_skip_pad(tail, none);
    assert(tail + none =~= tail);
}

/// A variant that the encoder wrote is read as a variant of an enumeration
/// just where its tag is one of the enumeration's tags; where it is none of
/// them the error is `ExpectedEnum`.
pub proof fn law_enum_tags(variants: Seq<Seq<char>>, tag: Seq<char>, payload: Tree)
    ensures
        parse_enum_of(encode(Tree::Enum(tag, Box::new(payload))), variants) == if variants.contains(
            tag,
        ) {
            Ok::<_, Error>((Tree::Enum(tag, Box::new(payload)), Seq::<char>::empty()))
        } else {
            Err(Error::ExpectedEnum)
        },
{
    let t = Tree::Enum(tag, Box::new(payload));
    let none = Seq::<char>::empty();
    lemma_spaced_compact(t, 0);
    lemma_read_enum_tree(t, no_pad(), 0, none);
    assert(encode(t) + none =~= encode(t));
}

/// Behind `null`, a character that is no white space is refused with
/// `TrailingCharacters`, whatever follows it.
pub proof fn law_trailing_after_null(junk: Seq<char>)
    requires
        junk.len() > 0,
        !is_space(junk[0]),
    ensures
        parse_document(encode(Tree::Null) + junk) == Err::<Tree, Error>(Error::TrailingCharacters),
{
    let s = null_text() + junk;
    let none = Seq::<char>::empty();
    lemma_skip_pad(none, s);
    assert(none + s =~= s);
    assert(s.subrange(0, 4) =~= null_text());
    assert(s.skip(4) =~= junk);
    lemma_skip_pad(none, junk);
    assert(none + junk =~= junk);
}

/// The decoder of a primitive fails with `Eof` just where nothing but white
/// space is left, the empty text included: a word, a numeral or a string
/// that is cut short is refused with the tag of its kind. The decoder of a
/// value fails with `Eof` on such a text too.
pub proof fn law_eof_when_exhausted(s: Seq<char>)
    ensures
        (parse_null(s) == Err::<(Tree, Seq<char>), Error>(Error::Eof)) == (skip_spaces(s).len()
            == 0),
        (parse_bool(s) == Err::<(Tree, Seq<char>), Error>(Error::Eof)) == (skip_spaces(s).len()
            == 0),
        (parse_i32(s) == Err::<(Tree, Seq<char>), Error>(Error::Eof)) == (skip_spaces(s).len()
            == 0),
        (parse_f32(s) == Err::<(Tree, Seq<char>), Error>(Error::Eof)) == (skip_spaces(s).len()
            == 0),
        (parse_number(s) == Err::<(Tree, Seq<char>), Error>(Error::Eof)) == (skip_spaces(
            s,
        ).len() == 0),
        (parse_string(s) == Err::<(Seq<char>, Seq<char>), Error>(Error::Eof)) == (skip_spaces(
            s,
        ).len() == 0),
        skip_spaces(s).len() == 0 ==> parse_value(s) == Err::<(Tree, Seq<char>), Error>(
            Error::Eof,
        ),
        skip_spaces(s).len() == 0 ==> parse_document(s) == Err::<Tree, Error>(Error::Eof),
        all_of(s, Class::Space) ==> skip_spaces(s).len() == 0,
{
    let none = Seq::<char>::empty();
    if all_of(s, Class::Space) {
        lemma_skip_pad(s, none);
        assert(s + none =~= s);
    }
}

/// The decoder of a primitive fails in two ways alone: with `Eof`, and
/// with the tag of its own kind.
pub proof fn law_primitive_errors(s: Seq<char>)
    ensures
        parse_null(s) matches Err(e) ==> e == Error::Eof || e == Error::ExpectedNull,
        parse_bool(s) matches Err(e) ==> e == Error::Eof || e == Error::ExpectedBoolean,
        parse_i32(s) matches Err(e) ==> e == Error::Eof || e == Error::ExpectedI32,
        parse_f32(s) matches Err(e) ==> e == Error::Eof || e == Error::ExpectedF32,
        parse_string(s) matches Err(e) ==> e == Error::Eof || e == Error::ExpectedString,
{
}

/// Behind an item of an array, anything but white space, a comma and the
/// closing bracket is refused with `ExpectedArrayComma`: `after` is what
/// stands behind the item, and starts with such a character once its white
/// space is taken away. (A sign, a digit, a point or an `e` directly behind
/// the item could lengthen a numeral at its end, so `after` starts with
/// none of them.)
pub proof fn law_array_needs_comma(item: Tree, after: Seq<char>)
    requires
        closes_numeral(after),
        skip_spaces(after).len() > 0,
        skip_spaces(after)[0] != ',',
        skip_spaces(after)[0] != ']',
    ensures
        parse_document(seq!['['] + encode(item) + after) == Err::<Tree, Error>(
            Error::ExpectedArrayComma,
        ),
{
    let none = Seq::<char>::empty();
    let inner = encode(item) + after;
    let s = seq!['['] + encode(item) + after;
    assert(s =~= seq!['['] + inner);
    lemma_skip_pad(none, s);
    assert(s.skip(1) =~= inner);
    assert(s.subrange(0, 1) =~= seq!['[']);
    lemma_encode_head(item);
    assert(inner[0] == encode(item)[0]);
    lemma_skip_pad(none, inner);
    lemma_read_encoded(item, after);
    assert(parse_items(inner) == Err::<(Seq<Tree>, Seq<char>), Error>(Error::ExpectedArrayComma));
    assert(parse_array(s) == Err::<(Seq<Tree>, Seq<char>), Error>(Error::ExpectedArrayComma));
}

/// An array whose text ends behind an item, or behind the opening bracket,
/// is refused with `ExpectedArrayEnd`.
pub proof fn law_array_needs_end(items: Seq<Tree>)
    ensures
        parse_document(seq!['['] + items_text(items)) == Err::<Tree, Error>(
            Error::ExpectedArrayEnd,
        ),
{
    let none = Seq::<char>::empty();
    let inner = items_text(items);
    let s = seq!['['] + inner;
    lemma_skip_pad(none, s);
    assert(s.skip(1) =~= inner);
    assert(s.subrange(0, 1) =~= seq!['[']);
    if items.len() == 0 {
        lemma_skip_pad(none, none);
    } else {
        lemma_encode_head(items[0]);
        assert(inner[0] == encode(items[0])[0]);
        lemma_skip_pad(none, inner);
        lemma_items_unclosed(items);
    }
}

/// Items behind which the text ends are refused with `ExpectedArrayEnd`.
proof fn lemma_items_unclosed(items: Seq<Tree>)
    requires
        items.len() > 0,
    ensures
        parse_items(items_text(items)) == Err::<(Seq<Tree>, Seq<char>), Error>(
            Error::ExpectedArrayEnd,
        ),
    decreases items.len(),
{
    let none = Seq::<char>::empty();
    let first = items[0];
    if items.len() == 1 {
        lemma_read_encoded(first, none);
        assert(encode(first) + none =~= encode(first));
        lemma_skip_pad(none, none);
    } else {
        let more = items_text(items.skip(1));
        let after = seq![','] + more;
        assert(items_text(items) =~= encode(first) + after);
        lemma_read_encoded(first, after);
        lemma_skip_pad(none, after);
        assert(after.skip(1) =~= more);
        lemma_items_unclosed(items.skip(1));
    }
}

/// Behind a key of a map, anything but white space and the colon is
/// refused with `ExpectedMapColon`: `after` is what stands behind the key,
/// and starts with such a character once its white space is taken away. (A
/// sign, a digit, a point or an `e` directly behind the key could lengthen
/// a numeral at its end, so `after` starts with none of them.)
pub proof fn law_map_needs_colon(key: Tree, after: Seq<char>)
    requires
        closes_numeral(after),
        skip_spaces(after).len() > 0,
        skip_spaces(after)[0] != ':',
    ensures
        parse_document(seq!['{'] + encode(key) + after) == Err::<Tree, Error>(
            Error::ExpectedMapColon,
        ),
{
    let none = Seq::<char>::empty();
    let inner = encode(key) + after;
    let s = seq!['{'] + encode(key) + after;
    assert(s =~= seq!['{'] + inner);
    lemma_skip_pad(none, s);
    assert(s.skip(1) =~= inner);
    assert(s.subrange(0, 1) =~= seq!['{']);
    lemma_encode_head(key);
    assert(inner[0] == encode(key)[0]);
    lemma_skip_pad(none, inner);
    lemma_read_encoded(key, after);
    let u = skip_spaces(after);
    assert(!seq![':'].is_prefix_of(u)) by {
        if seq![':'].is_prefix_of(u) {
            assert(u.subrange(0, 1)[0] == u[0]);
        }
    }
    assert(!u.is_prefix_of(seq![':'])) by {
        if u.is_prefix_of(seq![':']) {
            assert(seq![':'].subrange(0, u.len() as int)[0] == ':');
        }
    }
    assert(parse_entries(inner) == Err::<(Seq<(Tree, Tree)>, Seq<char>), Error>(
        Error::ExpectedMapColon,
    ));
    assert(parse_map(s) == Err::<(Seq<(Tree, Tree)>, Seq<char>), Error>(
        Error::ExpectedMapColon,
    ));
}

/// The decoder reports the tags of the grammar alone: whatever the text, an
/// error of decoding is never a `Message`.
pub proof fn law_errors_are_tags(s: Seq<char>)
    ensures
        parse_document(s) matches Err(e) ==> e.is_syntactic(),
{
    lemma_parse_value_outcome(s);
}

/// The text `{}` is read as the map without entries.
pub proof fn law_empty_map()
    ensures
        parse_document(seq!['{', '}']) == Ok::<Tree, Error>(Tree::Dict(Seq::empty())),
{
    let t = Tree::Dict(Seq::empty());
    law_round_trip(t);
    assert(entries_text(Seq::<(Tree, Tree)>::empty()) =~= Seq::<char>::empty());
    assert(encode(t) =~= seq!['{', '}']);
}

} // verus!
