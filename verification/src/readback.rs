//! The proof that the decoder reads back what the encoder wrote, by
//! induction on the tree, for every padding of white space.
use vstd::prelude::*;
use crate::decoding::{
    expect, lemma_parse_value_outcome, parse_array, parse_entries, parse_enum, parse_items,
    parse_map, parse_node, parse_string, parse_tag, parse_value,
};
use crate::encoding::{
    encode, entries_tokens, is_blank, items_tokens, lemma_spaced_compact, no_pad, spaced,
    spaced_entries, spaced_items, token_count,
};
use crate::error::Error;
use crate::grammar::{
    all_of, closes_numeral, decimal_text, escape, false_text, int_text, lemma_decimal_text,
    lemma_int_text, lemma_run_holds, lemma_run_is, lemma_run_len_bound, lemma_run_over,
    lemma_skip_pad, lemma_skip_spaces_twice, lemma_unquote_escape, null_text, run_len,
    skip_spaces, starts_value, str_text, true_text, Class,
};
use crate::value::Tree;

verus! {

/// The padded text of a tree without the padding before its first token.
pub open spec fn bare(t: Tree, pad: spec_fn(int) -> Seq<char>, k: int) -> Seq<char> {
    spaced(t, pad, k).skip(pad(k).len() as int)
}

/// The padded items of an array without the padding before their first
/// token.
pub open spec fn bare_items(items: Seq<Tree>, pad: spec_fn(int) -> Seq<char>, k: int) -> Seq<
    char,
> {
    spaced_items(items, pad, k).skip(pad(k).len() as int)
}

/// The padded entries of a map without the padding before their first
/// token.
pub open spec fn bare_entries(
    entries: Seq<(Tree, Tree)>,
    pad: spec_fn(int) -> Seq<char>,
    k: int,
) -> Seq<char> {
    spaced_entries(entries, pad, k).skip(pad(k).len() as int)
}

/// The padded text of a tree is its first padding, then a text that starts
/// as a value does.
pub proof fn lemma_spaced_head(t: Tree, pad: spec_fn(int) -> Seq<char>, k: int)
    ensures
        spaced(t, pad, k) == pad(k) + bare(t, pad, k),
        bare(t, pad, k).len() > 0,
        starts_value(bare(t, pad, k)[0]),
{
    let s = spaced(t, pad, k);
    let n = pad(k).len() as int;
    match t {
        Tree::I32(v) => {
            lemma_int_text(v);
            assert(s.skip(n) =~= int_text(v as int));
        },
        Tree::F32(d) => {
            lemma_decimal_text(d);
            assert(s.skip(n) =~= decimal_text(d));
        },
        Tree::Bool(b) => {
            assert(s.skip(n) =~= if b {
                true_text()
            } else {
                false_text()
            });
        },
        Tree::Null => {
            assert(s.skip(n) =~= null_text());
        },
        Tree::Str(text) => {
            assert(s.skip(n) =~= str_text(text));
            assert(str_text(text)[0] == '"');
        },
        Tree::Array(_) => {
            assert(s[n] == '[');
        },
        Tree::Dict(_) => {
            assert(s[n] == '{');
        },
        Tree::Enum(_, _) => {
            assert(s[n] == '@');
        },
        Tree::Tuple(_) => {
            assert(s[n] == '#');
        },
        Tree::Record(_) => {
            assert(s[n] == '#');
        },
    }
    assert(s =~= pad(k) + s.skip(n));
}

/// The padded items of an array that is not empty are their first padding,
/// then a text that starts as a value does.
pub proof fn lemma_spaced_items_head(items: Seq<Tree>, pad: spec_fn(int) -> Seq<char>, k: int)
    requires
        items.len() > 0,
    ensures
        spaced_items(items, pad, k) == pad(k) + bare_items(items, pad, k),
        bare_items(items, pad, k).len() > 0,
        starts_value(bare_items(items, pad, k)[0]),
{
    lemma_spaced_head(items[0], pad, k);
    let s = spaced_items(items, pad, k);
    let n = pad(k).len() as int;
    assert(s[n] == bare(items[0], pad, k)[0]);
    assert(s =~= pad(k) + s.skip(n));
}

/// The padded entries of a map that is not empty are their first padding,
/// then a text that starts as a value does.
pub proof fn lemma_spaced_entries_head(
    entries: Seq<(Tree, Tree)>,
    pad: spec_fn(int) -> Seq<char>,
    k: int,
)
    requires
        entries.len() > 0,
    ensures
        spaced_entries(entries, pad, k) == pad(k) + bare_entries(entries, pad, k),
        bare_entries(entries, pad, k).len() > 0,
        starts_value(bare_entries(entries, pad, k)[0]),
{
    lemma_spaced_head(entries[0].0, pad, k);
    let s = spaced_entries(entries, pad, k);
    let n = pad(k).len() as int;
    assert(s[n] == bare(entries[0].0, pad, k)[0]);
    assert(s =~= pad(k) + s.skip(n));
}

/// White space before a value changes nothing of what is read.
pub proof fn lemma_parse_value_unpadded(s: Seq<char>)
    ensures
        parse_value(skip_spaces(s)) == parse_value(s),
{
    lemma_skip_spaces_twice(s);
}

/// White space before the first item changes nothing of what is read.
pub proof fn lemma_parse_items_unpadded(s: Seq<char>)
    ensures
        parse_items(skip_spaces(s)) == parse_items(s),
{
    let t = skip_spaces(s);
    lemma_parse_value_unpadded(s);
    lemma_parse_value_outcome(s);
    lemma_parse_value_outcome(t);
    lemma_run_len_bound(s, Class::Space);
    if let Ok((_, rest)) = parse_value(s) {
        lemma_run_len_bound(rest, Class::Space);
    }
}

/// White space before the first key changes nothing of what is read.
pub proof fn lemma_parse_entries_unpadded(s: Seq<char>)
    ensures
        parse_entries(skip_spaces(s)) == parse_entries(s),
{
    let t = skip_spaces(s);
    lemma_parse_value_unpadded(s);
    lemma_parse_value_outcome(s);
    lemma_parse_value_outcome(t);
    lemma_run_len_bound(s, Class::Space);
    if let Ok((_, after_key)) = parse_value(s) {
        lemma_run_len_bound(after_key, Class::Space);
        if let Ok(after_colon) = expect(
            skip_spaces(after_key),
            seq![':'],
            Error::ExpectedMapColon,
        ) {
            lemma_parse_value_outcome(after_colon);
            if let Ok((_, rest)) = parse_value(after_colon) {
                lemma_run_len_bound(rest, Class::Space);
            }
        }
    }
}

/// A string is read back from its text, whatever stands behind it.
pub proof fn lemma_read_string(pad: Seq<char>, text: Seq<char>, rest: Seq<char>)
    requires
        all_of(pad, Class::Space),
    ensures
        parse_string(pad + str_text(text) + rest) == Ok::<_, Error>((text, rest)),
{
    let body = str_text(text) + rest;
    let s = pad + str_text(text) + rest;
    assert(s =~= pad + body);
    lemma_skip_pad(pad, body);
    assert(body.skip(1) =~= escape(text) + seq!['"'] + rest);
    lemma_unquote_escape(text, rest);
}

/// A tree without parts is read back from its padded text.
proof fn lemma_read_leaf(t: Tree, pad: spec_fn(int) -> Seq<char>, k: int, rest: Seq<char>)
    requires
        is_blank(pad),
        closes_numeral(rest),
        t is Null || t is Bool || t is I32 || t is F32 || t is Str,
    ensures
        parse_value(spaced(t, pad, k) + rest) == Ok::<_, Error>((t, rest)),
{
    let s = spaced(t, pad, k) + rest;
    lemma_spaced_head(t, pad, k);
    let body = bare(t, pad, k) + rest;
    assert(s =~= pad(k) + body);
    lemma_skip_pad(pad(k), body);
    match t {
        Tree::Null => {
            assert(body =~= null_text() + rest);
            assert(body.subrange(0, 4) =~= null_text());
            assert(body.skip(4) =~= rest);
        },
        Tree::Bool(b) => {
            if b {
                assert(body =~= true_text() + rest);
                assert(body.subrange(0, 4) =~= true_text());
                assert(body.skip(4) =~= rest);
            } else {
                assert(body =~= false_text() + rest);
                assert(body.subrange(0, 5) =~= false_text());
                assert(body.skip(5) =~= rest);
                assert(!true_text().is_prefix_of(body)) by {
                    if true_text().is_prefix_of(body) {
                        assert(body.subrange(0, 4)[0] == body[0]);
                    }
                }
            }
        },
        Tree::I32(n) => {
            let text = int_text(n as int);
            lemma_int_text(n);
            assert(body =~= text + rest);
            lemma_run_over(text, rest, Class::Integer);
            if rest.len() > 0 {
                assert(body[text.len() as int] == rest[0]);
            }
        },
        Tree::F32(d) => {
            let text = decimal_text(d);
            lemma_decimal_text(d);
            assert(body =~= text + rest);
            lemma_run_over(text, rest, Class::Float);
            lemma_read_float_mark(text, rest);
        },
        Tree::Str(text) => {
            assert(s =~= pad(k) + str_text(text) + rest);
            lemma_read_string(pad(k), text, rest);
        },
        _ => {},
    }
}

/// Behind the leading sign and digits of the numeral of a float stands its
/// `e`, also when more text follows the numeral.
proof fn lemma_read_float_mark(text: Seq<char>, rest: Seq<char>)
    requires
        run_len(text, Class::Integer) < text.len(),
        text[run_len(text, Class::Integer) as int] == 'e',
    ensures
        run_len(text + rest, Class::Integer) == run_len(text, Class::Integer),
        (text + rest)[run_len(text, Class::Integer) as int] == 'e',
{
    let n = run_len(text, Class::Integer) as int;
    lemma_run_holds(text, Class::Integer);
    assert forall|i: int| 0 <= i < n implies Class::Integer.holds(#[trigger] (text + rest)[i]) by {
        assert((text + rest)[i] == text[i]);
    }
    assert((text + rest)[n] == text[n]);
    lemma_run_is(text + rest, Class::Integer, n);
}

/// Every tree is read back from its padded text, whatever white space the
/// padding writes, where what stands behind the text would not lengthen a
/// numeral.
pub proof fn lemma_read_spaced(t: Tree, pad: spec_fn(int) -> Seq<char>, k: int, rest: Seq<char>)
    requires
        is_blank(pad),
        closes_numeral(rest),
    ensures
        parse_value(spaced(t, pad, k) + rest) == Ok::<_, Error>((t, rest)),
    decreases t, 2nat,
{
    match t {
        Tree::Array(_) => lemma_read_array_tree(t, pad, k, rest),
        Tree::Dict(_) => lemma_read_dict_tree(t, pad, k, rest),
        Tree::Enum(_, _) => lemma_read_enum_tree(t, pad, k, rest),
        Tree::Tuple(_) => lemma_read_tuple_tree(t, pad, k, rest),
        Tree::Record(_) => lemma_read_record_tree(t, pad, k, rest),
        _ => lemma_read_leaf(t, pad, k, rest),
    }
}

/// An array is read back from its padded text.
proof fn lemma_read_array_tree(t: Tree, pad: spec_fn(int) -> Seq<char>, k: int, rest: Seq<char>)
    requires
        is_blank(pad),
        t is Array,
    ensures
        parse_value(spaced(t, pad, k) + rest) == Ok::<_, Error>((t, rest)),
    decreases t, 1nat,
{
    let items = t->Array_0;
    let s = spaced(t, pad, k) + rest;
    let inner = spaced_items(items, pad, k + 1) + pad(k + 1 + items_tokens(items)) + seq![']']
        + rest;
    let body = seq!['['] + inner;
    assert(s =~= pad(k) + body);
    lemma_skip_pad(pad(k), body);
    lemma_read_array(items, pad, k + 1, rest);
    lemma_parse_array_unpadded(s);
}

/// A map is read back from its padded text.
proof fn lemma_read_dict_tree(t: Tree, pad: spec_fn(int) -> Seq<char>, k: int, rest: Seq<char>)
    requires
        is_blank(pad),
        t is Dict,
    ensures
        parse_value(spaced(t, pad, k) + rest) == Ok::<_, Error>((t, rest)),
    decreases t, 1nat,
{
    let entries = t->Dict_0;
    let s = spaced(t, pad, k) + rest;
    let inner = spaced_entries(entries, pad, k + 1) + pad(k + 1 + entries_tokens(entries))
        + seq!['}'] + rest;
    let body = seq!['{'] + inner;
    assert(s =~= pad(k) + body);
    lemma_skip_pad(pad(k), body);
    lemma_read_map(entries, pad, k + 1, rest);
    lemma_parse_map_unpadded(s);
}

/// A variant is read back from its padded text: first its tag, then its
/// payload.
pub proof fn lemma_read_enum_tree(t: Tree, pad: spec_fn(int) -> Seq<char>, k: int, rest: Seq<char>)
    requires
        is_blank(pad),
        closes_numeral(rest),
        t is Enum,
    ensures
        parse_tag(spaced(t, pad, k) + rest) == Ok::<_, Error>(
            (t->Enum_0, spaced(*t->Enum_1, pad, k + 2) + rest),
        ),
        parse_enum(spaced(t, pad, k) + rest) == Ok::<_, Error>((t, rest)),
        parse_value(spaced(t, pad, k) + rest) == Ok::<_, Error>((t, rest)),
    decreases t, 1nat,
{
    let tag = t->Enum_0;
    let payload = *t->Enum_1;
    let s = spaced(t, pad, k) + rest;
    let behind = spaced(payload, pad, k + 2) + rest;
    let named = pad(k + 1) + str_text(tag) + behind;
    let body = seq!['@'] + named;
    assert(s =~= pad(k) + body);
    lemma_skip_pad(pad(k), body);
    assert(body.skip(1) =~= named);
    assert(body.subrange(0, 1) =~= seq!['@']);
    lemma_read_string(pad(k + 1), tag, behind);
    assert(parse_tag(s) == Ok::<_, Error>((tag, behind)));
    lemma_read_spaced(payload, pad, k + 2, rest);
    assert(parse_enum(s) == Ok::<_, Error>((t, rest)));
}

/// A node with positional fields is read back from its padded text.
proof fn lemma_read_tuple_tree(t: Tree, pad: spec_fn(int) -> Seq<char>, k: int, rest: Seq<char>)
    requires
        is_blank(pad),
        t is Tuple,
    ensures
        parse_node(spaced(t, pad, k) + rest) == Ok::<_, Error>((t, rest)),
        parse_value(spaced(t, pad, k) + rest) == Ok::<_, Error>((t, rest)),
    decreases t, 1nat,
{
    let items = t->Tuple_0;
    let s = spaced(t, pad, k) + rest;
    let inner = spaced_items(items, pad, k + 2) + pad(k + 2 + items_tokens(items)) + seq![']']
        + rest;
    let fields = seq!['['] + inner;
    let body = seq!['#'] + (pad(k + 1) + fields);
    assert(s =~= pad(k) + body);
    lemma_skip_pad(pad(k), body);
    assert(body.skip(1) =~= pad(k + 1) + fields);
    assert(body.subrange(0, 1) =~= seq!['#']);
    lemma_skip_pad(pad(k + 1), fields);
    lemma_read_array(items, pad, k + 2, rest);
    assert(parse_node(s) == Ok::<_, Error>((t, rest)));
}

/// A node with keyed fields is read back from its padded text.
proof fn lemma_read_record_tree(t: Tree, pad: spec_fn(int) -> Seq<char>, k: int, rest: Seq<char>)
    requires
        is_blank(pad),
        t is Record,
    ensures
        parse_node(spaced(t, pad, k) + rest) == Ok::<_, Error>((t, rest)),
        parse_value(spaced(t, pad, k) + rest) == Ok::<_, Error>((t, rest)),
    decreases t, 1nat,
{
    let entries = t->Record_0;
    let s = spaced(t, pad, k) + rest;
    let inner = spaced_entries(entries, pad, k + 2) + pad(k + 2 + entries_tokens(entries))
        + seq!['}'] + rest;
    let fields = seq!['{'] + inner;
    let body = seq!['#'] + (pad(k + 1) + fields);
    assert(s =~= pad(k) + body);
    lemma_skip_pad(pad(k), body);
    assert(body.skip(1) =~= pad(k + 1) + fields);
    assert(body.subrange(0, 1) =~= seq!['#']);
    lemma_skip_pad(pad(k + 1), fields);
    lemma_read_map(entries, pad, k + 2, rest);
    assert(parse_node(s) == Ok::<_, Error>((t, rest)));
}

/// White space before an array changes nothing of what is read.
pub proof fn lemma_parse_array_unpadded(s: Seq<char>)
    ensures
        parse_array(skip_spaces(s)) == parse_array(s),
{
    lemma_skip_spaces_twice(s);
}

/// White space before a map changes nothing of what is read.
pub proof fn lemma_parse_map_unpadded(s: Seq<char>)
    ensures
        parse_map(skip_spaces(s)) == parse_map(s),
{
    lemma_skip_spaces_twice(s);
}

/// An array is read back from its padded text, from the opening bracket
/// on.
proof fn lemma_read_array(items: Seq<Tree>, pad: spec_fn(int) -> Seq<char>, k: int, rest: Seq<char>)
    requires
        is_blank(pad),
    ensures
        parse_array(
            seq!['['] + (spaced_items(items, pad, k) + pad(k + items_tokens(items)) + seq![']']
                + rest),
        ) == Ok::<_, Error>((items, rest)),
    decreases items, 3nat,
{
    let close = pad(k + items_tokens(items)) + seq![']'] + rest;
    let inner = spaced_items(items, pad, k) + pad(k + items_tokens(items)) + seq![']'] + rest;
    let s = seq!['['] + inner;
    lemma_skip_pad(Seq::<char>::empty(), s);
    assert(s.skip(1) =~= inner);
    assert(s.subrange(0, 1) =~= seq!['[']);
    if items.len() == 0 {
        assert(inner =~= pad(k) + (seq![']'] + rest));
        lemma_skip_pad(pad(k), seq![']'] + rest);
        assert((seq![']'] + rest).skip(1) =~= rest);
        assert(items =~= Seq::<Tree>::empty());
    } else {
        lemma_spaced_items_head(items, pad, k);
        let front = bare_items(items, pad, k) + close;
        assert(inner =~= pad(k) + front);
        lemma_skip_pad(pad(k), front);
        lemma_parse_items_unpadded(inner);
        lemma_read_items(items, pad, k, rest);
    }
}

/// The items of an array are read back from their padded text.
proof fn lemma_read_items(items: Seq<Tree>, pad: spec_fn(int) -> Seq<char>, k: int, rest: Seq<char>)
    requires
        is_blank(pad),
        items.len() > 0,
    ensures
        parse_items(
            spaced_items(items, pad, k) + pad(k + items_tokens(items)) + seq![']'] + rest,
        ) == Ok::<_, Error>((items, rest)),
    decreases items, 0nat,
{
    let s = spaced_items(items, pad, k) + pad(k + items_tokens(items)) + seq![']'] + rest;
    let first = items[0];
    let behind = k + token_count(first);
    if items.len() == 1 {
        let after = pad(behind) + (seq![']'] + rest);
        assert(s =~= spaced(first, pad, k) + after);
        lemma_pad_closes(pad(behind), seq![']'] + rest);
        lemma_read_spaced(first, pad, k, after);
        lemma_skip_pad(pad(behind), seq![']'] + rest);
        assert((seq![']'] + rest).skip(1) =~= rest);
        assert(seq![first] =~= items);
    } else {
        let more = spaced_items(items.skip(1), pad, behind + 1) + pad(
            behind + 1 + items_tokens(items.skip(1)),
        ) + seq![']'] + rest;
        let after = pad(behind) + (seq![','] + more);
        assert(s =~= spaced(first, pad, k) + after);
        lemma_pad_closes(pad(behind), seq![','] + more);
        lemma_read_spaced(first, pad, k, after);
        lemma_skip_pad(pad(behind), seq![','] + more);
        assert((seq![','] + more).skip(1) =~= more);
        lemma_read_items(items.skip(1), pad, behind + 1, rest);
        assert(seq![first] + items.skip(1) =~= items);
    }
}

/// A map is read back from its padded text, from the opening brace on.
proof fn lemma_read_map(
    entries: Seq<(Tree, Tree)>,
    pad: spec_fn(int) -> Seq<char>,
    k: int,
    rest: Seq<char>,
)
    requires
        is_blank(pad),
    ensures
        parse_map(
            seq!['{'] + (spaced_entries(entries, pad, k) + pad(k + entries_tokens(entries))
                + seq!['}'] + rest),
        ) == Ok::<_, Error>((entries, rest)),
    decreases entries, 3nat,
{
    let close = pad(k + entries_tokens(entries)) + seq!['}'] + rest;
    let inner = spaced_entries(entries, pad, k) + pad(k + entries_tokens(entries)) + seq!['}']
        + rest;
    let s = seq!['{'] + inner;
    lemma_skip_pad(Seq::<char>::empty(), s);
    assert(s.skip(1) =~= inner);
    assert(s.subrange(0, 1) =~= seq!['{']);
    if entries.len() == 0 {
        assert(inner =~= pad(k) + (seq!['}'] + rest));
        lemma_skip_pad(pad(k), seq!['}'] + rest);
        assert((seq!['}'] + rest).skip(1) =~= rest);
        assert(entries =~= Seq::<(Tree, Tree)>::empty());
    } else {
        lemma_spaced_entries_head(entries, pad, k);
        let front = bare_entries(entries, pad, k) + close;
        assert(inner =~= pad(k) + front);
        lemma_skip_pad(pad(k), front);
        lemma_parse_entries_unpadded(inner);
        lemma_read_entries(entries, pad, k, rest);
    }
}

/// The entries of a map are read back from their padded text.
proof fn lemma_read_entries(
    entries: Seq<(Tree, Tree)>,
    pad: spec_fn(int) -> Seq<char>,
    k: int,
    rest: Seq<char>,
)
    requires
        is_blank(pad),
        entries.len() > 0,
    ensures
        parse_entries(
            spaced_entries(entries, pad, k) + pad(k + entries_tokens(entries)) + seq!['}']
                + rest,
        ) == Ok::<_, Error>((entries, rest)),
    decreases entries, 0nat,
{
    let s = spaced_entries(entries, pad, k) + pad(k + entries_tokens(entries)) + seq!['}']
        + rest;
    let key = entries[0].0;
    let value = entries[0].1;
    let colon = k + token_count(key);
    let comma = colon + 1 + token_count(value);
    let tail = if entries.len() == 1 {
        seq!['}'] + rest
    } else {
        seq![','] + (spaced_entries(entries.skip(1), pad, comma + 1) + pad(
            comma + 1 + entries_tokens(entries.skip(1)),
        ) + seq!['}'] + rest)
    };
    let after_value = pad(comma) + tail;
    let after_colon = spaced(value, pad, colon + 1) + after_value;
    let after_key = pad(colon) + (seq![':'] + after_colon);
    assert(s =~= spaced(key, pad, k) + after_key);
    lemma_pad_closes(pad(colon), seq![':'] + after_colon);
    lemma_read_spaced(key, pad, k, after_key);
    lemma_skip_pad(pad(colon), seq![':'] + after_colon);
    assert((seq![':'] + after_colon).skip(1) =~= after_colon);
    assert((seq![':'] + after_colon).subrange(0, 1) =~= seq![':']);
    lemma_pad_closes(pad(comma), tail);
    lemma_read_spaced(value, pad, colon + 1, after_value);
    lemma_skip_pad(pad(comma), tail);
    if entries.len() == 1 {
        assert(tail.skip(1) =~= rest);
        assert(seq![(key, value)] =~= entries);
    } else {
        let more = spaced_entries(entries.skip(1), pad, comma + 1) + pad(
            comma + 1 + entries_tokens(entries.skip(1)),
        ) + seq!['}'] + rest;
        assert(tail.skip(1) =~= more);
        lemma_read_entries(entries.skip(1), pad, comma + 1, rest);
        assert(seq![(key, value)] + entries.skip(1) =~= entries);
    }
}

/// The text of a tree is not empty and starts as a value does.
pub proof fn lemma_encode_head(t: Tree)
    ensures
        encode(t).len() > 0,
        starts_value(encode(t)[0]),
{
    let none = Seq::<char>::empty();
    lemma_spaced_compact(t, 0);
    lemma_spaced_head(t, no_pad(), 0);
    assert(none + bare(t, no_pad(), 0) =~= bare(t, no_pad(), 0));
}

/// A tree is read back from its text, where what stands behind the text
/// would not lengthen a numeral.
pub proof fn lemma_read_encoded(t: Tree, rest: Seq<char>)
    requires
        closes_numeral(rest),
    ensures
        parse_value(encode(t) + rest) == Ok::<_, Error>((t, rest)),
{
    lemma_spaced_compact(t, 0);
    lemma_read_spaced(t, no_pad(), 0, rest);
}

/// White space, then a bracket, a comma or a colon, ends a numeral.
proof fn lemma_pad_closes(pad: Seq<char>, tail: Seq<char>)
    requires
        all_of(pad, Class::Space),
        tail.len() > 0,
        tail[0] == ',' || tail[0] == ':' || tail[0] == ']' || tail[0] == '}',
    ensures
        closes_numeral(pad + tail),
{
    if pad.len() > 0 {
        assert((pad + tail)[0] == pad[0]);
    } else {
        assert((pad + tail)[0] == tail[0]);
    }
}

} // verus!
