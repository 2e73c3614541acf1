//! What the encoder writes for a tree.
use vstd::prelude::*;
use crate::grammar::{
    all_of, decimal_text, false_text, int_text, null_text, str_text, true_text, Class,
};
use crate::value::Tree;

verus! {

/// The items of an array, with a comma between neighbours.
pub open spec fn items_text(items: Seq<Tree>) -> Seq<char>
    decreases items, 0nat,
{
    if items.len() == 0 {
        Seq::empty()
    } else if items.len() == 1 {
        encode(items[0])
    } else {
        encode(items[0]) + seq![','] + items_text(items.skip(1))
    }
}

/// The entries of a map: key, colon, value, with a comma between
/// neighbours.
pub open spec fn entries_text(entries: Seq<(Tree, Tree)>) -> Seq<char>
    decreases entries, 0nat,
{
    if entries.len() == 0 {
        Seq::empty()
    } else if entries.len() == 1 {
        encode(entries[0].0) + seq![':'] + encode(entries[0].1)
    } else {
        encode(entries[0].0) + seq![':'] + encode(entries[0].1) + seq![','] + entries_text(
            entries.skip(1),
        )
    }
}

/// The text of a tree, with no white space in it.
pub open spec fn encode(t: Tree) -> Seq<char>
    decreases t, 1nat,
{
    match t {
        Tree::Null => null_text(),
        Tree::Bool(b) => if b {
            true_text()
        } else {
            false_text()
        },
        Tree::I32(n) => int_text(n as int),
        Tree::F32(d) => decimal_text(d),
        Tree::Str(s) => str_text(s),
        Tree::Array(items) => seq!['['] + items_text(items) + seq![']'],
        Tree::Dict(entries) => seq!['{'] + entries_text(entries) + seq!['}'],
        Tree::Enum(tag, payload) => seq!['@'] + str_text(tag) + encode(*payload),
        Tree::Tuple(items) => seq!['#', '['] + items_text(items) + seq![']'],
        Tree::Record(entries) => seq!['#', '{'] + entries_text(entries) + seq!['}'],
    }
}

/// How many tokens the text of a tree is made of. A literal, a numeral and
/// a string are one token each, and so is each bracket, comma, colon, `@`
/// and `#`.
pub open spec fn token_count(t: Tree) -> nat
    decreases t, 1nat,
{
    match t {
        Tree::Array(items) => 2 + items_tokens(items),
        Tree::Dict(entries) => 2 + entries_tokens(entries),
        Tree::Enum(tag, payload) => 2 + token_count(*payload),
        Tree::Tuple(items) => 3 + items_tokens(items),
        Tree::Record(entries) => 3 + entries_tokens(entries),
        _ => 1,
    }
}

/// The tokens of the items of an array, commas included.
pub open spec fn items_tokens(items: Seq<Tree>) -> nat
    decreases items, 0nat,
{
    if items.len() == 0 {
        0
    } else if items.len() == 1 {
        token_count(items[0])
    } else {
        token_count(items[0]) + 1 + items_tokens(items.skip(1))
    }
}

/// The tokens of the entries of a map, colons and commas included.
pub open spec fn entries_tokens(entries: Seq<(Tree, Tree)>) -> nat
    decreases entries, 0nat,
{
    if entries.len() == 0 {
        0
    } else if entries.len() == 1 {
        token_count(entries[0].0) + 1 + token_count(entries[0].1)
    } else {
        token_count(entries[0].0) + 1 + token_count(entries[0].1) + 1 + entries_tokens(
            entries.skip(1),
        )
    }
}

/// The text of a tree with `pad(k)`, `pad(k + 1)` and so on written before
/// its first token, its second and so on.
pub open spec fn spaced(t: Tree, pad: spec_fn(int) -> Seq<char>, k: int) -> Seq<char>
    decreases t, 1nat,
{
    match t {
        Tree::Null => pad(k) + null_text(),
        Tree::Bool(b) => pad(k) + if b {
            true_text()
        } else {
            false_text()
        },
        Tree::I32(n) => pad(k) + int_text(n as int),
        Tree::F32(d) => pad(k) + decimal_text(d),
        Tree::Str(s) => pad(k) + str_text(s),
        Tree::Array(items) => pad(k) + seq!['['] + spaced_items(items, pad, k + 1) + pad(
            k + 1 + items_tokens(items),
        ) + seq![']'],
        Tree::Dict(entries) => pad(k) + seq!['{'] + spaced_entries(entries, pad, k + 1) + pad(
            k + 1 + entries_tokens(entries),
        ) + seq!['}'],
        Tree::Enum(tag, payload) => pad(k) + seq!['@'] + pad(k + 1) + str_text(tag) + spaced(
            *payload,
            pad,
            k + 2,
        ),
        Tree::Tuple(items) => pad(k) + seq!['#'] + pad(k + 1) + seq!['['] + spaced_items(
            items,
            pad,
            k + 2,
        ) + pad(k + 2 + items_tokens(items)) + seq![']'],
        Tree::Record(entries) => pad(k) + seq!['#'] + pad(k + 1) + seq!['{'] + spaced_entries(
            entries,
            pad,
            k + 2,
        ) + pad(k + 2 + entries_tokens(entries)) + seq!['}'],
    }
}

/// The items of an array with their commas, padded from token `k` on.
pub open spec fn spaced_items(items: Seq<Tree>, pad: spec_fn(int) -> Seq<char>, k: int) -> Seq<
    char,
>
    decreases items, 0nat,
{
    if items.len() == 0 {
        Seq::empty()
    } else if items.len() == 1 {
        spaced(items[0], pad, k)
    } else {
        let behind = k + token_count(items[0]);
        spaced(items[0], pad, k) + pad(behind) + seq![','] + spaced_items(
            items.skip(1),
            pad,
            behind + 1,
        )
    }
}

/// The entries of a map with their colons and commas, padded from token
/// `k` on.
pub open spec fn spaced_entries(
    entries: Seq<(Tree, Tree)>,
    pad: spec_fn(int) -> Seq<char>,
    k: int,
) -> Seq<char>
    decreases entries, 0nat,
{
    if entries.len() == 0 {
        Seq::empty()
    } else {
        let colon = k + token_count(entries[0].0);
        let comma = colon + 1 + token_count(entries[0].1);
        let entry = spaced(entries[0].0, pad, k) + pad(colon) + seq![':'] + spaced(
            entries[0].1,
            pad,
            colon + 1,
        );
        if entries.len() == 1 {
            entry
        } else {
            entry + pad(comma) + seq![','] + spaced_entries(entries.skip(1), pad, comma + 1)
        }
    }
}

/// The padding that writes nothing.
pub open spec fn no_pad() -> spec_fn(int) -> Seq<char> {
    |k: int| Seq::<char>::empty()
}

/// Whether a padding writes white space alone.
pub open spec fn is_blank(pad: spec_fn(int) -> Seq<char>) -> bool {
    forall|k: int| all_of(#[trigger] pad(k), Class::Space)
}

/// With no padding, the padded text of a tree is its text.
pub proof fn lemma_spaced_compact(t: Tree, k: int)
    ensures
        spaced(t, no_pad(), k) == encode(t),
    decreases t, 1nat,
{
    let pad = no_pad();
    let none = Seq::<char>::empty();
    match t {
        Tree::Array(items) => {
            lemma_spaced_items_compact(items, k + 1);
            assert(spaced(t, pad, k) =~= encode(t));
        },
        Tree::Dict(entries) => {
            lemma_spaced_entries_compact(entries, k + 1);
            assert(spaced(t, pad, k) =~= encode(t));
        },
        Tree::Enum(tag, payload) => {
            lemma_spaced_compact(*payload, k + 2);
            assert(spaced(t, pad, k) =~= encode(t));
        },
        Tree::Tuple(items) => {
            lemma_spaced_items_compact(items, k + 2);
            assert(spaced(t, pad, k) =~= encode(t));
        },
        Tree::Record(entries) => {
            lemma_spaced_entries_compact(entries, k + 2);
            assert(spaced(t, pad, k) =~= encode(t));
        },
        _ => {
            assert(spaced(t, pad, k) =~= encode(t));
        },
    }
}

/// With no padding, the padded items of an array are their text.
pub proof fn lemma_spaced_items_compact(items: Seq<Tree>, k: int)
    ensures
        spaced_items(items, no_pad(), k) == items_text(items),
    decreases items, 0nat,
{
    if items.len() > 0 {
        lemma_spaced_compact(items[0], k);
        if items.len() > 1 {
            lemma_spaced_items_compact(items.skip(1), k + token_count(items[0]) + 1);
            assert(spaced_items(items, no_pad(), k) =~= items_text(items));
        }
    }
}

/// With no padding, the padded entries of a map are their text.
pub proof fn lemma_spaced_entries_compact(entries: Seq<(Tree, Tree)>, k: int)
    ensures
        spaced_entries(entries, no_pad(), k) == entries_text(entries),
    decreases entries, 0nat,
{
    if entries.len() > 0 {
        let colon = k + token_count(entries[0].0);
        let comma = colon + 1 + token_count(entries[0].1);
        lemma_spaced_compact(entries[0].0, k);
        lemma_spaced_compact(entries[0].1, colon + 1);
        if entries.len() > 1 {
            lemma_spaced_entries_compact(entries.skip(1), comma + 1);
        }
        assert(spaced_entries(entries, no_pad(), k) =~= entries_text(entries));
    }
}

/// `items_text` of a sequence with one more tree at its end.
pub proof fn lemma_items_text_push(items: Seq<Tree>, t: Tree)
    ensures
        items_text(items.push(t)) == if items.len() == 0 {
            encode(t)
        } else {
            items_text(items) + seq![','] + encode(t)
        },
    decreases items.len(),
{
    let all = items.push(t);
    if items.len() == 0 {
    } else {
        assert(all.skip(1) =~= items.skip(1).push(t));
        lemma_items_text_push(items.skip(1), t);
        if items.len() == 1 {
            assert(items_text(all) =~= items_text(items) + seq![','] + encode(t));
        } else {
            assert(items_text(all) =~= items_text(items) + seq![','] + encode(t));
        }
    }
}

/// `entries_text` of a sequence with one more entry at its end.
pub proof fn lemma_entries_text_push(entries: Seq<(Tree, Tree)>, k: Tree, v: Tree)
    ensures
        entries_text(entries.push((k, v))) == if entries.len() == 0 {
            encode(k) + seq![':'] + encode(v)
        } else {
            entries_text(entries) + seq![','] + encode(k) + seq![':'] + encode(v)
        },
    decreases entries.len(),
{
    let all = entries.push((k, v));
    if entries.len() == 0 {
    } else {
        assert(all.skip(1) =~= entries.skip(1).push((k, v)));
        lemma_entries_text_push(entries.skip(1), k, v);
        assert(entries_text(all) =~= entries_text(entries) + seq![','] + encode(k) + seq![':']
            + encode(v));
    }
}

} // verus!
