//! The encoder: from values to text.
use vstd::prelude::*;
use vstd::string::StringExecFns;
use crate::encoding::{
    encode, entries_text, items_text, lemma_entries_text_push, lemma_items_text_push,
};
use crate::error::Error;
use crate::grammar::{
    decimal_text, digits_of, escape, escape_char, int_text, lemma_escape_push, str_text,
};
use crate::value::{pairs, trees, Decimal, Node, Tree, Value};

verus! {

/// Taken on trust from the documentation of std: `String::push` appends the
/// given character to the end of the string, and changes nothing else of
/// it.
pub assume_specification[ String::push ](s: &mut String, ch: char)
    ensures
        final(s)@ == old(s)@.push(ch),
;

/// An encoder with its output so far.
pub struct Serializer {
    output: String,
}

impl View for Serializer {
    type V = Seq<char>;

    /// The text written so far.
    closed spec fn view(&self) -> Seq<char> {
        self.output@
    }
}

impl Serializer {
    /// An encoder that has written nothing.
    pub fn new() -> (ser: Serializer)
        ensures
            ser@ == Seq::<char>::empty(),
    {
        Serializer { output: String::new() }
    }

    /// The text written, as a string.
    pub fn finish(self) -> (out: String)
        ensures
            out@ == self@,
    {
        self.output
    }

    fn write_digits(&mut self, n: u32)
        ensures
            final(self)@ == old(self)@ + digits_of(n as nat),
        decreases n,
    {
        if n >= 10 {
            self.write_digits(n / 10);
        }
        let d: u8 = (n % 10) as u8;
        self.output.push((48 + d) as char);
        proof {
            if n >= 10 {
                assert(final(self)@ =~= old(self)@ + digits_of(n as nat));
            } else {
                assert(final(self)@ =~= old(self)@ + digits_of(n as nat));
            }
        }
    }

    /// Writes `null`.
    pub fn write_null(&mut self)
        ensures
            final(self)@ == old(self)@ + encode(Tree::Null),
    {
        self.output.append("null");
        proof {
            reveal_strlit("null");
            assert("null"@ =~= encode(Tree::Null));
        }
    }

    /// Writes `true` or `false`.
    pub fn write_bool(&mut self, b: bool)
        ensures
            final(self)@ == old(self)@ + encode(Tree::Bool(b)),
    {
        if b {
            self.output.append("true");
        } else {
            self.output.append("false");
        }
        proof {
            reveal_strlit("true");
            reveal_strlit("false");
            assert("true"@ =~= encode(Tree::Bool(true)));
            assert("false"@ =~= encode(Tree::Bool(false)));
        }
    }

    /// Writes the numeral of an integer.
    pub fn write_i32(&mut self, n: i32)
        ensures
            final(self)@ == old(self)@ + encode(Tree::I32(n)),
    {
        if n < 0 {
            self.output.push('-');
            let magnitude: u32 = (-(n as i64)) as u32;
            self.write_digits(magnitude);
            assert(final(self)@ =~= old(self)@ + int_text(n as int));
        } else {
            self.write_digits(n as u32);
        }
    }

    /// Writes the numeral of a float.
    pub fn write_f32(&mut self, d: Decimal)
        ensures
            final(self)@ == old(self)@ + encode(Tree::F32(d)),
    {
        if d.negative {
            self.output.push('-');
        }
        self.write_digits(d.mantissa);
        self.output.push('e');
        self.write_i32(d.exponent);
        assert(final(self)@ =~= old(self)@ + decimal_text(d));
    }

    /// Writes a string between quotes, with a backslash before each
    /// character that needs one.
    pub fn write_str(&mut self, s: &str)
        ensures
            final(self)@ == old(self)@ + encode(Tree::Str(s@)),
    {
        let ghost before = self@;
        self.output.push('"');
        for c in it: s.chars()
            invariant
                it.seq() == s@,
                self@ == before.push('"') + escape(s@.take(it.index() as int)),
        {
            proof {
                let k = it.index() as int;
                assert(s@.take(k + 1) =~= s@.take(k).push(c));
                lemma_escape_push(s@.take(k), c);
            }
            let ghost prior = self@;
            if c == '"' || c == '\\' {
                self.output.push('\\');
                self.output.push(c);
            } else if c == '\n' {
                self.output.push('\\');
                self.output.push('n');
            } else if c == '\t' {
                self.output.push('\\');
                self.output.push('t');
            } else if c == '\r' {
                self.output.push('\\');
                self.output.push('r');
            } else {
                self.output.push(c);
            }
            assert(self@ =~= prior + escape_char(c));
            assert(self@ =~= before.push('"') + escape(s@.take(it.index() + 1)));
        }
        self.output.push('"');
        proof {
            assert(s@.take(s@.len() as int) =~= s@);
            assert(final(self)@ =~= old(self)@ + str_text(s@));
        }
    }

    fn write_items(&mut self, items: &Vec<Value>)
        ensures
            final(self)@ == old(self)@ + items_text(trees(items@)),
        decreases *items, 0nat,
    {
        let ghost before = self@;
        let ghost all = trees(items@);
        let mut i: usize = 0;
        while i < items.len()
            invariant
                i <= items.len(),
                all == trees(items@),
                self@ == before + items_text(all.take(i as int)),
            decreases items.len() - i,
        {
            if i > 0 {
                self.output.push(',');
            }
            self.write_value(&items[i]);
            proof {
                assert(all.take(i + 1) =~= all.take(i as int).push(items[i as int]@));
                lemma_items_text_push(all.take(i as int), items[i as int]@);
                assert(self@ =~= before + items_text(all.take(i + 1)));
            }
            i += 1;
        }
        proof {
            assert(all.take(items.len() as int) =~= all);
        }
    }

    fn write_entries(&mut self, entries: &Vec<(Value, Value)>)
        ensures
            final(self)@ == old(self)@ + entries_text(pairs(entries@)),
        decreases *entries, 0nat,
    {
        let ghost before = self@;
        let ghost all = pairs(entries@);
        let mut i: usize = 0;
        while i < entries.len()
            invariant
                i <= entries.len(),
                all == pairs(entries@),
                self@ == before + entries_text(all.take(i as int)),
            decreases entries.len() - i,
        {
            if i > 0 {
                self.output.push(',');
            }
            self.write_value(&entries[i].0);
            self.output.push(':');
            self.write_value(&entries[i].1);
            proof {
                let k = entries[i as int].0@;
                let v = entries[i as int].1@;
                assert(all.take(i + 1) =~= all.take(i as int).push((k, v)));
                lemma_entries_text_push(all.take(i as int), k, v);
                assert(self@ =~= before + entries_text(all.take(i + 1)));
            }
            i += 1;
        }
        proof {
            assert(all.take(entries.len() as int) =~= all);
        }
    }

    /// Writes an array: its items between brackets, with commas between
    /// them.
    pub fn write_array(&mut self, items: &Vec<Value>)
        ensures
            final(self)@ == old(self)@ + encode(Tree::Array(trees(items@))),
        decreases *items, 1nat,
    {
        self.output.push('[');
        self.write_items(items);
        self.output.push(']');
        assert(final(self)@ =~= old(self)@ + encode(Tree::Array(trees(items@))));
    }

    /// Writes a map: its entries between braces in the order given, each as
    /// key, colon, value, with commas between them.
    pub fn write_map(&mut self, entries: &Vec<(Value, Value)>)
        ensures
            final(self)@ == old(self)@ + encode(Tree::Dict(pairs(entries@))),
        decreases *entries, 1nat,
    {
        self.output.push('{');
        self.write_entries(entries);
        self.output.push('}');
        assert(final(self)@ =~= old(self)@ + encode(Tree::Dict(pairs(entries@))));
    }

    /// Writes a variant: `@`, its tag as a string, then its payload.
    pub fn write_enum(&mut self, tag: &str, payload: &Value)
        ensures
            final(self)@ == old(self)@ + encode(Tree::Enum(tag@, Box::new(payload@))),
        decreases *payload, 4nat,
    {
        self.output.push('@');
        self.write_str(tag);
        self.write_value(payload);
        assert(final(self)@ =~= old(self)@ + encode(Tree::Enum(tag@, Box::new(payload@))));
    }

    /// Writes a node: `#`, then its fields as an array or as a map,
    /// whichever its shape is.
    pub fn write_node(&mut self, node: &Node)
        ensures
            final(self)@ == old(self)@ + encode(Value::Node(*node)@),
        decreases *node, 2nat,
    {
        self.output.push('#');
        match node {
            Node::Tuple(items) => {
                self.output.push('[');
                self.write_items(items);
                self.output.push(']');
            },
            Node::Record(entries) => {
                self.output.push('{');
                self.write_entries(entries);
                self.output.push('}');
            },
        }
        assert(final(self)@ =~= old(self)@ + encode(Value::Node(*node)@));
    }

    /// Writes a value, whatever its kind.
    pub fn write_value(&mut self, value: &Value)
        ensures
            final(self)@ == old(self)@ + encode(value@),
        decreases *value, 3nat,
    {
        match value {
            Value::Null => self.write_null(),
            Value::Bool(b) => self.write_bool(*b),
            Value::I32(n) => self.write_i32(*n),
            Value::F32(d) => self.write_f32(*d),
            Value::Str(s) => self.write_str(s.as_str()),
            Value::Array(items) => self.write_array(items),
            Value::Dict(entries) => self.write_map(entries),
            Value::EnumVariant(tag, payload) => self.write_enum(tag.as_str(), payload),
            Value::Node(node) => self.write_node(node),
        }
    }
}

/// The text of a value. Every value of the model has one, so the result is
/// never an error.
pub fn to_string(value: &Value) -> (res: Result<String, Error>)
    ensures
        res matches Ok(text) && text@ == encode(value@),
{
    let mut ser = Serializer::new();
    ser.write_value(value);
    Ok(ser.finish())
}

} // verus!
