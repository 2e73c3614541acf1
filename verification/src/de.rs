//! The decoder: from text to values.
use vstd::prelude::*;
use crate::decoding::{
    expect, lemma_parse_entries_next, lemma_parse_items_next, lemma_parse_tag_outcome,
    lemma_parse_value_outcome, parse_array, parse_bool,
    parse_document, parse_entries, parse_enum, parse_enum_of, parse_f32, parse_i32, parse_items,
    parse_map, parse_node, parse_node_of, parse_null, parse_number, parse_string, parse_tag,
    parse_value, with_entries, with_items,
};
use crate::error::Error;
use crate::grammar::{
    all_digits, decimal_of, decimal_value, digits_value, false_text, first_index, int_value,
    lemma_all_digits_concat, lemma_digits_value_grows, lemma_digits_value_push,
    lemma_run_len_bound, lemma_skip_spaces_twice, mantissa_value, null_text, run_len, skip_spaces,
    true_text, unescape_letter, unquote, with_text, Class,
};
use crate::value::{
    lemma_pairs_push, lemma_trees_push, pairs, texts, trees, Decimal, Node, Shape, Tree, Value,
};

verus! {

/// The characters of a string, in order.
pub fn chars_of(s: &str) -> (out: Vec<char>)
    ensures
        out@ == s@,
{
    let mut out: Vec<char> = Vec::new();
    for c in it: s.chars()
        invariant
            out@ == s@.take(it.index() as int),
            it.seq() == s@,
    {
        out.push(c);
    }
    out
}

/// Whether a character is of a class.
pub fn in_class(c: char, class: Class) -> (b: bool)
    ensures
        b == class.holds(c),
{
    match class {
        Class::Space => c == ' ' || c == '\t' || c == '\n' || c == '\r',
        Class::Integer => c == '-' || ('0' <= c && c <= '9'),
        Class::Float => c == '-' || ('0' <= c && c <= '9') || c == '.' || c == 'e',
    }
}

/// The decimal of its parts.
fn combine(negative: bool, digits: Option<(u32, usize)>, written: Option<i32>) -> (res: Option<
    Decimal,
>)
    ensures
        res == decimal_of(
            negative,
            match digits {
                Some((m, places)) => Some((m, places as nat)),
                None => None,
            },
            written,
        ),
{
    match (digits, written) {
        (Some((mantissa, places)), Some(x)) => {
            let room: u64 = (x as i64 + 0x8000_0000) as u64;
            if places as u64 > room {
                None
            } else {
                Some(Decimal { negative, mantissa, exponent: (x as i64 - places as i64) as i32 })
            }
        },
        _ => None,
    }
}

/// Whether a tag is one of the tags of an enumeration.
pub fn is_one_of(tag: &String, variants: &Vec<String>) -> (b: bool)
    ensures
        b == texts(variants@).contains(tag@),
{
    let mut i: usize = 0;
    while i < variants.len()
        invariant
            i <= variants.len(),
            forall|j: int| 0 <= j < i ==> texts(variants@)[j] != tag@,
        decreases variants.len() - i,
    {
        if variants[i] == *tag {
            assert(texts(variants@)[i as int] == tag@);
            return true;
        }
        i += 1;
    }
    false
}

/// Nothing put before what was read changes nothing.
proof fn lemma_with_text_empty(found: Option<(Seq<char>, Seq<char>)>)
    ensures
        with_text(Seq::empty(), found) == found,
{
    if let Some((more, rest)) = found {
        assert(Seq::<char>::empty() + more =~= more);
    }
}

/// One character put before what was read, then a text before that, is
/// the text with the character at its end put before what was read.
proof fn lemma_with_text_push(text: Seq<char>, c: char, found: Option<(Seq<char>, Seq<char>)>)
    ensures
        with_text(text, with_text(seq![c], found)) == with_text(text.push(c), found),
{
    if let Some((more, rest)) = found {
        assert(text + (seq![c] + more) =~= text.push(c) + more);
    }
}

/// No items put before the items that were read change nothing.
proof fn lemma_with_items_empty(found: Result<(Seq<Tree>, Seq<char>), Error>)
    ensures
        with_items(Seq::empty(), found) == found,
{
    if let Ok((more, rest)) = found {
        assert(Seq::<Tree>::empty() + more =~= more);
    }
}

/// One item put before the items that were read, then items before that,
/// are the items with that item at their end put before what was read.
proof fn lemma_with_items_push(
    items: Seq<Tree>,
    item: Tree,
    found: Result<(Seq<Tree>, Seq<char>), Error>,
)
    ensures
        with_items(items, with_items(seq![item], found)) == with_items(items.push(item), found),
{
    if let Ok((more, rest)) = found {
        assert(items + (seq![item] + more) =~= items.push(item) + more);
    }
}

/// No entries put before the entries that were read change nothing.
proof fn lemma_with_entries_empty(found: Result<(Seq<(Tree, Tree)>, Seq<char>), Error>)
    ensures
        with_entries(Seq::empty(), found) == found,
{
    if let Ok((more, rest)) = found {
        assert(Seq::<(Tree, Tree)>::empty() + more =~= more);
    }
}

/// One entry put before the entries that were read, then entries before
/// that, are the entries with that entry at their end put before what was
/// read.
proof fn lemma_with_entries_push(
    entries: Seq<(Tree, Tree)>,
    entry: (Tree, Tree),
    found: Result<(Seq<(Tree, Tree)>, Seq<char>), Error>,
)
    ensures
        with_entries(entries, with_entries(seq![entry], found)) == with_entries(
            entries.push(entry),
            found,
        ),
{
    if let Ok((more, rest)) = found {
        assert(entries + (seq![entry] + more) =~= entries.push(entry) + more);
    }
}

/// Skipping twice is skipping the sum.
proof fn lemma_skip_skip(s: Seq<char>, a: int, b: int)
    requires
        0 <= a,
        0 <= b,
        a + b <= s.len(),
    ensures
        s.skip(a).skip(b) == s.skip(a + b),
{
    assert(s.skip(a).skip(b) =~= s.skip(a + b));
}

/// A decoder with its text and its cursor. The text is held as characters,
/// so that the cursor moves from one to the next in constant time; the
/// cursor only ever moves forward.
pub struct Deserializer {
    input: Vec<char>,
    pos: usize,
}

impl View for Deserializer {
    type V = Seq<char>;

    /// The text that is left to read.
    open spec fn view(&self) -> Seq<char> {
        self.text().skip(self.position() as int)
    }
}

impl Deserializer {
    #[verifier::type_invariant]
    spec fn in_bounds(self) -> bool {
        self.pos <= self.input.len()
    }

    /// The whole text, read or not.
    pub closed spec fn text(&self) -> Seq<char> {
        self.input@
    }

    /// How many characters of the text have been read.
    pub closed spec fn position(&self) -> nat {
        self.pos as nat
    }

    /// Whether this decoder is `earlier` after some reading: the text is
    /// the same, and the cursor stands where it stood or further on, within
    /// the text.
    pub open spec fn is_ahead_of(self, earlier: Deserializer) -> bool {
        &&& self.text() == earlier.text()
        &&& earlier.position() <= self.position() <= self.text().len()
    }

    /// A decoder that is to read `input` from its start.
    pub fn from_str(input: &str) -> (de: Deserializer)
        ensures
            de@ == input@,
            de.text() == input@,
            de.position() == 0,
    {
        let chars = chars_of(input);
        let de = Deserializer { input: chars, pos: 0 };
        assert(de@ =~= input@);
        de
    }

    /// Where the longest run of characters of `class` that starts at `from`
    /// ends.
    fn run_end(&self, from: usize, class: Class) -> (end: usize)
        requires
            from <= self.input.len(),
        ensures
            end == from + run_len(self.input@.skip(from as int), class),
            end <= self.input.len(),
    {
        let mut end: usize = from;
        while end < self.input.len() && in_class(self.input[end], class)
            invariant
                from <= end <= self.input.len(),
                from + run_len(self.input@.skip(from as int), class) == end + run_len(
                    self.input@.skip(end as int),
                    class,
                ),
            decreases self.input.len() - end,
        {
            proof {
                lemma_skip_skip(self.input@, end as int, 1);
            }
            end += 1;
        }
        end
    }

    /// Moves past white space.
    pub fn skip_whitespace(&mut self)
        ensures
            final(self).is_ahead_of(*old(self)),
            final(self)@ == skip_spaces(old(self)@),
    {
        proof {
            use_type_invariant(&*self);
        }
        let end = self.run_end(self.pos, Class::Space);
        proof {
            lemma_skip_skip(self.input@, self.pos as int, end - self.pos);
        }
        self.pos = end;
    }

    /// The next character, which stays unread; `Eof` where none is left.
    pub fn peek(&self) -> (res: Result<char, Error>)
        ensures
            res == if self@.len() == 0 {
                Err::<char, Error>(Error::Eof)
            } else {
                Ok(self@[0])
            },
    {
        proof {
            use_type_invariant(self);
        }
        if self.pos < self.input.len() {
            Ok(self.input[self.pos])
        } else {
            Err(Error::Eof)
        }
    }

    /// Reads the next character; `Eof` where none is left.
    pub fn advance(&mut self) -> (res: Result<char, Error>)
        ensures
            final(self).is_ahead_of(*old(self)),
            res == if old(self)@.len() == 0 {
                Err::<char, Error>(Error::Eof)
            } else {
                Ok(old(self)@[0])
            },
            final(self)@ == if old(self)@.len() == 0 {
                old(self)@
            } else {
                old(self)@.skip(1)
            },
    {
        proof {
            use_type_invariant(&*self);
        }
        if self.pos < self.input.len() {
            let c = self.input[self.pos];
            proof {
                lemma_skip_skip(self.input@, self.pos as int, 1);
            }
            self.pos += 1;
            Ok(c)
        } else {
            Err(Error::Eof)
        }
    }

    /// Reads one fixed token. Where the text does not start with it the
    /// cursor stays, and the error is `Eof` if the text ended before the
    /// token did, `tag` if a character differed.
    pub fn consume_expected(&mut self, token: &str, tag: Error) -> (res: Result<(), Error>)
        ensures
            final(self).is_ahead_of(*old(self)),
            match expect(old(self)@, token@, tag) {
                Ok(rest) => res is Ok && final(self)@ == rest,
                Err(e) => res == Err::<(), Error>(e) && final(self)@ == old(self)@,
            },
    {
        proof {
            use_type_invariant(&*self);
        }
        let wanted = chars_of(token);
        let left = self.input.len() - self.pos;
        let mut i: usize = 0;
        while i < wanted.len()
            invariant
                self.is_ahead_of(*old(self)),
                self.pos <= self.input.len(),
                left == self.input.len() - self.pos,
                i <= wanted.len(),
                i <= left,
                wanted@ == token@,
                forall|j: int| 0 <= j < i ==> self.input[self.pos + j] == wanted[j],
            decreases wanted.len() - i,
        {
            if i >= left {
                proof {
                    assert(self@ =~= token@.subrange(0, self@.len() as int));
                    assert(!token@.is_prefix_of(self@));
                }
                return Err(Error::Eof);
            }
            if self.input[self.pos + i] != wanted[i] {
                proof {
                    assert(self@[i as int] != token@[i as int]);
                    if self@.len() <= token@.len() {
                        assert(token@.subrange(0, self@.len() as int)[i as int]
                            == token@[i as int]);
                    }
                    if token@.len() <= self@.len() {
                        assert(self@.subrange(0, token@.len() as int)[i as int]
                            == self@[i as int]);
                    }
                }
                return Err(tag);
            }
            i += 1;
        }
        proof {
            assert(token@ =~= self@.subrange(0, token@.len() as int));
            lemma_skip_skip(self.input@, self.pos as int, wanted.len() as int);
        }
        self.pos += wanted.len();
        Ok(())
    }

    /// Where the first `c` between `from` and `to` stands; `to` where there
    /// is none.
    fn find(&self, from: usize, to: usize, c: char) -> (at: usize)
        requires
            from <= to <= self.input.len(),
        ensures
            from <= at <= to,
            at == from + first_index(self.input@.subrange(from as int, to as int), c),
    {
        let mut at: usize = from;
        while at < to && self.input[at] != c
            invariant
                from <= at <= to <= self.input.len(),
                from + first_index(self.input@.subrange(from as int, to as int), c) == at
                    + first_index(self.input@.subrange(at as int, to as int), c),
            decreases to - at,
        {
            proof {
                assert(self.input@.subrange(at as int, to as int).skip(1)
                    =~= self.input@.subrange(at + 1, to as int));
            }
            at += 1;
        }
        at
    }

    /// The number of the digits between `from` and `to`, read behind digits
    /// whose number is `acc`; `None` where one of them is no digit or the
    /// number is above `limit`.
    fn digits_after(
        &self,
        from: usize,
        to: usize,
        acc: u64,
        limit: u64,
        Ghost(before): Ghost<Seq<char>>,
    ) -> (res: Option<u64>)
        requires
            from <= to <= self.input.len(),
            limit <= 0xffff_ffff,
            acc <= limit,
            acc == digits_value(before),
            all_digits(before),
        ensures
            ({
                let ds = self.input@.subrange(from as int, to as int);
                res == if all_digits(ds) && digits_value(before + ds) <= limit {
                    Some(digits_value(before + ds) as u64)
                } else {
                    None
                }
            }),
    {
        let ghost ds = self.input@.subrange(from as int, to as int);
        let mut value: u64 = acc;
        let mut i: usize = from;
        proof {
            assert(before + ds.take(0) =~= before);
        }
        while i < to
            invariant
                from <= i <= to <= self.input.len(),
                ds == self.input@.subrange(from as int, to as int),
                limit <= 0xffff_ffff,
                value <= limit,
                all_digits(before),
                all_digits(ds.take(i - from)),
                value == digits_value(before + ds.take(i - from)),
            decreases to - i,
        {
            let c = self.input[i];
            proof {
                assert(ds[i - from] == c);
                assert(ds.take(i - from + 1) =~= ds.take(i - from).push(c));
                assert(before + ds.take(i - from + 1) =~= (before + ds.take(i - from)).push(c));
                lemma_digits_value_push(before + ds.take(i - from), c);
                assert((before + ds.take(i - from + 1)) + ds.skip(i - from + 1) =~= before + ds);
                lemma_digits_value_grows(before + ds.take(i - from + 1), ds.skip(i - from + 1));
            }
            if !('0' <= c && c <= '9') {
                return None;
            }
            let d: u64 = (c as u8 - 48) as u64;
            let next: u64 = value * 10 + d;
            if next > limit {
                return None;
            }
            value = next;
            i += 1;
        }
        proof {
            assert(ds.take(to - from) =~= ds);
        }
        Some(value)
    }

    /// The integer whose numeral stands between `from` and `to`.
    fn int_between(&self, from: usize, to: usize) -> (res: Option<i32>)
        requires
            from <= to <= self.input.len(),
        ensures
            res == int_value(self.input@.subrange(from as int, to as int)),
    {
        let ghost run = self.input@.subrange(from as int, to as int);
        let ghost none = Seq::<char>::empty();
        if from < to && self.input[from] == '-' {
            proof {
                assert(run.skip(1) =~= self.input@.subrange(from + 1, to as int));
                assert(none + run.skip(1) =~= run.skip(1));
            }
            if from + 1 == to {
                return None;
            }
            match self.digits_after(from + 1, to, 0, 0x8000_0000, Ghost(none)) {
                Some(m) => Some((-(m as i64)) as i32),
                None => None,
            }
        } else {
            proof {
                assert(none + run =~= run);
            }
            if from == to {
                return None;
            }
            match self.digits_after(from, to, 0, 0x7fff_ffff, Ghost(none)) {
                Some(m) => Some(m as i32),
                None => None,
            }
        }
    }

    /// The mantissa whose digits stand between `from` and `to`, and the
    /// number of those behind the point.
    fn mantissa_between(&self, from: usize, to: usize) -> (res: Option<(u32, usize)>)
        requires
            from <= to <= self.input.len(),
        ensures
            mantissa_value(self.input@.subrange(from as int, to as int)) == match res {
                Some((m, places)) => Some((m, places as nat)),
                None => None,
            },
    {
        let ghost body = self.input@.subrange(from as int, to as int);
        let ghost none = Seq::<char>::empty();
        let dot = self.find(from, to, '.');
        let behind = if dot == to {
            to
        } else {
            dot + 1
        };
        let ghost whole = body.take(dot - from);
        let ghost fraction = if dot == to {
            none
        } else {
            body.skip(dot - from + 1)
        };
        proof {
            assert(whole =~= self.input@.subrange(from as int, dot as int));
            assert(fraction =~= self.input@.subrange(behind as int, to as int));
            assert(none + whole =~= whole);
            lemma_all_digits_concat(whole, fraction);
            lemma_digits_value_grows(whole, fraction);
        }
        if dot == from || (dot < to && behind == to) {
            return None;
        }
        let first = match self.digits_after(from, dot, 0, 0xffff_ffff, Ghost(none)) {
            Some(v) => v,
            None => {
                return None;
            },
        };
        match self.digits_after(behind, to, first, 0xffff_ffff, Ghost(whole)) {
            Some(v) => Some((v as u32, to - behind)),
            None => None,
        }
    }

    /// The decimal whose numeral stands between `from` and `to`.
    fn decimal_between(&self, from: usize, to: usize) -> (res: Option<Decimal>)
        requires
            from <= to <= self.input.len(),
        ensures
            res == decimal_value(self.input@.subrange(from as int, to as int)),
    {
        let ghost run = self.input@.subrange(from as int, to as int);
        let e = self.find(from, to, 'e');
        let negative = from < e && self.input[from] == '-';
        let start = if negative {
            from + 1
        } else {
            from
        };
        proof {
            let head = run.take(e - from);
            assert(head =~= self.input@.subrange(from as int, e as int));
            if negative {
                assert(head.skip(1) =~= self.input@.subrange(start as int, e as int));
            }
            if e < to {
                assert(run.skip(e - from + 1) =~= self.input@.subrange(e + 1, to as int));
            }
        }
        let digits = self.mantissa_between(start, e);
        let written = if e == to {
            Some(0)
        } else {
            self.int_between(e + 1, to)
        };
        combine(negative, digits, written)
    }

    /// Reads the numeral of a 32-bit integer. After an error the cursor
    /// stands behind the white space that came first.
    pub fn parse_i32(&mut self) -> (res: Result<i32, Error>)
        ensures
            final(self).is_ahead_of(*old(self)),
            match parse_i32(old(self)@) {
                Ok((tree, rest)) => res matches Ok(n) && tree == Tree::I32(n) && final(self)@
                    == rest,
                Err(e) => res == Err::<i32, Error>(e) && final(self)@ == skip_spaces(
                    old(self)@,
                ),
            },
    {
        self.skip_whitespace();
        proof {
            use_type_invariant(&*self);
        }
        if self.pos >= self.input.len() {
            return Err(Error::Eof);
        }
        let end = self.run_end(self.pos, Class::Integer);
        proof {
            assert(self@.take(end - self.pos) =~= self.input@.subrange(
                self.pos as int,
                end as int,
            ));
            lemma_skip_skip(self.input@, self.pos as int, end - self.pos);
        }
        match self.int_between(self.pos, end) {
            Some(n) => {
                self.pos = end;
                Ok(n)
            },
            None => Err(Error::ExpectedI32),
        }
    }

    /// Reads the numeral of a float. After an error the cursor stands
    /// behind the white space that came first.
    pub fn parse_f32(&mut self) -> (res: Result<Decimal, Error>)
        ensures
            final(self).is_ahead_of(*old(self)),
            match parse_f32(old(self)@) {
                Ok((tree, rest)) => res matches Ok(d) && tree == Tree::F32(d) && final(self)@
                    == rest,
                Err(e) => res == Err::<Decimal, Error>(e) && final(self)@ == skip_spaces(
                    old(self)@,
                ),
            },
    {
        self.skip_whitespace();
        proof {
            use_type_invariant(&*self);
        }
        if self.pos >= self.input.len() {
            return Err(Error::Eof);
        }
        let end = self.run_end(self.pos, Class::Float);
        proof {
            assert(self@.take(end - self.pos) =~= self.input@.subrange(
                self.pos as int,
                end as int,
            ));
            lemma_skip_skip(self.input@, self.pos as int, end - self.pos);
        }
        match self.decimal_between(self.pos, end) {
            Some(d) => {
                self.pos = end;
                Ok(d)
            },
            None => Err(Error::ExpectedF32),
        }
    }

    /// Reads `null`. After an error the cursor stands behind the white
    /// space that came first.
    pub fn parse_null(&mut self) -> (res: Result<(), Error>)
        ensures
            final(self).is_ahead_of(*old(self)),
            match parse_null(old(self)@) {
                Ok((_, rest)) => res is Ok && final(self)@ == rest,
                Err(e) => res == Err::<(), Error>(e) && final(self)@ == skip_spaces(
                    old(self)@,
                ),
            },
    {
        self.skip_whitespace();
        if self.peek().is_err() {
            return Err(Error::Eof);
        }
        proof {
            reveal_strlit("null");
            assert("null"@ =~= null_text());
        }
        match self.consume_expected("null", Error::ExpectedNull) {
            Ok(_) => Ok(()),
            Err(_) => Err(Error::ExpectedNull),
        }
    }

    /// Reads `true` or `false`. After an error the cursor stands behind the
    /// white space that came first.
    pub fn parse_bool(&mut self) -> (res: Result<bool, Error>)
        ensures
            final(self).is_ahead_of(*old(self)),
            match parse_bool(old(self)@) {
                Ok((tree, rest)) => res matches Ok(b) && tree == Tree::Bool(b) && final(self)@
                    == rest,
                Err(e) => res == Err::<bool, Error>(e) && final(self)@ == skip_spaces(
                    old(self)@,
                ),
            },
    {
        self.skip_whitespace();
        if self.peek().is_err() {
            return Err(Error::Eof);
        }
        proof {
            reveal_strlit("true");
            reveal_strlit("false");
            assert("true"@ =~= true_text());
            assert("false"@ =~= false_text());
        }
        if self.consume_expected("true", Error::ExpectedBoolean).is_ok() {
            Ok(true)
        } else if self.consume_expected("false", Error::ExpectedBoolean).is_ok() {
            Ok(false)
        } else {
            Err(Error::ExpectedBoolean)
        }
    }

    /// Reads a numeral: a float where a point or an `e` follows the leading
    /// sign and digits, an integer otherwise. After an error the cursor
    /// stands behind the white space that came first.
    pub fn parse_number(&mut self) -> (res: Result<Value, Error>)
        ensures
            final(self).is_ahead_of(*old(self)),
            match parse_number(old(self)@) {
                Ok((tree, rest)) => res matches Ok(v) && v@ == tree && final(self)@ == rest,
                Err(e) => res == Err::<Value, Error>(e) && final(self)@ == skip_spaces(
                    old(self)@,
                ),
            },
    {
        self.skip_whitespace();
        proof {
            use_type_invariant(&*self);
            lemma_skip_spaces_twice(old(self)@);
        }
        let end = self.run_end(self.pos, Class::Integer);
        if end < self.input.len() && (self.input[end] == '.' || self.input[end] == 'e') {
            match self.parse_f32() {
                Ok(d) => Ok(Value::F32(d)),
                Err(e) => Err(e),
            }
        } else {
            match self.parse_i32() {
                Ok(n) => Ok(Value::I32(n)),
                Err(e) => Err(e),
            }
        }
    }

    /// Reads a string. After an error the cursor stands behind the white
    /// space that came first.
    pub fn parse_string(&mut self) -> (res: Result<String, Error>)
        ensures
            final(self).is_ahead_of(*old(self)),
            match parse_string(old(self)@) {
                Ok((text, rest)) => res matches Ok(s) && s@ == text && final(self)@ == rest,
                Err(e) => res == Err::<String, Error>(e) && final(self)@ == skip_spaces(
                    old(self)@,
                ),
            },
    {
        self.skip_whitespace();
        proof {
            use_type_invariant(&*self);
        }
        if self.pos >= self.input.len() {
            return Err(Error::Eof);
        }
        if self.input[self.pos] != '"' {
            return Err(Error::ExpectedString);
        }
        let ghost t = self@;
        let ghost body = t.skip(1);
        let mut out = String::new();
        let mut i: usize = self.pos + 1;
        proof {
            lemma_skip_skip(self.input@, self.pos as int, 1);
            assert(out@ + Seq::<char>::empty() =~= out@);
            assert(Seq::<char>::empty() + Seq::<char>::empty() =~= Seq::<char>::empty());
            lemma_with_text_empty(unquote(body));
        }
        loop
            invariant
                self.is_ahead_of(*old(self)),
                self.pos < i <= self.input.len(),
                self@ == t,
                t == skip_spaces(old(self)@),
                t.len() > 0 && t[0] == '"',
                body == t.skip(1),
                unquote(body) == with_text(out@, unquote(self.input@.skip(i as int))),
            decreases self.input.len() - i,
        {
            let ghost left = self.input@.skip(i as int);
            if i >= self.input.len() {
                return Err(Error::ExpectedString);
            }
            let c = self.input[i];
            if c == '"' {
                proof {
                    lemma_skip_skip(self.input@, i as int, 1);
                    assert(out@ + Seq::<char>::empty() =~= out@);
                }
                self.pos = i + 1;
                return Ok(out);
            } else if c == '\\' {
                if i + 1 >= self.input.len() {
                    return Err(Error::ExpectedString);
                }
                let letter = self.input[i + 1];
                let ghost prior = out@;
                if letter == '"' || letter == '\\' {
                    out.push(letter);
                } else if letter == 'n' {
                    out.push('\n');
                } else if letter == 't' {
                    out.push('\t');
                } else if letter == 'r' {
                    out.push('\r');
                } else {
                    return Err(Error::ExpectedString);
                }
                proof {
                    lemma_skip_skip(self.input@, i as int, 2);
                    lemma_with_text_push(prior, unescape_letter(letter), unquote(left.skip(2)));
                }
                i += 2;
            } else {
                let ghost prior = out@;
                out.push(c);
                proof {
                    lemma_skip_skip(self.input@, i as int, 1);
                    lemma_with_text_push(prior, c, unquote(left.skip(1)));
                }
                i += 1;
            }
        }
    }

    /// Reads `@` and the tag of a variant.
    fn parse_tag(&mut self) -> (res: Result<String, Error>)
        ensures
            final(self).is_ahead_of(*old(self)),
            match parse_tag(old(self)@) {
                Ok((text, rest)) => res matches Ok(s) && s@ == text && final(self)@ == rest,
                Err(e) => res == Err::<String, Error>(e),
            },
    {
        self.skip_whitespace();
        proof {
            reveal_strlit("@");
            assert("@"@ =~= seq!['@']);
        }
        match self.consume_expected("@", Error::ExpectedEnum) {
            Ok(_) => {},
            Err(e) => {
                return Err(e);
            },
        }
        match self.parse_string() {
            Ok(tag) => Ok(tag),
            Err(Error::Eof) => Err(Error::Eof),
            Err(_) => Err(Error::ExpectedEnum),
        }
    }

    /// Reads a value, whatever its kind.
    pub fn parse_value(&mut self) -> (res: Result<Value, Error>)
        ensures
            final(self).is_ahead_of(*old(self)),
            match parse_value(old(self)@) {
                Ok((tree, rest)) => res matches Ok(v) && v@ == tree && final(self)@ == rest,
                Err(e) => res == Err::<Value, Error>(e),
            },
        decreases old(self)@.len(), 1nat,
    {
        let ghost start = self@;
        self.skip_whitespace();
        proof {
            lemma_skip_spaces_twice(start);
            lemma_run_len_bound(start, Class::Space);
        }
        let c = match self.peek() {
            Ok(c) => c,
            Err(e) => {
                return Err(e);
            },
        };
        if c == 'n' {
            match self.parse_null() {
                Ok(_) => Ok(Value::Null),
                Err(e) => Err(e),
            }
        } else if c == 't' || c == 'f' {
            match self.parse_bool() {
                Ok(b) => Ok(Value::Bool(b)),
                Err(e) => Err(e),
            }
        } else if c == '-' || ('0' <= c && c <= '9') {
            self.parse_number()
        } else if c == '"' {
            match self.parse_string() {
                Ok(s) => Ok(Value::Str(s)),
                Err(e) => Err(e),
            }
        } else if c == '[' {
            match self.parse_array() {
                Ok(items) => Ok(Value::Array(items)),
                Err(e) => Err(e),
            }
        } else if c == '{' {
            match self.parse_map() {
                Ok(entries) => Ok(Value::Dict(entries)),
                Err(e) => Err(e),
            }
        } else if c == '@' {
            self.parse_enum()
        } else if c == '#' {
            match self.parse_node() {
                Ok(node) => Ok(Value::Node(node)),
                Err(e) => Err(e),
            }
        } else {
            Err(Error::Syntax)
        }
    }

    /// Reads an array.
    pub fn parse_array(&mut self) -> (res: Result<Vec<Value>, Error>)
        ensures
            final(self).is_ahead_of(*old(self)),
            match parse_array(old(self)@) {
                Ok((items, rest)) => res matches Ok(v) && trees(v@) == items && final(self)@
                    == rest,
                Err(e) => res == Err::<Vec<Value>, Error>(e),
            },
        decreases old(self)@.len(), 0nat,
    {
        let ghost start = self@;
        self.skip_whitespace();
        proof {
            reveal_strlit("[");
            assert("["@ =~= seq!['[']);
            lemma_run_len_bound(start, Class::Space);
        }
        match self.consume_expected("[", Error::ExpectedArray) {
            Ok(_) => {},
            Err(e) => {
                return Err(e);
            },
        }
        let ghost inner = self@;
        self.skip_whitespace();
        proof {
            lemma_run_len_bound(inner, Class::Space);
        }
        match self.peek() {
            Err(_) => Err(Error::ExpectedArrayEnd),
            Ok(c) => {
                if c == ']' {
                    let _ = self.advance();
                    let items: Vec<Value> = Vec::new();
                    assert(trees(items@) =~= Seq::<Tree>::empty());
                    Ok(items)
                } else {
                    self.parse_items()
                }
            },
        }
    }

    /// Reads the items of an array from the first item on, and the closing
    /// bracket.
    fn parse_items(&mut self) -> (res: Result<Vec<Value>, Error>)
        ensures
            final(self).is_ahead_of(*old(self)),
            match parse_items(old(self)@) {
                Ok((items, rest)) => res matches Ok(v) && trees(v@) == items && final(self)@
                    == rest,
                Err(e) => res == Err::<Vec<Value>, Error>(e),
            },
        decreases old(self)@.len(), 2nat,
    {
        let ghost start = self@;
        let mut items: Vec<Value> = Vec::new();
        proof {
            use_type_invariant(&*self);
            assert(trees(items@) =~= Seq::<Tree>::empty());
            lemma_with_items_empty(parse_items(start));
        }
        loop
            invariant
                self.is_ahead_of(*old(self)),
                start == old(self)@,
                self@.len() <= start.len(),
                parse_items(start) == with_items(trees(items@), parse_items(self@)),
            decreases self@.len(),
        {
            let ghost cur = self@;
            let ghost before = trees(items@);
            let item = match self.parse_value() {
                Ok(v) => v,
                Err(e) => {
                    return Err(e);
                },
            };
            let ghost rest = self@;
            proof {
                lemma_parse_value_outcome(cur);
                lemma_run_len_bound(rest, Class::Space);
            }
            self.skip_whitespace();
            let ghost u = self@;
            match self.peek() {
                Err(_) => {
                    return Err(Error::ExpectedArrayEnd);
                },
                Ok(c) => {
                    if c == ']' {
                        let _ = self.advance();
                        proof {
                            lemma_trees_push(items@, item);
                            assert(before + seq![item@] =~= before.push(item@));
                        }
                        items.push(item);
                        return Ok(items);
                    } else if c == ',' {
                        let _ = self.advance();
                        proof {
                            lemma_trees_push(items@, item);
                            lemma_parse_items_next(cur, item@, rest);
                            lemma_with_items_push(before, item@, parse_items(u.skip(1)));
                        }
                        items.push(item);
                    } else {
                        return Err(Error::ExpectedArrayComma);
                    }
                },
            }
        }
    }

    /// Reads a map.
    pub fn parse_map(&mut self) -> (res: Result<Vec<(Value, Value)>, Error>)
        ensures
            final(self).is_ahead_of(*old(self)),
            match parse_map(old(self)@) {
                Ok((entries, rest)) => res matches Ok(v) && pairs(v@) == entries && final(self)@
                    == rest,
                Err(e) => res == Err::<Vec<(Value, Value)>, Error>(e),
            },
        decreases old(self)@.len(), 0nat,
    {
        let ghost start = self@;
        self.skip_whitespace();
        proof {
            reveal_strlit("{");
            assert("{"@ =~= seq!['{']);
            lemma_run_len_bound(start, Class::Space);
        }
        match self.consume_expected("{", Error::ExpectedMap) {
            Ok(_) => {},
            Err(e) => {
                return Err(e);
            },
        }
        let ghost inner = self@;
        self.skip_whitespace();
        proof {
            lemma_run_len_bound(inner, Class::Space);
        }
        match self.peek() {
            Err(_) => Err(Error::ExpectedMapEnd),
            Ok(c) => {
                if c == '}' {
                    let _ = self.advance();
                    let entries: Vec<(Value, Value)> = Vec::new();
                    assert(pairs(entries@) =~= Seq::<(Tree, Tree)>::empty());
                    Ok(entries)
                } else {
                    self.parse_entries()
                }
            },
        }
    }

    /// Reads the entries of a map from the first key on, and the closing
    /// brace.
    fn parse_entries(&mut self) -> (res: Result<Vec<(Value, Value)>, Error>)
        ensures
            final(self).is_ahead_of(*old(self)),
            match parse_entries(old(self)@) {
                Ok((entries, rest)) => res matches Ok(v) && pairs(v@) == entries && final(self)@
                    == rest,
                Err(e) => res == Err::<Vec<(Value, Value)>, Error>(e),
            },
        decreases old(self)@.len(), 2nat,
    {
        let ghost start = self@;
        let mut entries: Vec<(Value, Value)> = Vec::new();
        proof {
            use_type_invariant(&*self);
            assert(pairs(entries@) =~= Seq::<(Tree, Tree)>::empty());
            lemma_with_entries_empty(parse_entries(start));
            reveal_strlit(":");
            assert(":"@ =~= seq![':']);
        }
        loop
            invariant
                self.is_ahead_of(*old(self)),
                start == old(self)@,
                self@.len() <= start.len(),
                ":"@ == seq![':'],
                parse_entries(start) == with_entries(pairs(entries@), parse_entries(self@)),
            decreases self@.len(),
        {
            let ghost cur = self@;
            let ghost before = pairs(entries@);
            let key = match self.parse_value() {
                Ok(v) => v,
                Err(e) => {
                    return Err(e);
                },
            };
            let ghost after_key = self@;
            proof {
                lemma_parse_value_outcome(cur);
                lemma_run_len_bound(after_key, Class::Space);
            }
            self.skip_whitespace();
            match self.consume_expected(":", Error::ExpectedMapColon) {
                Ok(_) => {},
                Err(e) => {
                    return Err(e);
                },
            }
            let ghost after_colon = self@;
            let value = match self.parse_value() {
                Ok(v) => v,
                Err(e) => {
                    return Err(e);
                },
            };
            let ghost rest = self@;
            proof {
                lemma_parse_value_outcome(after_colon);
                lemma_run_len_bound(rest, Class::Space);
            }
            self.skip_whitespace();
            let ghost u = self@;
            match self.peek() {
                Err(_) => {
                    return Err(Error::ExpectedMapEnd);
                },
                Ok(c) => {
                    if c == '}' {
                        let _ = self.advance();
                        proof {
                            lemma_pairs_push(entries@, key, value);
                            assert(before + seq![(key@, value@)] =~= before.push((key@, value@)));
                        }
                        entries.push((key, value));
                        return Ok(entries);
                    } else if c == ',' {
                        let _ = self.advance();
                        proof {
                            lemma_pairs_push(entries@, key, value);
                            lemma_parse_entries_next(
                                cur,
                                key@,
                                after_key,
                                after_colon,
                                value@,
                                rest,
                            );
                            lemma_with_entries_push(
                                before,
                                (key@, value@),
                                parse_entries(u.skip(1)),
                            );
                        }
                        entries.push((key, value));
                    } else {
                        return Err(Error::ExpectedMapComma);
                    }
                },
            }
        }
    }

    /// Reads a variant, whatever its tag.
    pub fn parse_enum(&mut self) -> (res: Result<Value, Error>)
        ensures
            final(self).is_ahead_of(*old(self)),
            match parse_enum(old(self)@) {
                Ok((tree, rest)) => res matches Ok(v) && v@ == tree && final(self)@ == rest,
                Err(e) => res == Err::<Value, Error>(e),
            },
        decreases old(self)@.len(), 0nat,
    {
        let ghost start = self@;
        let tag = match self.parse_tag() {
            Ok(tag) => tag,
            Err(e) => {
                return Err(e);
            },
        };
        proof {
            lemma_parse_tag_outcome(start);
        }
        match self.parse_value() {
            Ok(payload) => Ok(Value::EnumVariant(tag, Box::new(payload))),
            Err(e) => Err(e),
        }
    }

    /// Reads a node, whatever its shape.
    pub fn parse_node(&mut self) -> (res: Result<Node, Error>)
        ensures
            final(self).is_ahead_of(*old(self)),
            match parse_node(old(self)@) {
                Ok((tree, rest)) => res matches Ok(node) && Value::Node(node)@ == tree
                    && final(self)@ == rest,
                Err(e) => res == Err::<Node, Error>(e),
            },
        decreases old(self)@.len(), 0nat,
    {
        let ghost start = self@;
        self.skip_whitespace();
        proof {
            reveal_strlit("#");
            assert("#"@ =~= seq!['#']);
            lemma_run_len_bound(start, Class::Space);
        }
        match self.consume_expected("#", Error::ExpectedNode) {
            Ok(_) => {},
            Err(e) => {
                return Err(e);
            },
        }
        let ghost inner = self@;
        self.skip_whitespace();
        proof {
            lemma_run_len_bound(inner, Class::Space);
            lemma_skip_spaces_twice(inner);
        }
        match self.peek() {
            Err(e) => Err(e),
            Ok(c) => {
                if c == '[' {
                    match self.parse_array() {
                        Ok(items) => Ok(Node::Tuple(items)),
                        Err(e) => Err(e),
                    }
                } else if c == '{' {
                    match self.parse_map() {
                        Ok(entries) => Ok(Node::Record(entries)),
                        Err(e) => Err(e),
                    }
                } else {
                    Err(Error::ExpectedNode)
                }
            },
        }
    }

    /// Reads a variant of an enumeration whose tags are `variants`: a tag
    /// that is none of them is refused before the payload is read.
    pub fn parse_enum_of(&mut self, variants: &Vec<String>) -> (res: Result<Value, Error>)
        ensures
            final(self).is_ahead_of(*old(self)),
            match parse_enum_of(old(self)@, texts(variants@)) {
                Ok((tree, rest)) => res matches Ok(v) && v@ == tree && final(self)@ == rest,
                Err(e) => res == Err::<Value, Error>(e),
            },
    {
        let tag = match self.parse_tag() {
            Ok(tag) => tag,
            Err(e) => {
                return Err(e);
            },
        };
        if !is_one_of(&tag, variants) {
            return Err(Error::ExpectedEnum);
        }
        match self.parse_value() {
            Ok(payload) => Ok(Value::EnumVariant(tag, Box::new(payload))),
            Err(e) => Err(e),
        }
    }

    /// Reads a node of a declared shape: the other bracket, or another
    /// number of fields, is refused.
    pub fn parse_node_of(&mut self, shape: Shape) -> (res: Result<Node, Error>)
        ensures
            final(self).is_ahead_of(*old(self)),
            match parse_node_of(old(self)@, shape) {
                Ok((tree, rest)) => res matches Ok(node) && Value::Node(node)@ == tree
                    && final(self)@ == rest,
                Err(e) => res == Err::<Node, Error>(e),
            },
    {
        self.skip_whitespace();
        proof {
            reveal_strlit("#");
            assert("#"@ =~= seq!['#']);
        }
        match self.consume_expected("#", Error::ExpectedNode) {
            Ok(_) => {},
            Err(e) => {
                return Err(e);
            },
        }
        let ghost inner = self@;
        self.skip_whitespace();
        proof {
            lemma_skip_spaces_twice(inner);
        }
        let c = match self.peek() {
            Ok(c) => c,
            Err(e) => {
                return Err(e);
            },
        };
        match shape {
            Shape::Tuple(n) => {
                if c != '[' {
                    return Err(Error::ExpectedNode);
                }
                match self.parse_array() {
                    Ok(items) => if items.len() == n {
                        Ok(Node::Tuple(items))
                    } else {
                        Err(Error::ExpectedNode)
                    },
                    Err(e) => Err(e),
                }
            },
            Shape::Record(n) => {
                if c != '{' {
                    return Err(Error::ExpectedNode);
                }
                match self.parse_map() {
                    Ok(entries) => if entries.len() == n {
                        Ok(Node::Record(entries))
                    } else {
                        Err(Error::ExpectedNode)
                    },
                    Err(e) => Err(e),
                }
            },
        }
    }

    /// Checks that nothing but white space is left.
    pub fn end(&mut self) -> (res: Result<(), Error>)
        ensures
            final(self).is_ahead_of(*old(self)),
            res == if skip_spaces(old(self)@).len() == 0 {
                Ok::<(), Error>(())
            } else {
                Err(Error::TrailingCharacters)
            },
            final(self)@ == skip_spaces(old(self)@),
    {
        self.skip_whitespace();
        match self.peek() {
            Ok(_) => Err(Error::TrailingCharacters),
            Err(_) => Ok(()),
        }
    }
}

/// Reads a whole text: one value, with nothing but white space behind it.
pub fn from_str(input: &str) -> (res: Result<Value, Error>)
    ensures
        match parse_document(input@) {
            Ok(tree) => res matches Ok(v) && v@ == tree,
            Err(e) => res == Err::<Value, Error>(e),
        },
{
    let mut de = Deserializer::from_str(input);
    let value = match de.parse_value() {
        Ok(v) => v,
        Err(e) => {
            return Err(e);
        },
    };
    match de.end() {
        Ok(_) => Ok(value),
        Err(e) => Err(e),
    }
}

} // verus!
