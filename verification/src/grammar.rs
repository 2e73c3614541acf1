//! The lexical layer of the notation: character classes, numerals and
//! string escapes, as mathematical functions on sequences of characters.
use vstd::prelude::*;
use crate::value::Decimal;

verus! {

/// The classes of characters that the decoder scans in runs.
#[derive(Clone, Copy, Debug, PartialEq, Eq, Structural)]
pub enum Class {
    /// Blank, tab, line feed and carriage return.
    Space,
    /// What an integer numeral is made of: the minus sign and the digits.
    Integer,
    /// What a float numeral is made of: as for an integer, and `.` and `e`.
    Float,
}

pub open spec fn is_space(c: char) -> bool {
    c == ' ' || c == '\t' || c == '\n' || c == '\r'
}

pub open spec fn is_digit(c: char) -> bool {
    '0' <= c <= '9'
}

impl Class {
    pub open spec fn holds(self, c: char) -> bool {
        match self {
            Class::Space => is_space(c),
            Class::Integer => c == '-' || is_digit(c),
            Class::Float => c == '-' || is_digit(c) || c == '.' || c == 'e',
        }
    }
}

/// The length of the longest prefix of `s` made of characters of `class`.
pub open spec fn run_len(s: Seq<char>, class: Class) -> nat
    decreases s.len(),
{
    if s.len() > 0 && class.holds(s[0]) {
        1 + run_len(s.skip(1), class)
    } else {
        0
    }
}

/// Whether every character of `s` is of `class`.
pub open spec fn all_of(s: Seq<char>, class: Class) -> bool {
    forall|i: int| 0 <= i < s.len() ==> class.holds(#[trigger] s[i])
}

/// `s` without its leading white space.
pub open spec fn skip_spaces(s: Seq<char>) -> Seq<char> {
    s.skip(run_len(s, Class::Space) as int)
}

/// The digit that stands for `d`, for `d` below ten.
pub open spec fn digit_char(d: nat) -> char {
    (d + 48) as char
}

/// The number that the digit `c` stands for.
pub open spec fn digit_value(c: char) -> nat {
    (c as nat - 48) as nat
}

/// The decimal numeral of `n`, without leading zeros.
pub open spec fn digits_of(n: nat) -> Seq<char>
    decreases n,
{
    if n < 10 {
        seq![digit_char(n)]
    } else {
        digits_of(n / 10).push(digit_char(n % 10))
    }
}

/// The number that a sequence of digits denotes.
pub open spec fn digits_value(ds: Seq<char>) -> nat
    decreases ds.len(),
{
    if ds.len() == 0 {
        0
    } else {
        digits_value(ds.drop_last()) * 10 + digit_value(ds.last())
    }
}

pub open spec fn all_digits(ds: Seq<char>) -> bool {
    forall|i: int| 0 <= i < ds.len() ==> is_digit(#[trigger] ds[i])
}

pub open spec fn null_text() -> Seq<char> {
    seq!['n', 'u', 'l', 'l']
}

pub open spec fn true_text() -> Seq<char> {
    seq!['t', 'r', 'u', 'e']
}

pub open spec fn false_text() -> Seq<char> {
    seq!['f', 'a', 'l', 's', 'e']
}

/// The numeral of an integer: a minus sign where it is negative, then the
/// digits of its magnitude.
pub open spec fn int_text(n: int) -> Seq<char> {
    if n < 0 {
        seq!['-'] + digits_of((-n) as nat)
    } else {
        digits_of(n as nat)
    }
}

/// The sign and the mantissa of a decimal, as they are written.
pub open spec fn mantissa_text(d: Decimal) -> Seq<char> {
    if d.negative {
        seq!['-'] + digits_of(d.mantissa as nat)
    } else {
        digits_of(d.mantissa as nat)
    }
}

/// The numeral of a decimal: sign, mantissa, `e`, exponent.
pub open spec fn decimal_text(d: Decimal) -> Seq<char> {
    mantissa_text(d) + seq!['e'] + int_text(d.exponent as int)
}

/// The position of the first `c` in `s`, or the length of `s` where it
/// holds none.
pub open spec fn first_index(s: Seq<char>, c: char) -> nat
    decreases s.len(),
{
    if s.len() > 0 && s[0] != c {
        1 + first_index(s.skip(1), c)
    } else {
        0
    }
}

/// The number that a run of digits denotes, where it is one and the number
/// is at most `limit`.
pub open spec fn bounded_value(ds: Seq<char>, limit: nat) -> Option<nat> {
    if ds.len() > 0 && all_digits(ds) && digits_value(ds) <= limit {
        Some(digits_value(ds))
    } else {
        None
    }
}

/// The 32-bit integer that a numeral denotes: an optional minus sign, then
/// one digit or more. `None` where the text is no such numeral or the
/// number does not fit.
pub open spec fn int_value(run: Seq<char>) -> Option<i32> {
    if run.len() > 0 && run[0] == '-' {
        match bounded_value(run.skip(1), 0x8000_0000) {
            Some(m) => Some((-m) as i32),
            None => None,
        }
    } else {
        match bounded_value(run, 0x7fff_ffff) {
            Some(m) => Some(m as i32),
            None => None,
        }
    }
}

/// The mantissa that the digits of a float numeral denote, and how many
/// of them stand behind the point: one digit or more, optionally a point
/// and one digit or more. `None` where the text is not of this form or the
/// number of all its digits is above the largest mantissa.
pub open spec fn mantissa_value(body: Seq<char>) -> Option<(u32, nat)> {
    let dot = first_index(body, '.') as int;
    let whole = body.take(dot);
    let fraction = if dot == body.len() {
        Seq::<char>::empty()
    } else {
        body.skip(dot + 1)
    };
    match bounded_value(whole + fraction, 0xffff_ffff) {
        Some(m) => if whole.len() > 0 && (dot == body.len() || fraction.len() > 0) {
            Some((m as u32, fraction.len()))
        } else {
            None
        },
        None => None,
    }
}

/// The decimal of a sign, a mantissa with the number of its digits behind
/// the point, and the exponent as it is written: each digit behind the
/// point lowers the exponent by one. `None` where a part is missing or the
/// exponent does not fit.
pub open spec fn decimal_of(
    negative: bool,
    digits: Option<(u32, nat)>,
    written: Option<i32>,
) -> Option<Decimal> {
    match (digits, written) {
        (Some((mantissa, places)), Some(x)) => if x - places >= -0x8000_0000 {
            Some(Decimal { negative, mantissa, exponent: (x - places) as i32 })
        } else {
            None
        },
        _ => None,
    }
}

/// The decimal that a float numeral denotes: an optional minus sign, the
/// digits with their optional point, then optionally `e` and an integer
/// numeral. `None` where the text is no such numeral, or the mantissa or
/// the exponent does not fit.
pub open spec fn decimal_value(run: Seq<char>) -> Option<Decimal> {
    let e = first_index(run, 'e') as int;
    let head = run.take(e);
    let negative = head.len() > 0 && head[0] == '-';
    let body = if negative {
        head.skip(1)
    } else {
        head
    };
    let written = if e == run.len() {
        Some(0i32)
    } else {
        int_value(run.skip(e + 1))
    };
    decimal_of(negative, mantissa_value(body), written)
}

/// The text of a string up to its closing quote, with each backslash and
/// the letter behind it replaced by the character they stand for, and what
/// follows the closing quote. `None` where no closing quote is found or a
/// backslash stands before something that is no escape letter.
pub open spec fn unquote(s: Seq<char>) -> Option<(Seq<char>, Seq<char>)>
    decreases s.len(),
{
    if s.len() == 0 {
        None
    } else if s[0] == '"' {
        Some((Seq::empty(), s.skip(1)))
    } else if s[0] == '\\' {
        if s.len() >= 2 && is_escape_letter(s[1]) {
            match unquote(s.skip(2)) {
                Some((text, rest)) => Some((seq![unescape_letter(s[1])] + text, rest)),
                None => None,
            }
        } else {
            None
        }
    } else {
        match unquote(s.skip(1)) {
            Some((text, rest)) => Some((seq![s[0]] + text, rest)),
            None => None,
        }
    }
}

/// `found`, with `text` put before what was read.
pub open spec fn with_text(text: Seq<char>, found: Option<(Seq<char>, Seq<char>)>) -> Option<
    (Seq<char>, Seq<char>),
> {
    match found {
        Some((more, rest)) => Some((text + more, rest)),
        None => None,
    }
}

/// Whether a character is written behind a backslash inside a string.
pub open spec fn needs_escape(c: char) -> bool {
    c == '"' || c == '\\' || c == '\n' || c == '\t' || c == '\r'
}

/// The letter that stands behind the backslash for a character that needs
/// one.
pub open spec fn escape_letter(c: char) -> char {
    if c == '\n' {
        'n'
    } else if c == '\t' {
        't'
    } else if c == '\r' {
        'r'
    } else {
        c
    }
}

/// Whether a letter may stand behind a backslash.
pub open spec fn is_escape_letter(c: char) -> bool {
    c == '"' || c == '\\' || c == 'n' || c == 't' || c == 'r'
}

/// The character that a letter behind a backslash stands for.
pub open spec fn unescape_letter(c: char) -> char {
    if c == 'n' {
        '\n'
    } else if c == 't' {
        '\t'
    } else if c == 'r' {
        '\r'
    } else {
        c
    }
}

/// One character as it is written inside a string.
pub open spec fn escape_char(c: char) -> Seq<char> {
    if needs_escape(c) {
        seq!['\\', escape_letter(c)]
    } else {
        seq![c]
    }
}

/// The characters of a string as they are written between its quotes.
pub open spec fn escape(s: Seq<char>) -> Seq<char>
    decreases s.len(),
{
    if s.len() == 0 {
        Seq::empty()
    } else {
        escape_char(s[0]) + escape(s.skip(1))
    }
}

/// A string as it is written: its escaped characters between two quotes.
pub open spec fn str_text(s: Seq<char>) -> Seq<char> {
    seq!['"'] + escape(s) + seq!['"']
}

/// Whether a numeral that stands before `rest` ends there: `rest` is empty
/// or starts with a character that no numeral holds.
pub open spec fn closes_numeral(rest: Seq<char>) -> bool {
    rest.len() == 0 || !Class::Float.holds(rest[0])
}

/// Whether a character can be the first of the text of a value.
pub open spec fn starts_value(c: char) -> bool {
    c == 'n' || c == 't' || c == 'f' || c == '-' || is_digit(c) || c == '"' || c == '[' || c
        == '{' || c == '@' || c == '#'
}

/// A run is no longer than the text it starts.
pub proof fn lemma_run_len_bound(s: Seq<char>, class: Class)
    ensures
        run_len(s, class) <= s.len(),
    decreases s.len(),
{
    if s.len() > 0 && class.holds(s[0]) {
        lemma_run_len_bound(s.skip(1), class);
    }
}

/// The first place of a character is within the text or at its end.
pub proof fn lemma_first_index_bound(s: Seq<char>, c: char)
    ensures
        first_index(s, c) <= s.len(),
    decreases s.len(),
{
    if s.len() > 0 && s[0] != c {
        lemma_first_index_bound(s.skip(1), c);
    }
}

/// A numeral that denotes an integer is not empty.
pub proof fn lemma_int_value_nonempty(run: Seq<char>)
    ensures
        int_value(run) is Some ==> run.len() > 0,
{
}

/// A numeral that denotes a decimal is not empty.
pub proof fn lemma_decimal_value_nonempty(run: Seq<char>)
    ensures
        decimal_value(run) is Some ==> run.len() > 0,
{
    lemma_first_index_bound(run, 'e');
}

/// A run ends at the end of the text or before a character that is not of
/// the class.
pub proof fn lemma_run_stops(s: Seq<char>, class: Class)
    ensures
        run_len(s, class) == s.len() || !class.holds(s[run_len(s, class) as int]),
    decreases s.len(),
{
    lemma_run_len_bound(s, class);
    if s.len() > 0 && class.holds(s[0]) {
        lemma_run_stops(s.skip(1), class);
    }
}

/// Every character of a run is of the class.
pub proof fn lemma_run_holds(s: Seq<char>, class: Class)
    ensures
        forall|i: int| 0 <= i < run_len(s, class) ==> class.holds(#[trigger] s[i]),
    decreases s.len(),
{
    lemma_run_len_bound(s, class);
    if s.len() > 0 && class.holds(s[0]) {
        lemma_run_holds(s.skip(1), class);
        assert forall|i: int| 0 <= i < run_len(s, class) implies class.holds(#[trigger] s[i]) by {
            if i > 0 {
                assert(s[i] == s.skip(1)[i - 1]);
            }
        }
    }
}

/// A prefix of characters of the class that ends at the end of the text,
/// or before a character that is not of the class, is the run.
pub proof fn lemma_run_is(s: Seq<char>, class: Class, n: int)
    requires
        0 <= n <= s.len(),
        forall|i: int| 0 <= i < n ==> class.holds(#[trigger] s[i]),
        n == s.len() || !class.holds(s[n]),
    ensures
        run_len(s, class) == n,
    decreases n,
{
    if n > 0 {
        assert(class.holds(s[0]));
        assert forall|i: int| 0 <= i < n - 1 implies class.holds(#[trigger] s.skip(1)[i]) by {
            assert(s.skip(1)[i] == s[i + 1]);
        }
        lemma_run_is(s.skip(1), class, n - 1);
    }
}

/// Text from which the white space was taken starts with none.
pub proof fn lemma_skip_spaces_twice(s: Seq<char>)
    ensures
        skip_spaces(skip_spaces(s)) == skip_spaces(s),
{
    lemma_run_len_bound(s, Class::Space);
    lemma_run_stops(s, Class::Space);
    let t = skip_spaces(s);
    assert(t.skip(0) =~= t);
}

/// A text made of two parts holds digits alone just where both parts do.
pub proof fn lemma_all_digits_concat(a: Seq<char>, b: Seq<char>)
    ensures
        all_digits(a + b) == (all_digits(a) && all_digits(b)),
{
    if all_digits(a + b) {
        assert forall|i: int| 0 <= i < a.len() implies is_digit(#[trigger] a[i]) by {
            assert((a + b)[i] == a[i]);
        }
        assert forall|i: int| 0 <= i < b.len() implies is_digit(#[trigger] b[i]) by {
            assert((a + b)[a.len() + i] == b[i]);
        }
    }
}

/// The number of a run of digits with one more digit at its end.
pub proof fn lemma_digits_value_push(ds: Seq<char>, c: char)
    ensures
        digits_value(ds.push(c)) == digits_value(ds) * 10 + digit_value(c),
{
    assert(ds.push(c).drop_last() =~= ds);
}

/// Digits behind a numeral do not make its number smaller.
pub proof fn lemma_digits_value_grows(a: Seq<char>, b: Seq<char>)
    ensures
        digits_value(a) <= digits_value(a + b),
    decreases b.len(),
{
    if b.len() == 0 {
        assert(a + b =~= a);
    } else {
        lemma_digits_value_grows(a, b.drop_last());
        assert((a + b).drop_last() =~= a + b.drop_last());
    }
}

/// What `unquote` leaves is shorter than what it was given.
pub proof fn lemma_unquote_shrinks(s: Seq<char>)
    ensures
        unquote(s) matches Some((_, rest)) ==> rest.len() < s.len(),
    decreases s.len(),
{
    if s.len() == 0 {
    } else if s[0] == '"' {
    } else if s[0] == '\\' {
        if s.len() >= 2 {
            lemma_unquote_shrinks(s.skip(2));
        }
    } else {
        lemma_unquote_shrinks(s.skip(1));
    }
}

/// `escape` of a string with one more character at its end.
pub proof fn lemma_escape_push(s: Seq<char>, c: char)
    ensures
        escape(s.push(c)) == escape(s) + escape_char(c),
    decreases s.len(),
{
    if s.len() == 0 {
        assert(s.push(c).skip(1) =~= Seq::<char>::empty());
        assert(escape(s.push(c)) =~= escape_char(c) + escape(Seq::<char>::empty()));
        assert(escape(s.push(c)) =~= escape(s) + escape_char(c));
    } else {
        lemma_escape_push(s.skip(1), c);
        assert(s.push(c).skip(1) =~= s.skip(1).push(c));
        assert(escape(s.push(c)) =~= escape(s) + escape_char(c));
    }
}

/// A place before which no `c` stands, and which is the end of the text or
/// holds `c`, is the first place of `c`.
pub proof fn lemma_first_index_is(s: Seq<char>, c: char, n: int)
    requires
        0 <= n <= s.len(),
        forall|i: int| 0 <= i < n ==> #[trigger] s[i] != c,
        n == s.len() || s[n] == c,
    ensures
        first_index(s, c) == n,
    decreases n,
{
    if n > 0 {
        assert(s[0] != c);
        assert forall|i: int| 0 <= i < n - 1 implies #[trigger] s.skip(1)[i] != c by {
            assert(s.skip(1)[i] == s[i + 1]);
        }
        lemma_first_index_is(s.skip(1), c, n - 1);
    }
}

/// A text of the class, followed by the end or by a character that is not
/// of the class, is the run of what it starts.
pub proof fn lemma_run_over(text: Seq<char>, rest: Seq<char>, class: Class)
    requires
        all_of(text, class),
        rest.len() == 0 || !class.holds(rest[0]),
    ensures
        run_len(text + rest, class) == text.len(),
        (text + rest).take(text.len() as int) == text,
        (text + rest).skip(text.len() as int) == rest,
{
    let s = text + rest;
    assert forall|i: int| 0 <= i < text.len() implies class.holds(#[trigger] s[i]) by {
        assert(s[i] == text[i]);
    }
    if rest.len() > 0 {
        assert(s[text.len() as int] == rest[0]);
    }
    lemma_run_is(s, class, text.len() as int);
    assert(s.take(text.len() as int) =~= text);
    assert(s.skip(text.len() as int) =~= rest);
}

/// White space before a text that starts with none is what `skip_spaces`
/// takes away.
pub proof fn lemma_skip_pad(pad: Seq<char>, body: Seq<char>)
    requires
        all_of(pad, Class::Space),
        body.len() == 0 || !is_space(body[0]),
    ensures
        skip_spaces(pad + body) == body,
        skip_spaces(body) == body,
{
    lemma_run_over(pad, body, Class::Space);
    lemma_run_over(Seq::<char>::empty(), body, Class::Space);
    assert(Seq::<char>::empty() + body =~= body);
    assert(body.skip(0) =~= body);
}

/// The numeral of a number is made of digits, and denotes the number.
pub proof fn lemma_digits_of(n: nat)
    ensures
        digits_of(n).len() > 0,
        all_digits(digits_of(n)),
        digits_value(digits_of(n)) == n,
    decreases n,
{
    if n < 10 {
        let ds = digits_of(n);
        assert(ds.drop_last() =~= Seq::<char>::empty());
        assert(digits_value(ds.drop_last()) == 0);
    } else {
        lemma_digits_of(n / 10);
        lemma_digits_value_push(digits_of(n / 10), digit_char(n % 10));
    }
}

/// The numeral of a 32-bit integer denotes it, and is made of a sign and
/// digits.
pub proof fn lemma_int_text(n: i32)
    ensures
        int_value(int_text(n as int)) == Some(n),
        int_text(n as int).len() > 0,
        all_of(int_text(n as int), Class::Integer),
        int_text(n as int)[0] == '-' || is_digit(int_text(n as int)[0]),
{
    let text = int_text(n as int);
    if n < 0 {
        let ds = digits_of((-n) as nat);
        lemma_digits_of((-n) as nat);
        assert(text.skip(1) =~= ds);
        assert forall|i: int| 0 <= i < text.len() implies Class::Integer.holds(
            #[trigger] text[i],
        ) by {
            if i > 0 {
                assert(text[i] == ds[i - 1]);
            }
        }
    } else {
        lemma_digits_of(n as nat);
    }
}

/// The digits of a mantissa hold no point, and denote the mantissa with no
/// digit behind the point.
pub proof fn lemma_mantissa_digits(m: u32)
    ensures
        mantissa_value(digits_of(m as nat)) == Some((m, 0nat)),
{
    let ds = digits_of(m as nat);
    lemma_digits_of(m as nat);
    lemma_first_index_is(ds, '.', ds.len() as int);
    assert(ds.take(ds.len() as int) =~= ds);
    assert(ds + Seq::<char>::empty() =~= ds);
}

/// The sign and the mantissa of a decimal, as they are written: they are
/// not empty, hold sign and digits alone, and start with the minus sign
/// just where the decimal is negative.
pub proof fn lemma_mantissa_text(d: Decimal)
    ensures
        mantissa_text(d).len() > 0,
        all_of(mantissa_text(d), Class::Integer),
        forall|i: int| 0 <= i < mantissa_text(d).len() ==> #[trigger] mantissa_text(d)[i] != 'e',
        (mantissa_text(d)[0] == '-') == d.negative,
        d.negative ==> mantissa_text(d).skip(1) == digits_of(d.mantissa as nat),
        !d.negative ==> mantissa_text(d) == digits_of(d.mantissa as nat),
{
    let ds = digits_of(d.mantissa as nat);
    let head = mantissa_text(d);
    lemma_digits_of(d.mantissa as nat);
    if d.negative {
        assert(head.skip(1) =~= ds);
        assert forall|i: int| 0 <= i < head.len() implies Class::Integer.holds(
            #[trigger] head[i],
        ) && head[i] != 'e' by {
            if i > 0 {
                assert(head[i] == ds[i - 1]);
            }
        }
    } else {
        assert(head =~= ds);
    }
}

/// The numeral of a decimal denotes it. It is made of sign, digits and
/// `e`, and its `e` stands behind its leading sign and digits.
pub proof fn lemma_decimal_text(d: Decimal)
    ensures
        decimal_value(decimal_text(d)) == Some(d),
        all_of(decimal_text(d), Class::Float),
        run_len(decimal_text(d), Class::Integer) < decimal_text(d).len(),
        decimal_text(d)[run_len(decimal_text(d), Class::Integer) as int] == 'e',
        decimal_text(d)[0] == '-' || is_digit(decimal_text(d)[0]),
{
    let head = mantissa_text(d);
    let tail = int_text(d.exponent as int);
    let run = decimal_text(d);
    let n = head.len() as int;
    lemma_mantissa_text(d);
    lemma_mantissa_digits(d.mantissa);
    lemma_int_text(d.exponent);
    assert(run =~= head + (seq!['e'] + tail));
    assert(run[0] == head[0]);
    assert(run[n] == 'e');
    assert forall|i: int| 0 <= i < run.len() implies Class::Float.holds(#[trigger] run[i]) by {
        if i < n {
            assert(run[i] == head[i]);
        } else if i > n {
            assert(run[i] == tail[i - n - 1]);
        }
    }
    lemma_run_over(head, seq!['e'] + tail, Class::Integer);
    assert forall|i: int| 0 <= i < n implies #[trigger] run[i] != 'e' by {
        assert(run[i] == head[i]);
    }
    lemma_first_index_is(run, 'e', n);
    assert(run.take(n) =~= head);
    assert(run.skip(n + 1) =~= tail);
}

/// `unquote` reads back what `escape` wrote, up to the closing quote.
pub proof fn lemma_unquote_escape(s: Seq<char>, rest: Seq<char>)
    ensures
        unquote(escape(s) + seq!['"'] + rest) == Some((s, rest)),
    decreases s.len(),
{
    let text = escape(s) + seq!['"'] + rest;
    if s.len() == 0 {
        assert(text.skip(1) =~= rest);
        assert(s =~= Seq::<char>::empty());
    } else {
        let c = s[0];
        let more = escape(s.skip(1)) + seq!['"'] + rest;
        lemma_unquote_escape(s.skip(1), rest);
        if needs_escape(c) {
            assert(text =~= seq!['\\', escape_letter(c)] + more);
            assert(text.skip(2) =~= more);
            assert(seq![unescape_letter(escape_letter(c))] + s.skip(1) =~= s);
        } else {
            assert(text =~= seq![c] + more);
            assert(text.skip(1) =~= more);
            assert(seq![c] + s.skip(1) =~= s);
        }
    }
}

} // verus!
