//! Scalars: integers, decimals, strings and booleans, and the grammar that
//! tells them apart.

use crate::error::LiteralError;
use crate::text::{
    char_is_digit, digit_value, is_digit, is_trimmed, string_of, to_chars, trim, trim_slice,
};
use vstd::prelude::*;
use vstd::slice::slice_subrange;

verus! {

/// Where the classifying scan stands after some prefix of the text.
#[derive(Debug, Clone, Copy, PartialEq, Eq)]
pub enum ScanState {
    /// Nothing read yet.
    Unset,
    /// An optional `-` and digits.
    Integer { signed: bool },
    /// An integer, one `.`, and digits.
    Double,
    /// Anything else; no later character changes this.
    Text,
}

/// One step of the scan.
pub open spec fn scan_step(state: ScanState, c: char) -> ScanState {
    match state {
        ScanState::Unset => if is_digit(c) {
            ScanState::Integer { signed: false }
        } else if c == '-' {
            ScanState::Integer { signed: true }
        } else {
            ScanState::Text
        },
        ScanState::Integer { signed } => if is_digit(c) {
            ScanState::Integer { signed }
        } else if c == '.' {
            ScanState::Double
        } else {
            ScanState::Text
        },
        ScanState::Double => if is_digit(c) {
            ScanState::Double
        } else {
            ScanState::Text
        },
        ScanState::Text => ScanState::Text,
    }
}

/// The state after reading all of `s` from left to right.
pub open spec fn scan(s: Seq<char>) -> ScanState
    decreases s.len(),
{
    if s.len() == 0 {
        ScanState::Unset
    } else {
        scan_step(scan(s.drop_last()), s.last())
    }
}

/// The number that a sequence of digits writes in base ten.
pub open spec fn decimal_value(digits: Seq<char>) -> int
    decreases digits.len(),
{
    if digits.len() == 0 {
        0
    } else {
        decimal_value(digits.drop_last()) * 10 + digit_value(digits.last())
    }
}

/// The digits of a text in the shape of an integer: all of it but a leading `-`.
pub open spec fn integer_digits(s: Seq<char>) -> Seq<char> {
    if s.len() > 0 && s.first() == '-' {
        s.drop_first()
    } else {
        s
    }
}

/// The value of a text in the shape of an integer, where it has digits and
/// the value fits in 64 bits.
pub open spec fn integer_value(s: Seq<char>) -> Option<int> {
    let digits = integer_digits(s);
    let magnitude = decimal_value(digits);
    let value = if s.len() > 0 && s.first() == '-' {
        -magnitude
    } else {
        magnitude
    };
    if digits.len() > 0 && i64::MIN <= value <= i64::MAX {
        Some(value)
    } else {
        None
    }
}

/// Whether `s` holds a digit.
pub open spec fn has_digit(s: Seq<char>) -> bool {
    exists|i: int| 0 <= i < s.len() && is_digit(#[trigger] s[i])
}

/// The texts that write a decimal: an optional `-`, digits, one `.`, digits,
/// with a digit on at least one side of the point.
pub open spec fn is_decimal(s: Seq<char>) -> bool {
    scan(s) == ScanState::Double && has_digit(s)
}

/// The text of the boolean that holds.
pub open spec fn text_true() -> Seq<char> {
    seq!['t', 'r', 'u', 'e']
}

/// The text of the boolean that does not hold.
pub open spec fn text_false() -> Seq<char> {
    seq!['f', 'a', 'l', 's', 'e']
}

/// A scalar as a mathematical value.
pub enum LiteralView {
    Integer(int),
    /// A decimal, as its text.
    Double(Seq<char>),
    String(Seq<char>),
    Bool(bool),
}

impl LiteralView {
    /// The values that a `Literal` can hold.
    pub open spec fn wf(self) -> bool {
        match self {
            LiteralView::Integer(i) => i64::MIN <= i <= i64::MAX,
            LiteralView::Double(text) => is_decimal(text),
            _ => true,
        }
    }
}

/// What a text reads as. The text is trimmed first; then the first rule that
/// applies decides: quoted text is a string, `true` and `false` are booleans,
/// and the scan tells integers, decimals and unquoted strings apart.
pub open spec fn spec_parse_literal(raw: Seq<char>) -> Result<LiteralView, LiteralError> {
    let s = trim(raw);
    if s.len() == 0 {
        Err(LiteralError::EmptyInput)
    } else if s.first() == '"' && s.last() == '"' {
        if s.len() >= 2 {
            Ok(LiteralView::String(s.subrange(1, s.len() - 1)))
        } else {
            Err(LiteralError::SyntaxError)
        }
    } else if s == text_true() {
        Ok(LiteralView::Bool(true))
    } else if s == text_false() {
        Ok(LiteralView::Bool(false))
    } else {
        match scan(s) {
            ScanState::Unset => Err(LiteralError::EmptyInput),
            ScanState::Integer { .. } => match integer_value(s) {
                Some(value) => Ok(LiteralView::Integer(value)),
                None => Err(LiteralError::NumberError),
            },
            ScanState::Double => if has_digit(s) {
                Ok(LiteralView::Double(s))
            } else {
                Err(LiteralError::NumberError)
            },
            ScanState::Text => Ok(LiteralView::String(s)),
        }
    }
}

/// A decimal number, kept as the text that writes it: an optional `-`,
/// digits, one `.` and digits, with a digit among them.
///
/// The library tells decimals from other scalars and carries them; it does
/// no arithmetic on them. Two decimals are the same where their texts are.
#[derive(Debug, PartialEq, Eq)]
pub struct Decimal {
    text: String,
}

impl View for Decimal {
    type V = Seq<char>;

    closed spec fn view(&self) -> Seq<char> {
        self.text@
    }
}

/// An integer or a decimal.
#[derive(Debug, PartialEq, Eq)]
pub enum Number {
    Integer(i64),
    Double(Decimal),
}

/// A scalar.
#[derive(Debug, PartialEq, Eq)]
pub enum Literal {
    Number(Number),
    String(String),
    Bool(bool),
}

impl View for Literal {
    type V = LiteralView;

    open spec fn view(&self) -> LiteralView {
        match self {
            Literal::Number(Number::Integer(i)) => LiteralView::Integer(*i as int),
            Literal::Number(Number::Double(d)) => LiteralView::Double(d@),
            Literal::String(s) => LiteralView::String(s@),
            Literal::Bool(b) => LiteralView::Bool(*b),
        }
    }
}

/// The result of a parse, as mathematical values.
pub open spec fn literal_result_view(r: Result<Literal, LiteralError>) -> Result<
    LiteralView,
    LiteralError,
> {
    match r {
        Ok(l) => Ok(l@),
        Err(e) => Err(e),
    }
}

/// The digit that writes `d`, for `d` from 0 to 9.
pub open spec fn digit_char(d: int) -> char {
    ('0' as int + d) as char
}

/// A natural number in base ten, without leading zeros.
pub open spec fn render_nat(n: nat) -> Seq<char>
    decreases n,
{
    if n < 10 {
        seq![digit_char(n as int)]
    } else {
        render_nat(n / 10).push(digit_char((n % 10) as int))
    }
}

/// An integer in base ten, with a `-` before a negative one.
pub open spec fn render_int(i: int) -> Seq<char> {
    if i < 0 {
        seq!['-'] + render_nat((-i) as nat)
    } else {
        render_nat(i as nat)
    }
}

/// The canonical text of a scalar: an integer in base ten, a decimal as it
/// was written, a string between quotation marks, a boolean as `true` or
/// `false`.
pub open spec fn spec_render_literal(l: LiteralView) -> Seq<char> {
    match l {
        LiteralView::Integer(i) => render_int(i),
        LiteralView::Double(text) => text,
        LiteralView::String(s) => seq!['"'] + s + seq!['"'],
        LiteralView::Bool(b) => if b {
            text_true()
        } else {
            text_false()
        },
    }
}

/// A text in the shape of an integer is a `-` or a digit, and digits after it.
pub proof fn lemma_integer_shape(s: Seq<char>)
    requires
        scan(s) is Integer,
    ensures
        s.len() > 0,
        scan(s)->signed == (s.first() == '-'),
        is_digit(s.first()) || s.first() == '-',
        forall|i: int| 1 <= i < s.len() ==> is_digit(#[trigger] s[i]),
        forall|i: int| 0 <= i < integer_digits(s).len() ==> is_digit(#[trigger] integer_digits(s)[i]),
    decreases s.len(),
{
    if s.len() > 1 {
        lemma_integer_shape(s.drop_last());
        assert(s.drop_last().first() == s.first());
        assert forall|i: int| 1 <= i < s.len() implies is_digit(#[trigger] s[i]) by {
            if i < s.len() - 1 {
                assert(s.drop_last()[i] == s[i]);
            }
        }
    } else {
        assert(scan(s.drop_last()) == ScanState::Unset);
    }
}

/// A text in the shape of a decimal begins with a `-` or a digit and holds
/// nothing but digits, one `.` and that `-`.
pub proof fn lemma_double_shape(s: Seq<char>)
    requires
        scan(s) == ScanState::Double,
    ensures
        s.len() >= 2,
        is_digit(s.first()) || s.first() == '-',
        is_digit(s.last()) || s.last() == '.',
        forall|i: int| 1 <= i < s.len() ==> is_digit(#[trigger] s[i]) || s[i] == '.',
    decreases s.len(),
{
    let init = s.drop_last();
    if scan(init) is Integer {
        lemma_integer_shape(init);
    } else {
        lemma_double_shape(init);
    }
    assert(init.first() == s.first());
    assert forall|i: int| 1 <= i < s.len() implies is_digit(#[trigger] s[i]) || s[i] == '.' by {
        if i < s.len() - 1 {
            assert(init[i] == s[i]);
        }
    }
}

/// Digits never write a negative number, and a longer text writes no smaller one.
pub proof fn lemma_decimal_value_grows(digits: Seq<char>, k: int)
    requires
        0 <= k <= digits.len(),
        forall|i: int| 0 <= i < digits.len() ==> is_digit(#[trigger] digits[i]),
    ensures
        0 <= decimal_value(digits.take(k)) <= decimal_value(digits),
    decreases digits.len(),
{
    if k == digits.len() {
        assert(digits.take(k) =~= digits);
        if digits.len() > 0 {
            lemma_decimal_value_grows(digits.drop_last(), k - 1);
            assert(digits.drop_last().take(k - 1) =~= digits.drop_last());
        }
    } else {
        lemma_decimal_value_grows(digits.drop_last(), k);
        assert(digits.drop_last().take(k) =~= digits.take(k));
    }
}

/// The text of a natural number is made of digits, reads as an unsigned
/// integer, and writes that number.
pub proof fn lemma_render_nat(n: nat)
    ensures
        render_nat(n).len() > 0,
        forall|i: int| 0 <= i < render_nat(n).len() ==> is_digit(#[trigger] render_nat(n)[i]),
        scan(render_nat(n)) == (ScanState::Integer { signed: false }),
        scan(seq!['-'] + render_nat(n)) == (ScanState::Integer { signed: true }),
        decimal_value(render_nat(n)) == n,
    decreases n,
{
    let minus = seq!['-'];
    if n < 10 {
        let r = render_nat(n);
        assert(r.drop_last() =~= Seq::<char>::empty());
        assert(scan(r.drop_last()) == ScanState::Unset);
        assert((minus + r).drop_last() =~= minus);
        assert(minus.drop_last() =~= Seq::<char>::empty());
        assert(scan(minus.drop_last()) == ScanState::Unset);
        assert(scan(minus) == (ScanState::Integer { signed: true }));
        assert(decimal_value(r.drop_last()) == 0);
    } else {
        lemma_render_nat(n / 10);
        let init = render_nat(n / 10);
        let d = digit_char((n % 10) as int);
        let r = render_nat(n);
        assert(r.drop_last() =~= init);
        assert((minus + r).drop_last() =~= minus + init);
        assert((minus + r).last() == d);
        assert forall|i: int| 0 <= i < r.len() implies is_digit(#[trigger] r[i]) by {
            if i < init.len() {
                assert(r[i] == init[i]);
            }
        }
    }
}

/// Reading back what was written: every scalar is the value of its own
/// canonical text.
pub proof fn lemma_parse_render_roundtrip(l: LiteralView)
    requires
        l.wf(),
    ensures
        spec_parse_literal(spec_render_literal(l)) == Ok::<LiteralView, LiteralError>(l),
{
    let text = spec_render_literal(l);
    match l {
        LiteralView::Integer(i) => {
            let n = (if i < 0 {
                -i
            } else {
                i
            }) as nat;
            lemma_render_nat(n);
            let digits = render_nat(n);
            assert(is_digit(digits[0]));
            assert(is_digit(digits.last()));
            if i < 0 {
                assert(text.first() == '-');
                assert(text.last() == digits.last());
                assert(integer_digits(text) =~= digits);
            } else {
                assert(integer_digits(text) =~= digits);
            }
            assert(is_trimmed(text));
            assert(text != text_true()) by {
                assert(text_true()[0] == 't');
            }
            assert(text != text_false()) by {
                assert(text_false()[0] == 'f');
            }
        },
        LiteralView::Double(t) => {
            lemma_double_shape(t);
            assert(is_trimmed(t));
            assert(t != text_true()) by {
                assert(text_true()[0] == 't');
            }
            assert(t != text_false()) by {
                assert(text_false()[0] == 'f');
            }
        },
        LiteralView::String(s) => {
            assert(text.first() == '"');
            assert(text.last() == '"');
            assert(is_trimmed(text));
            assert(text.subrange(1, text.len() - 1) =~= s);
        },
        LiteralView::Bool(b) => {
            assert(text_true()[0] == 't' && text_true().last() == 'e');
            assert(text_false()[0] == 'f' && text_false().last() == 'e');
            assert(is_trimmed(text));
            assert(text_true().len() != text_false().len());
        },
    }
}

/// Every text reads one way: blank text, and no other, is empty input; any
/// other text is a scalar that a `Literal` can hold, or has the shape of a
/// number without a value, or is a lone quotation mark.
pub proof fn lemma_classification_total(raw: Seq<char>)
    ensures
        spec_parse_literal(raw) == Err::<LiteralView, LiteralError>(LiteralError::EmptyInput)
            <==> trim(raw).len() == 0,
        spec_parse_literal(raw) matches Ok(l) ==> l.wf(),
        spec_parse_literal(raw) == Err::<LiteralView, LiteralError>(LiteralError::SyntaxError)
            <==> trim(raw) == seq!['"'],
        spec_parse_literal(raw) == Err::<LiteralView, LiteralError>(LiteralError::NumberError)
            ==> scan(trim(raw)) is Integer || scan(trim(raw)) is Double,
{
    let s = trim(raw);
    if s.len() > 0 {
        assert(scan(s) != ScanState::Unset);
        if s.first() == '"' && s.last() == '"' && s.len() < 2 {
            assert(s =~= seq!['"']);
        }
        if s == seq!['"'] {
            assert(s.len() == 1);
            assert(s.first() == '"');
        }
    }
}

impl Decimal {
    #[verifier::type_invariant]
    spec fn inv(self) -> bool {
        is_decimal(self.text@)
    }

    /// The decimal that `text` writes, where it writes one.
    pub fn parse(text: &str) -> (r: Option<Decimal>)
        ensures
            r is Some <==> is_decimal(text@),
            r matches Some(d) ==> d@ == text@,
    {
        let chars = to_chars(text);
        match scan_chars(chars.as_slice()) {
            ScanState::Double => if find_digit(chars.as_slice()) {
                Some(Decimal { text: string_of(chars.as_slice()) })
            } else {
                None
            },
            _ => None,
        }
    }

    /// The text of the decimal.
    pub fn as_str(&self) -> (text: &str)
        ensures
            text@ == self@,
            is_decimal(self@),
    {
        proof {
            use_type_invariant(self);
        }
        self.text.as_str()
    }
}

impl Literal {
    /// The scalar of an integer.
    pub fn integer(v: i64) -> (l: Literal)
        ensures
            l@ == LiteralView::Integer(v as int),
    {
        Literal::Number(Number::Integer(v))
    }

    /// The scalar of a decimal.
    pub fn double(v: Decimal) -> (l: Literal)
        ensures
            l@ == LiteralView::Double(v@),
    {
        Literal::Number(Number::Double(v))
    }

    /// The scalar of a string.
    pub fn string(s: &str) -> (l: Literal)
        ensures
            l@ == LiteralView::String(s@),
    {
        Literal::String(String::from_str(s))
    }

    /// The scalar of a boolean.
    pub fn bool(v: bool) -> (l: Literal)
        ensures
            l@ == LiteralView::Bool(v),
    {
        Literal::Bool(v)
    }

    /// The canonical text of the scalar.
    pub fn to_text(&self) -> (text: String)
        ensures
            text@ == spec_render_literal(self@),
            self@.wf(),
    {
        let mut text = String::new();
        match self {
            Literal::Number(Number::Integer(i)) => {
                let i: i64 = *i;
                if i < 0 {
                    text.push('-');
                    let magnitude: u64 = if i == i64::MIN {
                        0x8000_0000_0000_0000
                    } else {
                        (-i) as u64
                    };
                    push_nat(&mut text, magnitude);
                } else {
                    push_nat(&mut text, i as u64);
                }
            },
            Literal::Number(Number::Double(d)) => {
                text.append(d.as_str());
            },
            Literal::String(s) => {
                text.push('"');
                text.append(s.as_str());
                text.push('"');
            },
            Literal::Bool(b) => {
                if *b {
                    text.push('t');
                    text.push('r');
                    text.push('u');
                    text.push('e');
                } else {
                    text.push('f');
                    text.push('a');
                    text.push('l');
                    text.push('s');
                    text.push('e');
                }
            },
        }
        assert(text@ =~= spec_render_literal(self@));
        text
    }

    /// Reads one scalar.
    pub fn parse(raw: &str) -> (r: Result<Literal, LiteralError>)
        ensures
            literal_result_view(r) == spec_parse_literal(raw@),
    {
        let chars = to_chars(raw);
        parse_literal_chars(chars.as_slice())
    }
}

/// Appends `n` in base ten.
pub fn push_nat(out: &mut String, n: u64)
    ensures
        final(out)@ == old(out)@ + render_nat(n as nat),
    decreases n,
{
    if n >= 10 {
        push_nat(out, n / 10);
    }
    let d: u8 = (n % 10) as u8;
    out.push((48u8 + d) as char);
    assert(out@ =~= old(out)@ + render_nat(n as nat)) by {
        assert((48u8 + d) as char == digit_char((n % 10) as int));
    }
}

/// The state of the scan after all of `s`.
pub fn scan_chars(s: &[char]) -> (state: ScanState)
    ensures
        state == scan(s@),
{
    let mut state = ScanState::Unset;
    let mut i: usize = 0;
    while i < s.len()
        invariant
            i <= s.len(),
            state == scan(s@.take(i as int)),
        decreases s.len() - i,
    {
        let c = s[i];
        assert(s@.take(i + 1).drop_last() =~= s@.take(i as int));
        state =
        match state {
            ScanState::Unset => if char_is_digit(c) {
                ScanState::Integer { signed: false }
            } else if c == '-' {
                ScanState::Integer { signed: true }
            } else {
                ScanState::Text
            },
            ScanState::Integer { signed } => if char_is_digit(c) {
                ScanState::Integer { signed }
            } else if c == '.' {
                ScanState::Double
            } else {
                ScanState::Text
            },
            ScanState::Double => if char_is_digit(c) {
                ScanState::Double
            } else {
                ScanState::Text
            },
            ScanState::Text => ScanState::Text,
        };
        i += 1;
    }
    assert(s@.take(s.len() as int) =~= s@);
    state
}

/// Whether `s` holds a digit.
fn find_digit(s: &[char]) -> (found: bool)
    ensures
        found == has_digit(s@),
{
    let mut i: usize = 0;
    while i < s.len()
        invariant
            i <= s.len(),
            forall|j: int| 0 <= j < i ==> !is_digit(#[trigger] s@[j]),
        decreases s.len() - i,
    {
        if char_is_digit(s[i]) {
            return true;
        }
        i += 1;
    }
    false
}

/// The value of a text in the shape of an integer.
fn integer_of(s: &[char]) -> (r: Option<i64>)
    requires
        scan(s@) is Integer,
    ensures
        r is Some <==> integer_value(s@) is Some,
        r matches Some(v) ==> integer_value(s@) == Some(v as int),
{
    proof {
        lemma_integer_shape(s@);
    }
    let negative = s[0] == '-';
    let start: usize = if negative {
        1
    } else {
        0
    };
    let limit: u128 = if negative {
        0x8000_0000_0000_0000
    } else {
        0x7fff_ffff_ffff_ffff
    };
    let ghost digits = integer_digits(s@);
    assert(digits =~= s@.skip(start as int));
    let mut magnitude: u128 = 0;
    let mut i: usize = start;
    while i < s.len()
        invariant
            start <= i <= s.len(),
            s@.len() > 0,
            negative == (s@.first() == '-'),
            digits == integer_digits(s@),
            digits == s@.skip(start as int),
            forall|j: int| 0 <= j < digits.len() ==> is_digit(#[trigger] digits[j]),
            magnitude == decimal_value(digits.take(i - start)),
            limit == if negative { 0x8000_0000_0000_0000u128 } else { 0x7fff_ffff_ffff_ffffu128 },
            magnitude <= limit,
        decreases s.len() - i,
    {
        let c = s[i];
        assert(digits[i - start] == c);
        assert(digits.take(i + 1 - start).drop_last() =~= digits.take(i - start));
        let next: u128 = magnitude * 10 + (c as u32 - '0' as u32) as u128;
        assert(next == decimal_value(digits.take(i + 1 - start))) by {
            assert(digits.take(i + 1 - start).last() == c);
        }
        if next > limit {
            proof {
                lemma_decimal_value_grows(digits, i + 1 - start);
            }
            return None;
        }
        magnitude = next;
        i += 1;
    }
    assert(digits.take(digits.len() as int) =~= digits);
    if i == start {
        None
    } else if negative {
        if magnitude == 0x8000_0000_0000_0000 {
            Some(i64::MIN)
        } else {
            Some(-(magnitude as i64))
        }
    } else {
        Some(magnitude as i64)
    }
}

/// Reads one scalar from characters.
pub fn parse_literal_chars(raw: &[char]) -> (r: Result<Literal, LiteralError>)
    ensures
        literal_result_view(r) == spec_parse_literal(raw@),
{
    let s = trim_slice(raw);
    let n = s.len();
    if n == 0 {
        return Err(LiteralError::EmptyInput);
    }
    if s[0] == '"' && s[n - 1] == '"' {
        if n >= 2 {
            return Ok(Literal::String(string_of(slice_subrange(s, 1, n - 1))));
        } else {
            return Err(LiteralError::SyntaxError);
        }
    }
    if is_text_true(s) {
        return Ok(Literal::Bool(true));
    }
    if is_text_false(s) {
        return Ok(Literal::Bool(false));
    }
    match scan_chars(s) {
        ScanState::Unset => Err(LiteralError::EmptyInput),
        ScanState::Integer { .. } => match integer_of(s) {
            Some(value) => Ok(Literal::Number(Number::Integer(value))),
            None => Err(LiteralError::NumberError),
        },
        ScanState::Double => if find_digit(s) {
            Ok(Literal::Number(Number::Double(Decimal { text: string_of(s) })))
        } else {
            Err(LiteralError::NumberError)
        },
        ScanState::Text => Ok(Literal::String(string_of(s))),
    }
}

/// Whether `s` is `true`.
fn is_text_true(s: &[char]) -> (r: bool)
    ensures
        r == (s@ == text_true()),
{
    let r = s.len() == 4 && s[0] == 't' && s[1] == 'r' && s[2] == 'u' && s[3] == 'e';
    assert(r ==> s@ =~= text_true());
    r
}

/// Whether `s` is `false`.
fn is_text_false(s: &[char]) -> (r: bool)
    ensures
        r == (s@ == text_false()),
{
    let r = s.len() == 5 && s[0] == 'f' && s[1] == 'a' && s[2] == 'l' && s[3] == 's' && s[4]
        == 'e';
    assert(r ==> s@ =~= text_false());
    r
}

} // verus!
