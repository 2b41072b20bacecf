//! Writing values as flat text: a key made of fields, a separator, a value.
//!
//! The serializer appends to a text of its own. A flag says whether the next
//! scalar is the value of a pair, so that the separator between key and
//! value is written before it, once. Sequences and maps are written step by
//! step; a flow remembers whether the first step has been made.

use crate::error::SerializeError;
use crate::literal::{push_nat, render_int, render_nat, text_false, text_true};
use crate::types::{ArrayFormatter, FieldFormatter, StringFormatter};
use std::marker::PhantomData;
use vstd::prelude::*;

verus! {

/// Writes a string between quotation marks.
pub struct DefaultStringFormatter;

impl StringFormatter for DefaultStringFormatter {
    open spec fn formatted(v: Seq<char>) -> Seq<char> {
        seq!['"'] + v + seq!['"']
    }

    fn format(f: &mut String, v: &str) {
        f.push('"');
        f.append(v);
        f.push('"');
        assert(f@ =~= old(f)@ + Self::formatted(v@));
    }
}

/// Writes an array between `[` and `]`, with `,` between its elements.
pub struct DefaultArrayFormatter;

impl ArrayFormatter for DefaultArrayFormatter {
    open spec fn begin_text() -> Seq<char> {
        seq!['[']
    }

    open spec fn separator_text() -> Seq<char> {
        seq![',']
    }

    open spec fn end_text() -> Seq<char> {
        seq![']']
    }

    fn begin(f: &mut String) {
        f.push('[');
        assert(f@ =~= old(f)@ + Self::begin_text());
    }

    fn separate(f: &mut String) {
        f.push(',');
        assert(f@ =~= old(f)@ + Self::separator_text());
    }

    fn end(f: &mut String) {
        f.push(']');
        assert(f@ =~= old(f)@ + Self::end_text());
    }
}

/// Writes `=` between key and value, `__` between the fields of a key, and a
/// line feed behind a value.
pub struct DefaultFieldFormatter;

impl FieldFormatter for DefaultFieldFormatter {
    open spec fn pair_sep_text() -> Seq<char> {
        seq!['=']
    }

    open spec fn field_sep_text() -> Seq<char> {
        seq!['_', '_']
    }

    open spec fn value_sep_text() -> Seq<char> {
        seq!['\n']
    }

    fn pair_sep(f: &mut String) {
        f.push('=');
        assert(f@ =~= old(f)@ + Self::pair_sep_text());
    }

    fn field_sep(f: &mut String) {
        f.push('_');
        f.push('_');
        assert(f@ =~= old(f)@ + Self::field_sep_text());
    }

    fn value_sep(f: &mut String) {
        f.push('\n');
        assert(f@ =~= old(f)@ + Self::value_sep_text());
    }
}

/// Writes values through an array formatter `A`, a field formatter `F` and a
/// string formatter `S`.
pub struct Serializer<A, F, S> where A: ArrayFormatter, F: FieldFormatter, S: StringFormatter {
    output: String,
    flag_value: bool,
    _array: PhantomData<A>,
    _field: PhantomData<F>,
    _string: PhantomData<S>,
}

/// What the unit value is written as.
pub open spec fn text_null() -> Seq<char> {
    seq!['n', 'u', 'l', 'l']
}

impl<A, F, S> Serializer<A, F, S> where A: ArrayFormatter, F: FieldFormatter, S: StringFormatter {
    /// The text written so far.
    pub closed spec fn written(self) -> Seq<char> {
        self.output@
    }

    /// Whether the next scalar is the value of a pair.
    pub closed spec fn value_pending(self) -> bool {
        self.flag_value
    }

    /// What the separator between key and value adds, where it is due.
    pub open spec fn due_pair_sep(self) -> Seq<char> {
        if self.value_pending() {
            F::pair_sep_text()
        } else {
            Seq::empty()
        }
    }

    /// A serializer that has written nothing and expects a key.
    pub fn new() -> (ser: Self)
        ensures
            ser.written() == Seq::<char>::empty(),
            !ser.value_pending(),
    {
        Serializer {
            output: String::new(),
            flag_value: false,
            _array: PhantomData,
            _field: PhantomData,
            _string: PhantomData,
        }
    }

    /// The text written so far.
    pub fn output(&self) -> (text: &str)
        ensures
            text@ == self.written(),
    {
        self.output.as_str()
    }

    /// Hands over the text written so far.
    pub fn into_output(self) -> (text: String)
        ensures
            text@ == self.written(),
    {
        self.output
    }

    /// The next scalar is the value of a pair.
    pub fn set_value(&mut self)
        ensures
            final(self).value_pending(),
            final(self).written() == old(self).written(),
    {
        self.flag_value = true;
    }

    /// The next scalar is no value of a pair.
    pub fn non_value(&mut self)
        ensures
            !final(self).value_pending(),
            final(self).written() == old(self).written(),
    {
        self.flag_value = false;
    }

    /// Whether the next scalar is the value of a pair.
    pub fn is_value(&self) -> (pending: bool)
        ensures
            pending == self.value_pending(),
    {
        self.flag_value
    }

    /// Writes the separator between key and value where a value is due, and
    /// notes that it has been written.
    pub fn render_pair_sep(&mut self)
        ensures
            final(self).written() == old(self).written() + old(self).due_pair_sep(),
            !final(self).value_pending(),
    {
        if self.flag_value {
            F::pair_sep(&mut self.output);
            self.flag_value = false;
        } else {
            assert(self.output@ + Seq::<char>::empty() =~= self.output@);
        }
    }

    /// Writes `true` or `false`.
    pub fn serialize_bool(&mut self, v: bool)
        ensures
            final(self).written() == old(self).written() + old(self).due_pair_sep() + (if v {
                text_true()
            } else {
                text_false()
            }),
            !final(self).value_pending(),
    {
        self.render_pair_sep();
        if v {
            self.output.append("true");
        } else {
            self.output.append("false");
        }
        proof {
            reveal_strlit("true");
            reveal_strlit("false");
            assert("true"@ =~= text_true());
            assert("false"@ =~= text_false());
        }
    }

    /// Writes an integer in base ten.
    pub fn serialize_i64(&mut self, v: i64)
        ensures
            final(self).written() == old(self).written() + old(self).due_pair_sep() + render_int(
                v as int,
            ),
            !final(self).value_pending(),
    {
        self.render_pair_sep();
        let ghost before = self.output@;
        if v < 0 {
            self.output.push('-');
            let magnitude: u64 = if v == i64::MIN {
                0x8000_0000_0000_0000
            } else {
                (-v) as u64
            };
            push_nat(&mut self.output, magnitude);
            assert(self.output@ =~= before + render_int(v as int));
        } else {
            push_nat(&mut self.output, v as u64);
        }
    }

    /// Writes a natural number in base ten.
    pub fn serialize_u64(&mut self, v: u64)
        ensures
            final(self).written() == old(self).written() + old(self).due_pair_sep() + render_nat(
                v as nat,
            ),
            !final(self).value_pending(),
    {
        self.render_pair_sep();
        push_nat(&mut self.output, v);
    }

    /// Writes a string as the string formatter writes it.
    pub fn serialize_str(&mut self, v: &str)
        ensures
            final(self).written() == old(self).written() + old(self).due_pair_sep() + S::formatted(
                v@,
            ),
            !final(self).value_pending(),
    {
        self.render_pair_sep();
        S::format(&mut self.output, v);
    }

    /// Writes a character as a string of one character.
    pub fn serialize_char(&mut self, v: char)
        ensures
            final(self).written() == old(self).written() + old(self).due_pair_sep() + S::formatted(
                seq![v],
            ),
            !final(self).value_pending(),
    {
        let mut text = String::new();
        text.push(v);
        assert(text@ =~= seq![v]);
        self.serialize_str(text.as_str());
    }

    /// Writes text as it is: a number that the caller has put into text.
    pub fn serialize_raw(&mut self, text: &str)
        ensures
            final(self).written() == old(self).written() + old(self).due_pair_sep() + text@,
            !final(self).value_pending(),
    {
        self.render_pair_sep();
        self.output.append(text);
    }

    /// Writes the unit value.
    pub fn serialize_unit(&mut self)
        ensures
            final(self).written() == old(self).written() + old(self).due_pair_sep() + text_null(),
            !final(self).value_pending(),
    {
        self.render_pair_sep();
        self.output.append("null");
        proof {
            reveal_strlit("null");
            assert("null"@ =~= text_null());
        }
    }

    /// Opens a sequence.
    pub fn serialize_seq(&mut self) -> (flow: SeqFlow)
        ensures
            final(self).written() == old(self).written() + old(self).due_pair_sep()
                + A::begin_text(),
            !final(self).value_pending(),
            flow.state() == State::Initial,
    {
        self.render_pair_sep();
        A::begin(&mut self.output);
        SeqFlow::initial()
    }

    /// Opens a map.
    pub fn serialize_map(&mut self) -> (flow: MapFlow)
        ensures
            *final(self) == *old(self),
            flow.key_state() == State::Initial,
            flow.value_state() == State::Initial,
    {
        MapFlow::initial()
    }

    /// Writes what ends a pair.
    pub fn end_pair(&mut self)
        ensures
            final(self).written() == old(self).written() + F::value_sep_text(),
            final(self).value_pending() == old(self).value_pending(),
    {
        F::value_sep(&mut self.output);
    }

    /// Writes bytes as a sequence of natural numbers.
    pub fn serialize_bytes(&mut self, v: &[u8]) -> (r: Result<(), SerializeError>)
        ensures
            final(self).written() == old(self).written() + old(self).due_pair_sep() + bytes_text::<
                A,
            >(v@),
            !final(self).value_pending(),
            r is Ok <==> v@.len() > 0,
            r is Err ==> r == Err::<(), SerializeError>(SerializeError::StateError),
    {
        let mut flow = self.serialize_seq();
        let ghost start = self.output@;
        let mut i: usize = 0;
        while i < v.len()
            invariant
                i <= v.len(),
                !self.value_pending(),
                flow.state() == (if i == 0 {
                    State::Initial
                } else {
                    State::Next
                }),
                self.written() == start + elements_text::<A>(v@.take(i as int)),
            decreases v.len() - i,
        {
            flow.serialize_element(self);
            self.serialize_u64(v[i] as u64);
            proof {
                assert(v@.take(i + 1).drop_last() =~= v@.take(i as int));
                assert(self.output@ =~= start + elements_text::<A>(v@.take(i + 1)));
            }
            i += 1;
        }
        assert(v@.take(v.len() as int) =~= v@);
        let r = flow.end(self);
        assert(self.output@ =~= old(self).written() + old(self).due_pair_sep() + bytes_text::<A>(
            v@,
        ));
        r
    }
}

/// The elements of a sequence of bytes, each in base ten, with the
/// separator between them.
pub open spec fn elements_text<A: ArrayFormatter>(v: Seq<u8>) -> Seq<char>
    decreases v.len(),
{
    if v.len() == 0 {
        Seq::empty()
    } else if v.len() == 1 {
        render_nat(v.last() as nat)
    } else {
        elements_text::<A>(v.drop_last()) + A::separator_text() + render_nat(v.last() as nat)
    }
}

/// A sequence of bytes as an array. The empty sequence is opened and is
/// never closed: a sequence ends after its first element at the earliest.
pub open spec fn bytes_text<A: ArrayFormatter>(v: Seq<u8>) -> Seq<char> {
    if v.len() == 0 {
        A::begin_text()
    } else {
        A::begin_text() + elements_text::<A>(v) + A::end_text()
    }
}

/// Whether a flow has made its first step.
#[derive(Debug, Clone, Copy, PartialEq, Eq)]
pub enum State {
    Initial,
    Next,
}

/// The flow of a sequence: one element after the other.
#[derive(Debug)]
pub struct SeqFlow {
    state: State,
}

/// The flow of a map: keys and values in turn.
#[derive(Debug)]
pub struct MapFlow {
    key: State,
    value: State,
}

impl MapFlow {
    /// Whether a key has been written.
    pub closed spec fn key_state(self) -> State {
        self.key
    }

    /// Whether a value has been written.
    pub closed spec fn value_state(self) -> State {
        self.value
    }

    /// A map of which neither a key nor a value has been written.
    pub fn initial() -> (flow: Self)
        ensures
            flow.key_state() == State::Initial,
            flow.value_state() == State::Initial,
    {
        MapFlow { key: State::Initial, value: State::Initial }
    }

    /// The step before a key: the first key follows at once, each later one
    /// follows the separator of fields.
    pub fn serialize_key<A, F, S>(&mut self, ser: &mut Serializer<A, F, S>) where
        A: ArrayFormatter,
        F: FieldFormatter,
        S: StringFormatter,

        ensures
            final(self).key_state() == State::Next,
            final(self).value_state() == old(self).value_state(),
            final(ser).written() == old(ser).written() + (if old(self).key_state()
                == State::Initial {
                Seq::<char>::empty()
            } else {
                F::field_sep_text()
            }),
            final(ser).value_pending() == old(ser).value_pending(),
    {
        match self.key {
            State::Initial => {
                self.key = State::Next;
                assert(ser.output@ + Seq::<char>::empty() =~= ser.output@);
            },
            State::Next => {
                F::field_sep(&mut ser.output);
            },
        }
    }

    /// The step before a value.
    pub fn serialize_value(&mut self)
        ensures
            final(self).value_state() == State::Next,
            final(self).key_state() == old(self).key_state(),
    {
        self.value = State::Next;
    }

    /// The end of the map: a state error unless a key and a value have been
    /// written; what ends a pair otherwise.
    pub fn end<A, F, S>(self, ser: &mut Serializer<A, F, S>) -> (r: Result<
        (),
        SerializeError,
    >) where A: ArrayFormatter, F: FieldFormatter, S: StringFormatter
        ensures
            final(ser).value_pending() == old(ser).value_pending(),
            self.key_state() == State::Next && self.value_state() == State::Next ==> r is Ok
                && final(ser).written() == old(ser).written() + F::value_sep_text(),
            !(self.key_state() == State::Next && self.value_state() == State::Next) ==> r
                == Err::<(), SerializeError>(SerializeError::StateError) && final(ser).written()
                == old(ser).written(),
    {
        match (self.key, self.value) {
            (State::Initial, _) => Err(SerializeError::StateError),
            (_, State::Initial) => Err(SerializeError::StateError),
            (_, _) => {
                F::value_sep(&mut ser.output);
                Ok(())
            },
        }
    }
}

impl SeqFlow {
    /// Whether an element has been written.
    pub closed spec fn state(self) -> State {
        self.state
    }

    /// A sequence of which no element has been written.
    pub fn initial() -> (flow: Self)
        ensures
            flow.state() == State::Initial,
    {
        SeqFlow { state: State::Initial }
    }

    /// No element has been written.
    pub fn set_initial(&mut self)
        ensures
            final(self).state() == State::Initial,
    {
        self.state = State::Initial;
    }

    /// An element has been written.
    pub fn set_next(&mut self)
        ensures
            final(self).state() == State::Next,
    {
        self.state = State::Next;
    }

    /// The step before an element: the first follows at once, each later
    /// one follows the separator of elements.
    pub fn serialize_element<A, F, S>(&mut self, ser: &mut Serializer<A, F, S>) where
        A: ArrayFormatter,
        F: FieldFormatter,
        S: StringFormatter,

        ensures
            final(self).state() == State::Next,
            final(ser).written() == old(ser).written() + (if old(self).state() == State::Initial {
                Seq::<char>::empty()
            } else {
                A::separator_text()
            }),
            final(ser).value_pending() == old(ser).value_pending(),
    {
        match self.state {
            State::Initial => {
                self.state = State::Next;
                assert(ser.output@ + Seq::<char>::empty() =~= ser.output@);
            },
            State::Next => {
                A::separate(&mut ser.output);
            },
        }
    }

    /// The step before the value of a field named `key`: the first key is
    /// written at once; each later one follows the separator of fields and
    /// is followed by the separator between key and value.
    pub fn serialize_field<A, F, S>(&mut self, ser: &mut Serializer<A, F, S>, key: &str) where
        A: ArrayFormatter,
        F: FieldFormatter,
        S: StringFormatter,

        ensures
            final(self).state() == State::Next,
            final(ser).written() == (if old(self).state() == State::Initial {
                old(ser).written() + old(ser).due_pair_sep() + S::formatted(key@)
            } else {
                old(ser).written() + F::field_sep_text() + old(ser).due_pair_sep() + S::formatted(
                    key@,
                ) + F::pair_sep_text()
            }),
            !final(ser).value_pending(),
    {
        match self.state {
            State::Initial => {
                self.state = State::Next;
                ser.serialize_str(key);
            },
            State::Next => {
                F::field_sep(&mut ser.output);
                ser.serialize_str(key);
                F::pair_sep(&mut ser.output);
            },
        }
    }

    /// The end of the sequence: a state error where no element has been
    /// written; what closes an array otherwise.
    pub fn end<A, F, S>(self, ser: &mut Serializer<A, F, S>) -> (r: Result<
        (),
        SerializeError,
    >) where A: ArrayFormatter, F: FieldFormatter, S: StringFormatter
        ensures
            final(ser).value_pending() == old(ser).value_pending(),
            self.state() == State::Next ==> r is Ok && final(ser).written() == old(ser).written()
                + A::end_text(),
            self.state() == State::Initial ==> r == Err::<(), SerializeError>(
                SerializeError::StateError,
            ) && final(ser).written() == old(ser).written(),
    {
        match self.state {
            State::Initial => Err(SerializeError::StateError),
            State::Next => {
                A::end(&mut ser.output);
                Ok(())
            },
        }
    }
}

} // verus!
