//! Flat arrays: scalars between brackets, separated by commas.
//!
//! A comma separates two elements unless a backslash stands before it or it
//! lies inside the quoted text that an element begins with, after whitespace
//! if there is any.

use crate::error::{ArrayError, LiteralError};
use crate::literal::{parse_literal_chars, spec_parse_literal, Literal, LiteralView};
use crate::text::{count_leading_whitespace, leading_whitespace, to_chars, trim, trim_slice};
use vstd::prelude::*;
use vstd::slice::slice_subrange;

verus! {

/// Whether a backslash stands right before position `i`.
pub open spec fn is_escaped(s: Seq<char>, i: int) -> bool {
    i > 0 && s[i - 1] == '\\'
}

/// The first position at or after `from` that holds `c` unescaped.
pub open spec fn find_unescaped(s: Seq<char>, c: char, from: int) -> Option<int>
    decreases s.len() - from,
{
    if from < 0 || from >= s.len() {
        None
    } else if s[from] == c && !is_escaped(s, from) {
        Some(from)
    } else {
        find_unescaped(s, c, from + 1)
    }
}

/// The position of the separator that ends the first element of `s`. Where
/// a quotation mark is the first of `s` that is no whitespace, the search
/// starts behind the mark that closes it, and finds nothing where none
/// closes it.
pub open spec fn next_separator(s: Seq<char>, sep: char) -> Option<int> {
    let start = leading_whitespace(s);
    if 0 <= start < s.len() && s[start] == '"' {
        match find_unescaped(s, '"', start + 1) {
            Some(close) => find_unescaped(s, sep, close + 1),
            None => None,
        }
    } else {
        find_unescaped(s, sep, 0)
    }
}

/// The elements of a bracket's interior, in the order of the text: what
/// stands before the first separator is the first element, what follows the
/// separator holds the others. The first element that is no scalar fails the
/// whole.
pub open spec fn spec_parse_items(s: Seq<char>) -> Result<Seq<LiteralView>, ArrayError>
    decreases s.len(),
{
    match next_separator(s, ',') {
        Some(i) if 0 <= i < s.len() => match spec_parse_literal(s.take(i)) {
            Err(e) => Err(ArrayError::LiteralError(e)),
            Ok(first) => match spec_parse_items(s.skip(i + 1)) {
                Err(e) => Err(e),
                Ok(others) => Ok(seq![first] + others),
            },
        },
        _ => match spec_parse_literal(s) {
            Err(e) => Err(ArrayError::LiteralError(e)),
            Ok(only) => Ok(seq![only]),
        },
    }
}

/// A text that starts with `[` and ends with `]`.
pub open spec fn is_bracketed(s: Seq<char>) -> bool {
    s.len() >= 2 && s.first() == '[' && s.last() == ']'
}

/// What a text reads as an array. The text is trimmed, then its brackets are
/// taken off and the interior is trimmed; a blank interior is the empty array.
pub open spec fn spec_parse_array(raw: Seq<char>) -> Result<Seq<LiteralView>, ArrayError> {
    let s = trim(raw);
    if s.len() == 0 {
        Err(ArrayError::EmptyInput)
    } else if !is_bracketed(s) {
        Err(ArrayError::MalformedBrackets)
    } else {
        let interior = trim(s.subrange(1, s.len() - 1));
        if interior.len() == 0 {
            Ok(Seq::empty())
        } else {
            spec_parse_items(interior)
        }
    }
}

/// What `find_unescaped` finds is the least position that qualifies.
pub proof fn lemma_find_unescaped(s: Seq<char>, c: char, from: int)
    requires
        0 <= from,
    ensures
        match find_unescaped(s, c, from) {
            Some(i) => {
                &&& from <= i < s.len()
                &&& s[i] == c
                &&& !is_escaped(s, i)
                &&& forall|j: int| from <= j < i ==> !(s[j] == c && !is_escaped(s, j))
            },
            None => forall|j: int| from <= j < s.len() ==> !(s[j] == c && !is_escaped(s, j)),
        },
    decreases s.len() - from,
{
    if from < s.len() && !(s[from] == c && !is_escaped(s, from)) {
        lemma_find_unescaped(s, c, from + 1);
    }
}

/// An array of scalars.
#[derive(Debug, PartialEq, Eq)]
pub struct FlatArray(Vec<Literal>);

impl View for FlatArray {
    type V = Seq<LiteralView>;

    closed spec fn view(&self) -> Seq<LiteralView> {
        self.0@.map_values(|l: Literal| l@)
    }
}

/// The result of a parse, as mathematical values.
pub open spec fn array_result_view(r: Result<FlatArray, ArrayError>) -> Result<
    Seq<LiteralView>,
    ArrayError,
> {
    match r {
        Ok(a) => Ok(a@),
        Err(e) => Err(e),
    }
}

impl Default for FlatArray {
    /// The array without elements.
    fn default() -> (a: Self)
        ensures
            a@ == Seq::<LiteralView>::empty(),
    {
        let a = FlatArray(Vec::new());
        assert(a@ =~= Seq::<LiteralView>::empty());
        a
    }
}

impl FlatArray {
    /// The array of `items`, in their order.
    pub fn new(items: Vec<Literal>) -> (a: Self)
        ensures
            a@ == items@.map_values(|l: Literal| l@),
    {
        FlatArray(items)
    }

    /// The elements, in order.
    pub fn items(&self) -> (items: &Vec<Literal>)
        ensures
            items@.map_values(|l: Literal| l@) == self@,
    {
        &self.0
    }

    /// How many elements the array has.
    pub fn len(&self) -> (n: usize)
        ensures
            n == self@.len(),
    {
        self.0.len()
    }

    /// Reads a flat array.
    pub fn parse(raw: &str) -> (r: Result<FlatArray, ArrayError>)
        ensures
            array_result_view(r) == spec_parse_array(raw@),
    {
        let chars = to_chars(raw);
        parse_array_chars(chars.as_slice())
    }
}

/// The first position of `s` at or after `from` that holds `c` unescaped.
pub fn find_unescaped_in(s: &[char], c: char, from: usize) -> (r: Option<usize>)
    ensures
        match r {
            Some(i) => find_unescaped(s@, c, from as int) == Some(i as int),
            None => find_unescaped(s@, c, from as int) is None,
        },
{
    let mut i: usize = from;
    while i < s.len()
        invariant
            from <= i,
            find_unescaped(s@, c, from as int) == find_unescaped(s@, c, i as int),
        decreases s.len() - i,
    {
        if s[i] == c && !(i > 0 && s[i - 1] == '\\') {
            return Some(i);
        }
        i += 1;
    }
    None
}

/// The position of the separator that ends the first element of `s`.
pub fn next_separator_in(s: &[char], sep: char) -> (r: Option<usize>)
    ensures
        match r {
            Some(i) => next_separator(s@, sep) == Some(i as int) && i < s@.len(),
            None => next_separator(s@, sep) is None,
        },
{
    let start = count_leading_whitespace(s);
    if start < s.len() && s[start] == '"' {
        match find_unescaped_in(s, '"', start + 1) {
            Some(close) => {
                proof {
                    lemma_find_unescaped(s@, '"', start + 1);
                    lemma_find_unescaped(s@, sep, close + 1);
                }
                find_unescaped_in(s, sep, close + 1)
            },
            None => None,
        }
    } else {
        proof {
            lemma_find_unescaped(s@, sep, 0);
        }
        find_unescaped_in(s, sep, 0)
    }
}

/// The first position of `raw` that holds `sep` with no backslash before it.
pub fn lookup_quoted_sep(raw: &str, sep: char) -> (r: Option<usize>)
    ensures
        match r {
            Some(i) => find_unescaped(raw@, sep, 0) == Some(i as int),
            None => find_unescaped(raw@, sep, 0) is None,
        },
{
    let chars = to_chars(raw);
    find_unescaped_in(chars.as_slice(), sep, 0)
}

/// The position of the separator that ends the first element of `raw`, which
/// a quoted text may begin, after whitespace if there is any.
pub fn lookup_array_sep(raw: &str, sep: char) -> (r: Option<usize>)
    ensures
        match r {
            Some(i) => next_separator(raw@, sep) == Some(i as int),
            None => next_separator(raw@, sep) is None,
        },
{
    let chars = to_chars(raw);
    next_separator_in(chars.as_slice(), sep)
}

/// Reads a flat array from characters.
pub fn parse_array_chars(raw: &[char]) -> (r: Result<FlatArray, ArrayError>)
    ensures
        array_result_view(r) == spec_parse_array(raw@),
{
    let s = trim_slice(raw);
    let n = s.len();
    if n == 0 {
        return Err(ArrayError::EmptyInput);
    }
    if !(n >= 2 && s[0] == '[' && s[n - 1] == ']') {
        return Err(ArrayError::MalformedBrackets);
    }
    let interior = trim_slice(slice_subrange(s, 1, n - 1));
    let mut items: Vec<Literal> = Vec::new();
    if interior.len() == 0 {
        let a = FlatArray(items);
        assert(a@ =~= Seq::<LiteralView>::empty());
        return Ok(a);
    }
    let end = interior.len();
    let mut pos: usize = 0;
    assert(interior@.skip(0) =~= interior@);
    loop
        invariant
            pos <= end == interior@.len(),
            spec_parse_array(raw@) == spec_parse_items(interior@),
            spec_parse_items(interior@) == match spec_parse_items(interior@.skip(pos as int)) {
                Err(e) => Err(e),
                Ok(others) => Ok(items@.map_values(|l: Literal| l@) + others),
            },
        decreases end - pos,
    {
        let rest = slice_subrange(interior, pos, end);
        assert(rest@ =~= interior@.skip(pos as int));
        let ghost before = items@.map_values(|l: Literal| l@);
        match next_separator_in(rest, ',') {
            Some(i) => {
                assert(rest@.subrange(0, i as int) =~= rest@.take(i as int));
                match parse_literal_chars(slice_subrange(rest, 0, i)) {
                    Err(e) => {
                        return Err(ArrayError::LiteralError(e));
                    },
                    Ok(item) => {
                        items.push(item);
                        assert(items@.map_values(|l: Literal| l@) =~= before + seq![item@]);
                        assert(rest@.skip(i + 1) =~= interior@.skip(pos + i + 1));
                        assert forall|others: Seq<LiteralView>|
                            before + (seq![item@] + others) == (before + seq![item@])
                                + others by {
                            assert(before + (seq![item@] + others) =~= (before + seq![item@])
                                + others);
                        }
                        pos = pos + i + 1;
                    },
                }
            },
            None => {
                match parse_literal_chars(rest) {
                    Err(e) => {
                        return Err(ArrayError::LiteralError(e));
                    },
                    Ok(item) => {
                        items.push(item);
                        assert(items@.map_values(|l: Literal| l@) =~= before + seq![item@]);
                        return Ok(FlatArray(items));
                    },
                }
            },
        }
    }
}

} // verus!
