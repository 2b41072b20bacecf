//! The formatters that a serializer is made of: how a string is quoted, how
//! an array is bracketed, and what separates keys, fields and pairs.
//!
//! A formatter appends to the text written so far; what it appends is the
//! same each time.

use vstd::prelude::*;

verus! {

/// How a string is written.
pub trait StringFormatter {
    /// The text that stands for the string `v`.
    spec fn formatted(v: Seq<char>) -> Seq<char>;

    /// Appends the text that stands for `v`.
    fn format(f: &mut String, v: &str)
        ensures
            final(f)@ == old(f)@ + Self::formatted(v@),
    ;
}

/// How an array is written.
pub trait ArrayFormatter {
    /// What opens an array.
    spec fn begin_text() -> Seq<char>;

    /// What stands between two elements.
    spec fn separator_text() -> Seq<char>;

    /// What closes an array.
    spec fn end_text() -> Seq<char>;

    /// Appends what opens an array.
    fn begin(f: &mut String)
        ensures
            final(f)@ == old(f)@ + Self::begin_text(),
    ;

    /// Appends what stands between two elements.
    fn separate(f: &mut String)
        ensures
            final(f)@ == old(f)@ + Self::separator_text(),
    ;

    /// Appends what closes an array.
    fn end(f: &mut String)
        ensures
            final(f)@ == old(f)@ + Self::end_text(),
    ;
}

/// How the parts of a pair are kept apart.
pub trait FieldFormatter {
    /// What stands between a key and its value.
    spec fn pair_sep_text() -> Seq<char>;

    /// What stands between two fields of a key.
    spec fn field_sep_text() -> Seq<char>;

    /// What stands behind a value.
    spec fn value_sep_text() -> Seq<char>;

    /// Appends what stands between a key and its value.
    fn pair_sep(f: &mut String)
        ensures
            final(f)@ == old(f)@ + Self::pair_sep_text(),
    ;

    /// Appends what stands between two fields of a key.
    fn field_sep(f: &mut String)
        ensures
            final(f)@ == old(f)@ + Self::field_sep_text(),
    ;

    /// Appends what stands behind a value.
    fn value_sep(f: &mut String)
        ensures
            final(f)@ == old(f)@ + Self::value_sep_text(),
    ;
}

/// A sink `W` written through the formatters `A`, `F` and `S`.
pub trait Writer<W, A, F, S> {

}

} // verus!
