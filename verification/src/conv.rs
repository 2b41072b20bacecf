//! Scalars from the values of the language: integers of the narrower types,
//! strings and booleans.

use crate::literal::{Literal, LiteralView, Number};
use vstd::prelude::*;
use vstd::std_specs::convert::FromSpecImpl;

verus! {

impl From<u8> for Literal {
    fn from(v: u8) -> (l: Literal)
        ensures
            l@ == LiteralView::Integer(v as int),
    {
        Literal::Number(Number::Integer(v as i64))
    }
}

impl FromSpecImpl<u8> for Literal {
    open spec fn obeys_from_spec() -> bool {
        true
    }

    open spec fn from_spec(v: u8) -> Literal {
        Literal::Number(Number::Integer(v as i64))
    }
}

impl From<u16> for Literal {
    fn from(v: u16) -> (l: Literal)
        ensures
            l@ == LiteralView::Integer(v as int),
    {
        Literal::Number(Number::Integer(v as i64))
    }
}

impl FromSpecImpl<u16> for Literal {
    open spec fn obeys_from_spec() -> bool {
        true
    }

    open spec fn from_spec(v: u16) -> Literal {
        Literal::Number(Number::Integer(v as i64))
    }
}

impl From<u32> for Literal {
    fn from(v: u32) -> (l: Literal)
        ensures
            l@ == LiteralView::Integer(v as int),
    {
        Literal::Number(Number::Integer(v as i64))
    }
}

impl FromSpecImpl<u32> for Literal {
    open spec fn obeys_from_spec() -> bool {
        true
    }

    open spec fn from_spec(v: u32) -> Literal {
        Literal::Number(Number::Integer(v as i64))
    }
}

impl From<i8> for Literal {
    fn from(v: i8) -> (l: Literal)
        ensures
            l@ == LiteralView::Integer(v as int),
    {
        Literal::Number(Number::Integer(v as i64))
    }
}

impl FromSpecImpl<i8> for Literal {
    open spec fn obeys_from_spec() -> bool {
        true
    }

    open spec fn from_spec(v: i8) -> Literal {
        Literal::Number(Number::Integer(v as i64))
    }
}

impl From<i16> for Literal {
    fn from(v: i16) -> (l: Literal)
        ensures
            l@ == LiteralView::Integer(v as int),
    {
        Literal::Number(Number::Integer(v as i64))
    }
}

impl FromSpecImpl<i16> for Literal {
    open spec fn obeys_from_spec() -> bool {
        true
    }

    open spec fn from_spec(v: i16) -> Literal {
        Literal::Number(Number::Integer(v as i64))
    }
}

impl From<i32> for Literal {
    fn from(v: i32) -> (l: Literal)
        ensures
            l@ == LiteralView::Integer(v as int),
    {
        Literal::Number(Number::Integer(v as i64))
    }
}

impl FromSpecImpl<i32> for Literal {
    open spec fn obeys_from_spec() -> bool {
        true
    }

    open spec fn from_spec(v: i32) -> Literal {
        Literal::Number(Number::Integer(v as i64))
    }
}

impl From<i64> for Literal {
    fn from(v: i64) -> (l: Literal)
        ensures
            l@ == LiteralView::Integer(v as int),
    {
        Literal::Number(Number::Integer(v))
    }
}

impl FromSpecImpl<i64> for Literal {
    open spec fn obeys_from_spec() -> bool {
        true
    }

    open spec fn from_spec(v: i64) -> Literal {
        Literal::Number(Number::Integer(v as i64))
    }
}

impl From<bool> for Literal {
    fn from(v: bool) -> (l: Literal)
        ensures
            l@ == LiteralView::Bool(v),
    {
        Literal::Bool(v)
    }
}

impl FromSpecImpl<bool> for Literal {
    open spec fn obeys_from_spec() -> bool {
        true
    }

    open spec fn from_spec(v: bool) -> Literal {
        Literal::Bool(v)
    }
}

impl From<String> for Literal {
    fn from(v: String) -> (l: Literal)
        ensures
            l@ == LiteralView::String(v@),
    {
        Literal::String(v)
    }
}

impl FromSpecImpl<String> for Literal {
    open spec fn obeys_from_spec() -> bool {
        true
    }

    open spec fn from_spec(v: String) -> Literal {
        Literal::String(v)
    }
}

/// The scalar is a string with the text of `v`. Which string it is, no
/// function of `v` says: only its text is stated.
impl From<&'static str> for Literal {
    fn from(v: &'static str) -> (l: Literal)
        ensures
            l@ == LiteralView::String(v@),
    {
        Literal::string(v)
    }
}

impl FromSpecImpl<&'static str> for Literal {
    open spec fn obeys_from_spec() -> bool {
        false
    }

    open spec fn from_spec(v: &'static str) -> Literal {
        arbitrary()
    }
}

} // verus!
