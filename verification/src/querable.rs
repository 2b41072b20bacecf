//! Asking a value for what it holds under a key or at an index.

use crate::literal::{push_nat, render_nat, Literal};
use crate::value::{Value, ValueView};
use vstd::prelude::*;

verus! {

/// The kinds of value that hold other values.
#[derive(Debug, Clone, Copy, PartialEq, Eq)]
pub enum QueryKind {
    Array,
    Dictionary,
}

/// Why a query has no answer.
#[derive(Debug, PartialEq, Eq)]
pub enum QueryError {
    /// The object binds no such key.
    KeyNotExist(String),
    /// The array is no longer than the index.
    IndexNotExist(usize),
    /// The value at the place asked for is of the first kind; the query asks
    /// for the second.
    TypeError(String, QueryKind, QueryKind),
    /// The value at the place asked for is a scalar.
    UnknownType(String),
}

/// An index as a place: the number between brackets.
pub open spec fn index_text(idx: nat) -> Seq<char> {
    seq!['['] + render_nat(idx) + seq![']']
}

/// The place of an index.
fn index_place(idx: usize) -> (place: String)
    ensures
        place@ == index_text(idx as nat),
{
    let mut place = String::new();
    place.push('[');
    push_nat(&mut place, idx as u64);
    place.push(']');
    assert(place@ =~= index_text(idx as nat));
    place
}

impl Value {
    /// The kind of the value, where it holds other values.
    pub fn query_kind(&self) -> (kind: Option<QueryKind>)
        ensures
            kind == match self@ {
                ValueView::Literal(_) => None::<QueryKind>,
                ValueView::Array(_) => Some(QueryKind::Array),
                ValueView::Object(_) => Some(QueryKind::Dictionary),
            },
    {
        match self {
            Value::Literal(_) => None,
            Value::Array(_) => Some(QueryKind::Array),
            Value::Object(_) => Some(QueryKind::Dictionary),
        }
    }

    /// The value under `path` in an object.
    pub fn query_dict(&self, path: &str) -> (r: Result<&Value, QueryError>)
        ensures
            match self@ {
                ValueView::Object(m) => if m.dom().contains(path@) {
                    r matches Ok(v) && v@ == m[path@]
                } else {
                    r matches Err(QueryError::KeyNotExist(key)) && key@ == path@
                },
                ValueView::Array(_) => r matches Err(
                    QueryError::TypeError(place, QueryKind::Array, QueryKind::Dictionary),
                ) && place@ == path@,
                ValueView::Literal(_) => r matches Err(QueryError::UnknownType(place)) && place@
                    == path@,
            },
    {
        match self {
            Value::Object(d) => match d.get(path) {
                Some(v) => Ok(v),
                None => Err(QueryError::KeyNotExist(String::from_str(path))),
            },
            Value::Array(_) => Err(
                QueryError::TypeError(
                    String::from_str(path),
                    QueryKind::Array,
                    QueryKind::Dictionary,
                ),
            ),
            Value::Literal(_) => Err(QueryError::UnknownType(String::from_str(path))),
        }
    }

    /// The scalar at `idx` in an array.
    pub fn query_array(&self, idx: usize) -> (r: Result<&Literal, QueryError>)
        ensures
            match self@ {
                ValueView::Array(items) => if idx < items.len() {
                    r matches Ok(l) && l@ == items[idx as int]
                } else {
                    r == Err::<&Literal, QueryError>(QueryError::IndexNotExist(idx))
                },
                ValueView::Object(_) => r matches Err(
                    QueryError::TypeError(place, QueryKind::Dictionary, QueryKind::Array),
                ) && place@ == index_text(idx as nat),
                ValueView::Literal(_) => r matches Err(QueryError::UnknownType(place)) && place@
                    == index_text(idx as nat),
            },
    {
        match self {
            Value::Array(a) => {
                let items = a.items();
                if idx < items.len() {
                    Ok(&items[idx])
                } else {
                    Err(QueryError::IndexNotExist(idx))
                }
            },
            Value::Object(_) => Err(
                QueryError::TypeError(index_place(idx), QueryKind::Dictionary, QueryKind::Array),
            ),
            Value::Literal(_) => Err(QueryError::UnknownType(index_place(idx))),
        }
    }
}

} // verus!
