//! What can go wrong, by component.

use crate::order::path_view;
use vstd::prelude::*;

verus! {

/// Why a scalar could not be read.
#[derive(Debug, Clone, Copy, PartialEq, Eq)]
pub enum LiteralError {
    /// Nothing but whitespace was given.
    EmptyInput,
    /// The text has the shape of a number and no value of the number's type.
    NumberError,
    /// A quotation mark opens the text and nothing closes it.
    SyntaxError,
}

/// Why a flat array could not be read.
#[derive(Debug, Clone, Copy, PartialEq, Eq)]
pub enum ArrayError {
    /// Nothing but whitespace was given.
    EmptyInput,
    /// The text does not start with `[` and end with `]`.
    MalformedBrackets,
    /// An element is no scalar.
    LiteralError(LiteralError),
}

/// Why the value of a pair could not be read.
#[derive(Debug, Clone, Copy, PartialEq, Eq)]
pub enum ValueError {
    /// Nothing but whitespace was given.
    EmptyInput,
    /// The text is bracketed and is no flat array.
    ArrayError(ArrayError),
    /// The text is not bracketed and is no scalar.
    LiteralError(LiteralError),
}

/// Why a stream of pairs is no tree.
#[derive(Debug, PartialEq, Eq)]
pub enum AssembleError {
    /// The value of a pair is no scalar.
    LiteralError(LiteralError),
    /// The value of a pair is bracketed and is no flat array.
    ArrayError(ArrayError),
    /// Two pairs have this path.
    DuplicateKey(Vec<String>),
    /// One pair binds this path to a value and another pair passes through it.
    TypeConflict(Vec<String>),
    /// The pairs are not in the order of their paths.
    UnsortedInput,
}

/// An `AssembleError` as a mathematical value.
pub enum AssembleErrorView {
    LiteralError(LiteralError),
    ArrayError(ArrayError),
    DuplicateKey(Seq<Seq<char>>),
    TypeConflict(Seq<Seq<char>>),
    UnsortedInput,
}

impl View for AssembleError {
    type V = AssembleErrorView;

    open spec fn view(&self) -> AssembleErrorView {
        match self {
            AssembleError::LiteralError(e) => AssembleErrorView::LiteralError(*e),
            AssembleError::ArrayError(e) => AssembleErrorView::ArrayError(*e),
            AssembleError::DuplicateKey(path) => AssembleErrorView::DuplicateKey(path_view(path@)),
            AssembleError::TypeConflict(path) => AssembleErrorView::TypeConflict(path_view(path@)),
            AssembleError::UnsortedInput => AssembleErrorView::UnsortedInput,
        }
    }
}

/// The error of an assembly that the error of a value becomes. A blank value
/// counts as a blank scalar.
pub open spec fn spec_value_error(e: ValueError) -> AssembleErrorView {
    match e {
        ValueError::EmptyInput => AssembleErrorView::LiteralError(LiteralError::EmptyInput),
        ValueError::ArrayError(e) => AssembleErrorView::ArrayError(e),
        ValueError::LiteralError(e) => AssembleErrorView::LiteralError(e),
    }
}

impl AssembleError {
    /// The error of an assembly that the error of a value becomes.
    pub fn from_value_error(e: ValueError) -> (r: AssembleError)
        ensures
            r@ == spec_value_error(e),
    {
        match e {
            ValueError::EmptyInput => AssembleError::LiteralError(LiteralError::EmptyInput),
            ValueError::ArrayError(e) => AssembleError::ArrayError(e),
            ValueError::LiteralError(e) => AssembleError::LiteralError(e),
        }
    }
}

/// The head of the message of a custom error.
pub open spec fn custom_prefix() -> Seq<char> {
    "custom error: "@
}

/// Why a value could not be written.
#[derive(Debug, PartialEq, Eq)]
pub enum SerializeError {
    /// An error that the caller describes.
    CustomError(String),
    /// The message of an error of the sink that the text was written to.
    IoError(String),
    /// A sequence or a map ended before its first step.
    StateError,
}

impl SerializeError {
    /// The custom error of a message.
    pub fn custom(msg: &str) -> (e: Self)
        ensures
            e matches SerializeError::CustomError(text) && text@ == custom_prefix() + msg@,
    {
        let mut text = String::from_str("custom error: ");
        text.append(msg);
        SerializeError::CustomError(text)
    }

    /// The error in words.
    pub fn message(&self) -> (text: String)
        ensures
            text@ == match self {
                SerializeError::CustomError(v) => custom_prefix() + v@,
                SerializeError::IoError(e) => e@,
                SerializeError::StateError => "StateError"@,
            },
    {
        match self {
            SerializeError::CustomError(v) => {
                let mut text = String::from_str("custom error: ");
                text.append(v.as_str());
                text
            },
            SerializeError::IoError(e) => e.clone(),
            SerializeError::StateError => String::from_str("StateError"),
        }
    }
}

/// Why a tree could not be turned into a caller's structure.
#[derive(Debug, PartialEq, Eq)]
pub enum DeserializeError {
    /// An error that the caller describes.
    CustomError(String),
}

impl DeserializeError {
    /// The custom error of a message.
    pub fn custom(msg: &str) -> (e: Self)
        ensures
            e matches DeserializeError::CustomError(text) && text@ == custom_prefix() + msg@,
    {
        let mut text = String::from_str("custom error: ");
        text.append(msg);
        DeserializeError::CustomError(text)
    }

    /// The error in words.
    pub fn message(&self) -> (text: String)
        ensures
            text@ == match self {
                DeserializeError::CustomError(v) => custom_prefix() + v@,
            },
    {
        match self {
            DeserializeError::CustomError(v) => {
                let mut text = String::from_str("custom error: ");
                text.append(v.as_str());
                text
            },
        }
    }
}

} // verus!
