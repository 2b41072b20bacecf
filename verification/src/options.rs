//! What a reader of pairs can be told: the separator of array elements, the
//! separator of the fields of a key, and the key of a root to hang the tree
//! under.
//!
//! The options are made by a builder; each of them must be set before the
//! options are built.

use vstd::prelude::*;

verus! {

/// The options of a reader.
#[derive(Debug, PartialEq, Eq)]
pub struct Options {
    array_sep: String,
    field_sep: String,
    root: Option<String>,
}

/// The options as mathematical values.
pub struct OptionsView {
    pub array_sep: Seq<char>,
    pub field_sep: Seq<char>,
    pub root: Option<Seq<char>>,
}

/// The text of a string that may be there.
pub open spec fn option_text(s: Option<String>) -> Option<Seq<char>> {
    match s {
        Some(s) => Some(s@),
        None => None,
    }
}

impl View for Options {
    type V = OptionsView;

    closed spec fn view(&self) -> OptionsView {
        OptionsView {
            array_sep: self.array_sep@,
            field_sep: self.field_sep@,
            root: option_text(self.root),
        }
    }
}

/// The option that a builder was not given.
#[derive(Debug, Clone, Copy, PartialEq, Eq)]
pub enum OptionsError {
    MissingArraySep,
    MissingFieldSep,
    MissingRoot,
}

/// Collects options one by one.
#[derive(Debug, PartialEq, Eq)]
pub struct OptionsBuilder {
    array_sep: Option<String>,
    field_sep: Option<String>,
    root: Option<Option<String>>,
}

/// What a builder has been given so far.
pub struct OptionsBuilderView {
    pub array_sep: Option<Seq<char>>,
    pub field_sep: Option<Seq<char>>,
    pub root: Option<Option<Seq<char>>>,
}

impl View for OptionsBuilder {
    type V = OptionsBuilderView;

    closed spec fn view(&self) -> OptionsBuilderView {
        OptionsBuilderView {
            array_sep: option_text(self.array_sep),
            field_sep: option_text(self.field_sep),
            root: match self.root {
                Some(root) => Some(option_text(root)),
                None => None,
            },
        }
    }
}

/// What a builder builds: the options where it has been given all of them,
/// the first that is missing otherwise.
pub open spec fn spec_build_options(b: OptionsBuilderView) -> Result<OptionsView, OptionsError> {
    if b.array_sep is None {
        Err(OptionsError::MissingArraySep)
    } else if b.field_sep is None {
        Err(OptionsError::MissingFieldSep)
    } else if b.root is None {
        Err(OptionsError::MissingRoot)
    } else {
        Ok(OptionsView { array_sep: b.array_sep->0, field_sep: b.field_sep->0, root: b.root->0 })
    }
}

impl Default for OptionsBuilder {
    /// A builder that has been given nothing.
    fn default() -> (b: Self)
        ensures
            b@ == (OptionsBuilderView { array_sep: None, field_sep: None, root: None }),
    {
        OptionsBuilder { array_sep: None, field_sep: None, root: None }
    }
}

impl OptionsBuilder {
    /// Sets the separator of array elements.
    pub fn array_sep(self, value: &str) -> (b: Self)
        ensures
            b@ == (OptionsBuilderView { array_sep: Some(value@), ..self@ }),
    {
        OptionsBuilder {
            array_sep: Some(String::from_str(value)),
            field_sep: self.field_sep,
            root: self.root,
        }
    }

    /// Sets the separator of the fields of a key.
    pub fn field_sep(self, value: &str) -> (b: Self)
        ensures
            b@ == (OptionsBuilderView { field_sep: Some(value@), ..self@ }),
    {
        OptionsBuilder {
            array_sep: self.array_sep,
            field_sep: Some(String::from_str(value)),
            root: self.root,
        }
    }

    /// Sets the key of the root, or that there is none.
    pub fn root(self, value: Option<&str>) -> (b: Self)
        ensures
            b@ == (OptionsBuilderView {
                root: Some(
                    match value {
                        Some(s) => Some(s@),
                        None => None,
                    },
                ),
                ..self@
            }),
    {
        let root = match value {
            Some(s) => Some(String::from_str(s)),
            None => None,
        };
        OptionsBuilder { array_sep: self.array_sep, field_sep: self.field_sep, root: Some(root) }
    }

    /// Builds the options.
    pub fn build(self) -> (r: Result<Options, OptionsError>)
        ensures
            match r {
                Ok(options) => spec_build_options(self@) == Ok::<OptionsView, OptionsError>(
                    options@,
                ),
                Err(e) => spec_build_options(self@) == Err::<OptionsView, OptionsError>(e),
            },
    {
        let OptionsBuilder { array_sep, field_sep, root } = self;
        match array_sep {
            None => Err(OptionsError::MissingArraySep),
            Some(array_sep) => match field_sep {
                None => Err(OptionsError::MissingFieldSep),
                Some(field_sep) => match root {
                    None => Err(OptionsError::MissingRoot),
                    Some(root) => Ok(Options { array_sep, field_sep, root }),
                },
            },
        }
    }
}

impl Options {
    /// The separator of array elements.
    pub fn array_sep(&self) -> (sep: &str)
        ensures
            sep@ == self@.array_sep,
    {
        self.array_sep.as_str()
    }

    /// The separator of the fields of a key.
    pub fn field_sep(&self) -> (sep: &str)
        ensures
            sep@ == self@.field_sep,
    {
        self.field_sep.as_str()
    }

    /// The key of the root, where there is one.
    pub fn root(&self) -> (root: Option<&str>)
        ensures
            match root {
                Some(s) => self@.root == Some(s@),
                None => self@.root is None,
            },
    {
        match &self.root {
            Some(s) => Some(s.as_str()),
            None => None,
        }
    }
}

} // verus!
