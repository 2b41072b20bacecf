//! Nested configuration values from flat, environment-style key/value pairs.
//!
//! A line such as `A__B__C=value` names a place in a tree of objects by the
//! fields of its key, and gives the value that belongs there as text. The
//! library reads such lines into pairs, puts the pairs in the order of
//! their paths, reads each value as a scalar or as a flat array of scalars,
//! and assembles the tree.
//!
//! - [`text`]: characters, whitespace and trimming.
//! - [`literal`]: scalars and the grammar that tells them apart.
//! - [`array`]: flat arrays and the search for their separators.
//! - [`value`]: the tree of values and the objects in it.
//! - [`order`]: the order of keys and of paths.
//! - [`de`]: pairs, lines and sorted streams of pairs.
//! - [`assemble`]: the assembler and what holds of the trees it builds.
//! - [`querable`]: asking a value for what it holds.
//! - [`ser`], [`types`]: writing values as flat text, step by step.
//! - [`options`], [`error`], [`conv`]: options, errors and conversions.
//!
//! Every function states what it returns over mathematical values: texts
//! are sequences of characters, objects are maps from keys to values.

pub mod array;
pub mod assemble;
pub mod conv;
pub mod de;
pub mod error;
pub mod literal;
pub mod options;
pub mod order;
pub mod querable;
pub mod ser;
pub mod text;
pub mod types;
pub mod value;
