//! Address-expression evaluator for a line-oriented text buffer.
//!
//! An expression in a small mini-language (unions, intersections,
//! complements, searches, marks, positional and structural operators)
//! is evaluated against a read-only buffer snapshot into the set of
//! line indices it denotes.

pub mod buffer;
pub mod laws;
pub mod parse;
pub mod range;
pub mod search;
pub mod semantics;

pub use crate::buffer::Buffer;
pub use crate::parse::evaluate;
pub use crate::parse::parse_range;
pub use crate::buffer::EvalError;
pub use crate::range::Range;
