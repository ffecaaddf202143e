//! Lexicographic enumeration of the distinct k-element combinations of a multiset.

pub mod lex;
pub mod sort;
pub mod combinations;

pub use combinations::{CombinationError, Combinations};
