//! Greedy word wrapping with full justification.
//!
//! A text is cut into the words that whitespace separates, the words are
//! packed onto lines of a fixed width, and every line is written out padded
//! to exactly that width. Widths are counted in UTF-8 code units.

pub mod units;
pub mod words;
pub mod packing;
pub mod line;
pub mod render;
pub mod document;

pub use crate::document::{transform, Document};
use vstd::prelude::*;

verus! {

/// The only way laying out a text can fail.
#[derive(PartialEq, Eq, Debug)]
pub enum DocError {
    /// Some word of the text is wider than the line.
    WordTooLong,
}

} // verus!
