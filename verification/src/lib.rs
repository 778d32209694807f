//! A lazy, zero-copy splitter over a borrowed slice of characters.
//!
//! A [`splitter::StringSplitter`] cuts a source text at each occurrence of a
//! delimiter, producing borrowed sub-slices of the source one at a time. The
//! delimiter is any type implementing [`delimiter::Delimiter`]; a literal
//! character-slice pattern and a single character are provided.

pub mod delimiter;
pub mod model;
pub mod splitter;
