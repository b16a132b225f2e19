//! An incremental index of syntax trees over a text buffer: one tree for the
//! buffer as a whole, and one for each stretch of it that is written in
//! another language, nested to any depth.
//!
//! A [`SyntaxMap`] holds the index of one buffer. When the buffer has been
//! edited, [`SyntaxMap::interpolate`] carries the layers over the edits
//! without parsing, and [`SyntaxMap::reparse`] then parses anew what has
//! changed, finds the text in other languages within it, and drops the
//! layers that are no longer reached. A [`SyntaxSnapshot`] is the index at
//! one moment, and answers which layers there are and which of them reach
//! into a range of the buffer.
//!
//! Parsing is tree-sitter's work; the module [`parser`] is the boundary to
//! it. The buffer is given to the library as the plain text of one moment
//! ([`buffer::BufferSnapshot`]) and the list of edits that led to it.
//!
//! What the functions do is stated in their contracts; what holds of them
//! beyond that is stated and proved in the proof functions beside them.

pub mod buffer;
pub mod injection;
pub mod interpolate;
pub mod language;
pub mod layer;
pub mod outcome;
pub mod parse;
pub mod parser;
pub mod position;
pub mod queue;
pub mod region;
pub mod reparse;
pub mod snapshot;
pub mod summary;
pub mod syntax_map;
pub mod walk;

pub use snapshot::SyntaxSnapshot;
pub use syntax_map::SyntaxMap;
