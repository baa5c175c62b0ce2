//! Core engine of a line-oriented, interactive find-and-replace tool.
//!
//! The library covers the pure logic of the tool: merging matched line
//! numbers into padded hunk ranges, parsing and rewriting unified-diff
//! block headers, the per-hunk review state machine, the per-file
//! rewriting engine, and the decision rules of the atomic file-commit
//! protocol.  Everything that touches the terminal, the filesystem or a
//! subprocess lives outside the library and hands plain values in.

pub mod diffwrap;
pub mod editor;
pub mod menu;
pub mod options;
pub mod parse;
pub mod patch;
pub mod ranges;
pub mod replace;
pub mod review;
pub mod whitespace;
pub mod rewrite;
