//! Core logic of a viewer for very large delimited, JSON-lines and text files:
//! a sparse line index over the raw bytes, per-format header and row parsing,
//! byte-level text search, and the spreadsheet-style selection and scrolling
//! rules of the table view.

pub mod bytes;
pub mod lines;
pub mod text;
pub mod format;
pub mod search;
pub mod selection;
pub mod table;
pub mod viewer;
pub mod laws;
