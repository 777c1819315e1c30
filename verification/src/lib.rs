//! Column-oriented transformations over delimited tabular data.
//!
//! Two independent operations are provided:
//! - aligning several tables by column name and concatenating them under a
//!   reconciled, sorted header (`align`), and
//! - fixed-width pretty-printing of a single table so that columns line up
//!   visually while the data stays delimited (`fixwidth`).
//!
//! All row and cell values are plain in-memory strings; reading and writing
//! the delimited files themselves is left to the caller.

pub mod align;
pub mod fixwidth;
pub mod text;
