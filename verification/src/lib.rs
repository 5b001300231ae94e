//! A small delimiter-separated-values codec.
//!
//! The reader decodes a byte buffer into rows of fields: it splits the input
//! into lines, splits each line on a configurable delimiter, optionally trims
//! whitespace, and captures the first row as a header.  The writer encodes
//! rows of fields back into a byte buffer, quote-wrapping any field that
//! contains a structural byte.  The wire format both sides agree on is stated
//! in the `format` module, together with the round-trip laws.

pub mod format;
pub mod reader;
pub mod writer;

pub use reader::Reader;
pub use reader::ReaderBuilder;
pub use reader::ReaderState;
pub use writer::Writer;
