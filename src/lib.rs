//! Rows of String Values: a binary tabular format in which rows and values
//! are delimited by bytes that never occur in UTF-8 text, so that no value
//! needs escaping.
//!
//! `format` holds the mathematical model of the wire format, `writer` and
//! `reader` the encoding and scanning engines, `codec` the whole-document
//! functions and `laws` the properties that relate them.

pub mod error;
pub mod format;
pub mod writer;
pub mod reader;
pub mod codec;
pub mod laws;

pub use codec::{decode_rsv, decode_rsv_borrowed, encode_rsv};
pub use error::{Error, Fault};
pub use reader::{RsvReader, RsvRow, RsvRows, RsvValues};
pub use writer::RsvWriter;
