//! Decoding and encoding of CCL documents: an indentation-delimited
//! `key = value` text format without brackets or quoting.
//!
//! ```text
//! title = CCL Example
//!
//! database =
//!   enabled = true
//!   ports =
//!     = 8000
//!     = 8001
//!   limits =
//!     cpu = 1500mi
//! ```
//!
//! A line holds a key, `=` and a value; the lines that follow it with a
//! deeper indentation belong to the value. A line with an empty key is an
//! element of a sequence.
//!
//! - [`grammar`] states the format as functions on bytes.
//! - [`parser`] holds the parsers, which read keys and values from text, from
//!   bytes or from a reader, and are proved against the grammar.
//! - [`de`] holds the front end, which reads values of plain types, and the
//!   cursor that goes through maps, sequences and enums by indentation.
//! - [`scalar`] reads the text of a value as a boolean, an integer or a
//!   character.
//! - [`ser`] writes documents.
//! - [`utf8`] finds where bytes stop being valid UTF-8.
//! - [`laws`] holds what is proved of all of these together.
pub mod de;
pub mod error;
pub mod grammar;
pub mod laws;
pub mod parser;
pub mod position;
pub mod scalar;
pub mod ser;
pub mod utf8;

pub use crate::de::{Deserializer, IoRead, KeyValueAccess};
pub use crate::error::{Error, ErrorCode, ErrorKind};
pub use crate::parser::{IndentState, Parser, ReadParser, Reference, SliceParser, StrParser};
pub use crate::position::Position;
pub use crate::ser::Serializer;
