//! A compiler from SCPI-style command patterns to verified message codecs.
//!
//! A command pattern is a textual template for one instrument-control
//! command: literal text that must appear verbatim, `[...]` spans that may
//! be omitted on input but are always rendered on output, runs of spaces
//! that separate tokens, and `<name>` placeholders that bind, in order, to
//! the fields of a typed record.  From a pattern and a field schema the
//! library builds a decoder (message bytes to field values, or no match)
//! and an encoder (field values to canonical message bytes), and proves
//! that the two agree: encoding an instance and decoding the result gives
//! the instance back.

pub mod attributes;
pub mod command;
pub mod decode;
pub mod display;
pub mod laws;
pub mod pattern;
pub mod schema;
pub mod value;
