//! A decoder for a line-oriented, type-tagged protocol: simple strings,
//! simple errors, integers, bulk strings and arrays.
//!
//! [`parse`] decodes the message at the start of a buffer and tells how many
//! bytes it took up, so that a caller can decode the next message behind it.
//! What each function returns is stated over models of the buffer's bytes:
//! see [`decode::decoded`]. The laws that hold of those models are in
//! [`laws`]. Offsets and counts are in bytes; whitespace is any whitespace
//! character, see [`whitespace`].

pub mod decode;
pub mod laws;
pub mod number;
pub mod resp;
pub mod scan;
pub mod text;
pub mod whitespace;

pub use decode::{parse, parse_array, parse_bulk_string, parse_error, parse_integer, parse_string};
pub use scan::{get_rterminator_index, get_terminator_index, get_whitespace_index};
