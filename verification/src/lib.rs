//! A scannerless reader for the parenthesised save-file notation of KiCad
//! schematics and boards.
//!
//! [`parser`] reads a text into a tree of [`Sexp`] nodes and
//! [`pretty_print`] renders a tree as a flat trace. A text holds literals
//! of five forms (quoted strings, signed integers, hex blobs, signed
//! floats and bare symbols) and parenthesised lists of them. A
//! parenthesised region that cannot be read is kept as one
//! [`Sexp::Invalid`] node, so that what stands around it is still read.
//!
//! What each function returns is stated over the characters of the text:
//! [`literal`] says what the five forms match, [`token`] what their texts
//! look like, [`grammar`] what a text is read as, and [`context`] proves
//! that items in parentheses are read as the list of those items.

pub mod class;
pub mod context;
pub mod error;
pub mod grammar;
pub mod literal;
pub mod print;
pub mod reader;
pub mod recognize;
pub mod recover;
pub mod scan;
pub mod sexp;
pub mod single;
pub mod source;
pub mod token;

pub use crate::error::ParseError;
pub use crate::print::pretty_print;
pub use crate::reader::parser;
pub use crate::sexp::Sexp;
pub use crate::single::{
    parse_escape, parse_float, parse_hexint64, parse_int, parse_string, parse_symbol,
};
