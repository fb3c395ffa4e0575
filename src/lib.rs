//! Python-style slice expressions (`start:end:step`) over the fields of a line.
//!
//! A slice expression is parsed once into a [`Range`] whose bounds are relative
//! ([`Index::Head`] counts from the front, [`Index::Tail`] from the back). Each line's
//! fields are then selected by resolving every range against that line's field count.

pub mod args;
pub mod error;
pub mod range;
pub mod select;
pub mod text;

pub use args::Args;
pub use error::{Error, Fault, ParseRangeError};
pub use range::{parse, parse_slice, Index, Range};
pub use select::{cut_fields, cut_line, join_tokens, select};

