//! Type inference for the cells of delimited tabular data.
//!
//! The input is decoded into records, the header record is dropped, each
//! remaining cell is given one of a small set of type tags (or marked as a
//! null), and the tags are tallied into a histogram.

pub mod classify;
pub mod decode;
pub mod field;
pub mod histogram;
pub mod number;
pub mod quote;
pub mod reader;

pub use classify::{classify_cells, parse};
pub use decode::{decode_cells, read_csv, DecodeError};
pub use field::Field;
pub use histogram::{histogram, Histogram};
pub use quote::has_open_quote;
