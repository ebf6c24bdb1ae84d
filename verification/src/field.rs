//! The type tags that a cell can receive.

use vstd::prelude::*;

verus! {

/// The inferred type of a cell that is not a null marker.
#[derive(Clone, Copy, Debug, PartialEq, Eq, Hash, Structural)]
pub enum Field {
    /// The cell's bytes are not valid text.
    Unknown,
    /// Text that is neither an integer nor a float.
    String,
    /// Text that reads as a signed 64-bit integer.
    Integer,
    /// Text that reads as a floating-point number, but not as an integer.
    Float,
}

} // verus!
