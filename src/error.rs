//! The kinds of error that parsing a stream can end in.

use vstd::prelude::*;

use crate::codec::FourCC;

verus! {

/// Why a stream was refused.
#[derive(Clone, Copy, Debug, PartialEq, Eq, Structural)]
pub enum ParseError {
    /// The body of a box to be read into memory is longer than `MAX_READ_BOX_SIZE`; holds its length.
    BoxDataTooLarge(u64),
    /// Boxes stand in an order that the format forbids (a second `ftyp`, a box before `ftyp`).
    InvalidBoxLayout,
    /// A length or an offset is malformed, or arithmetic on it overflows.
    InvalidInput,
    /// A box that the stream must hold is absent.
    MissingRequiredBox(FourCC),
    /// The stream ends within a box.
    TruncatedBox,
    /// A top-level box of a type that is not supported.
    UnsupportedBox(FourCC),
    /// The boxes are well formed but laid out in a way that is not supported.
    UnsupportedBoxLayout,
    /// The file-type box does not list the compatible brand; holds the major brand.
    UnsupportedFormat(FourCC),
}

} // verus!
