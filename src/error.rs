use vstd::prelude::*;

verus! {

/// Why a container, or one of its frames, could not be decoded.
#[derive(Debug, Clone, Copy, PartialEq, Eq, Structural)]
pub enum PpmError {
    /// A read went past the end of the buffer.
    Truncated,
    /// The first four bytes are not `PARA`.
    BadMagic,
    /// A frame or BGM speed byte decodes to a speed outside `1..=8`.
    InvalidSpeed,
    /// A frame index at or beyond the frame count.
    InvalidFrameIndex,
    /// A layer pen index of zero in a frame header.
    InvalidPenIndex,
    /// An author name that is not valid UTF-8 once its NUL bytes are removed.
    InvalidText,
    /// The frame offset table does not hold one offset per frame, or an
    /// offset falls outside the animation data region.
    InvalidOffsetTable,
}

} // verus!
