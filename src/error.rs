use vstd::prelude::*;

verus! {

/// The ways in which decoding can fail.
#[derive(Debug, Clone, Copy, PartialEq, Eq, Structural)]
pub enum NbtError {
    /// The buffer still carries the gzip magic prefix; decompress it first.
    StillCompressed,
    /// The outermost tag is not a Compound; carries the observed type id.
    InvalidRoot(u8),
    /// A read would go past the end of the buffer.
    UnexpectedEndOfData,
    /// A negative length, invalid text, or an unknown tag type.
    MalformedData,
    /// Lists and compounds are nested deeper than the parser allows.
    DepthExceeded,
    /// The gzip stream could not be inflated.
    DecompressionFailure,
}

} // verus!
