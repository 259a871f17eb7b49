use vstd::prelude::*;

verus! {

/// Everything that can go wrong while encoding or decoding an MPX image.
///
/// Each variant carries the numbers that describe the problem; turning them
/// into a human-readable message is left to the caller.
#[derive(Debug, Clone, Copy, PartialEq, Eq, Structural)]
pub enum MpxError {
    /// The input is shorter than the fixed-size header.
    HeaderTooShort,
    /// The first four bytes are not the MPX magic.
    NotMpx,
    /// The version byte is not the supported version (carries the byte).
    UnsupportedVersion(u8),
    /// The color-type byte is not 0..=3 (carries the byte).
    UnknownColorType(u8),
    /// The bit-depth byte is neither 8 nor 16 (carries the byte).
    UnsupportedBitDepth(u8),
    /// The filter-type byte is not 0..=5 (carries the byte).
    UnknownFilterType(u8),
    /// Width or height is zero.
    ZeroDimension,
    /// width * height * channels * bytes-per-sample does not fit in `usize`.
    DimensionsOverflow,
    /// The pixel buffer handed to the encoder has the wrong length.
    PixelBufferSize { expected: usize, got: usize },
    /// The 4-byte length field of a channel block runs past the end of the data.
    BlockHeaderTruncated { channel: usize },
    /// The compressed bytes of a channel block run past the end of the data.
    BlockDataTruncated { channel: usize },
    /// A decompressed channel plane does not have the size the header implies.
    PlaneSize { channel: usize, got: usize, expected: usize },
}

} // verus!
