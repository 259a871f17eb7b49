//! MPX: a lossless image format. Raw interleaved pixels are split into
//! channel planes, optionally color-transformed (YCoCg-R or an inter-channel
//! delta), filtered row by row with a spatial predictor, optionally split
//! into hi/lo byte planes, and stored one compressed block per channel after
//! a fixed 32-byte header.
//!
//! Compression of the planes is not part of this crate: `encode_image`
//! yields the planes to compress and `encode::encode_container` writes the
//! file around the compressed blocks; `decode::Decoder` locates each block,
//! takes the decompressed plane back and rebuilds the pixels.

pub mod color;
pub mod decode;
pub mod encode;
pub mod error;
pub mod filter;
pub mod header;
pub mod layout;
pub mod names;
pub mod roundtrip;
pub mod samples;

pub use decode::{decode, Decoder};
pub use encode::{encode, encode_container};
pub use error::MpxError;
pub use header::{
    ColorType, FilterType, MpxHeader, FLAG_BYTE_PLANE_SPLIT, FLAG_INTER_CHANNEL_DELTA,
    FLAG_YCOCG_R, HEADER_SIZE,
};

use vstd::prelude::*;
use crate::encode::{runnable, sizes_fit, spec_encode_planes};
use crate::layout::planes_view;

verus! {

/// The flags `encode_image` chooses: byte-plane split for 16-bit images;
/// for 8-bit RGB and RGBA, YCoCg-R when the pixels look compressible and
/// the inter-channel delta otherwise; nothing else.
pub open spec fn chosen_flags(color_type: ColorType, bit_depth: u8, likely_compressible: bool) -> u8 {
    if bit_depth == 16 {
        FLAG_BYTE_PLANE_SPLIT
    } else if bit_depth == 8 && (color_type == ColorType::Rgb || color_type == ColorType::Rgba) {
        if likely_compressible {
            FLAG_YCOCG_R
        } else {
            FLAG_INTER_CHANNEL_DELTA
        }
    } else {
        0
    }
}

/// The header `encode_image` builds.
pub open spec fn image_header(
    width: u32,
    height: u32,
    color_type: ColorType,
    bit_depth: u8,
    filter: FilterType,
    likely_compressible: bool,
) -> MpxHeader {
    MpxHeader {
        color_type,
        bit_depth,
        filter_type: filter,
        width,
        height,
        flags: chosen_flags(color_type, bit_depth, likely_compressible),
    }
}

/// The flag bits of the values `chosen_flags` takes.
pub proof fn lemma_flag_bits(f: u8)
    requires
        f == 0 || f == FLAG_BYTE_PLANE_SPLIT || f == FLAG_INTER_CHANNEL_DELTA || f == FLAG_YCOCG_R,
    ensures
        ((f & FLAG_BYTE_PLANE_SPLIT) != 0) == (f == FLAG_BYTE_PLANE_SPLIT),
        ((f & FLAG_INTER_CHANNEL_DELTA) != 0) == (f == FLAG_INTER_CHANNEL_DELTA),
        ((f & FLAG_YCOCG_R) != 0) == (f == FLAG_YCOCG_R),
{
    assert(f == 0 || f == 1 || f == 2 || f == 4 ==> (
        ((f & 1) != 0) == (f == 1) && ((f & 2) != 0) == (f == 2) && ((f & 4) != 0) == (f == 4)
    )) by (bit_vector);
}

/// Encodes raw interleaved pixels up to compression: chooses the header
/// flags (byte-plane split for 16-bit; YCoCg-R for 8-bit RGB/RGBA when
/// `likely_compressible`, the inter-channel delta otherwise) and runs
/// `encode`. Returns the header and the planes to compress.
pub fn encode_image(
    width: u32,
    height: u32,
    color_type: ColorType,
    bit_depth: u8,
    filter: FilterType,
    pixels: &[u8],
    likely_compressible: bool,
) -> (res: Result<(MpxHeader, Vec<Vec<u8>>), MpxError>)
    requires
        width * height * color_type.channel_count() * (bit_depth / 8) <= usize::MAX,
        width * color_type.channel_count() <= usize::MAX,
        width * color_type.channel_count() * (bit_depth / 8) <= usize::MAX,
        pixels@.len() == width * height * color_type.channel_count() * (bit_depth / 8) ==> (height == 0
            || 8 <= bit_depth < 24),
    ensures
        ({
            let h = image_header(width, height, color_type, bit_depth, filter, likely_compressible);
            &&& pixels@.len() != h.pixel_bytes() ==> res == Err::<(MpxHeader, Vec<Vec<u8>>), MpxError>(
                MpxError::PixelBufferSize { expected: h.pixel_bytes() as usize, got: pixels@.len() as usize },
            )
            &&& pixels@.len() == h.pixel_bytes() ==> (res matches Ok((hdr, planes)) && hdr == h
                && planes_view(planes@) == spec_encode_planes(h, pixels@))
        }),
        res matches Ok((hdr, _)) ==> {
            &&& hdr.width == width
            &&& hdr.height == height
            &&& hdr.color_type == color_type
            &&& hdr.bit_depth == bit_depth
            &&& hdr.filter_type == filter
            &&& bit_depth == 16 ==> hdr.flags == 1
            &&& (bit_depth == 8 && (color_type == ColorType::Rgb || color_type == ColorType::Rgba)) ==> hdr.flags
                == (if likely_compressible { 4u8 } else { 2u8 })
            &&& (bit_depth == 8 && (color_type == ColorType::Gray || color_type == ColorType::GrayA)) ==> hdr.flags == 0
            &&& (bit_depth != 8 && bit_depth != 16) ==> hdr.flags == 0
        },
{
    let flags: u8 = if bit_depth == 16 {
        FLAG_BYTE_PLANE_SPLIT
    } else if bit_depth == 8 && (color_type == ColorType::Rgb || color_type == ColorType::Rgba) {
        if likely_compressible {
            FLAG_YCOCG_R
        } else {
            FLAG_INTER_CHANNEL_DELTA
        }
    } else {
        0
    };
    let header = MpxHeader { color_type, bit_depth, filter_type: filter, width, height, flags };
    proof {
        lemma_flag_bits(flags);
        assert(sizes_fit(header));
        assert(pixels@.len() == header.pixel_bytes() ==> runnable(header));
    }
    match encode(&header, pixels) {
        Ok(planes) => Ok((header, planes)),
        Err(e) => Err(e),
    }
}

/// Size in bytes of a raw pixel buffer: w * h * channels * (bpp / 8).
pub fn pixel_buffer_size(w: u32, h: u32, ct: ColorType, bpp: u8) -> (n: usize)
    requires
        w * h * ct.channel_count() <= usize::MAX,
        w * h * ct.channel_count() * (bpp / 8) <= usize::MAX,
    ensures
        n == w * h * ct.channel_count() * (bpp / 8),
{
    proof {
        let c = ct.channel_count() as int;
        assert(w * h >= 0) by (nonlinear_arith)
            requires w >= 0, h >= 0;
        assert(w * h <= w * h * c) by (nonlinear_arith)
            requires w * h >= 0, c >= 1;
    }
    w as usize * h as usize * ct.channel_count() * (bpp / 8) as usize
}

/// The first position, within the shorter of the two buffers, at which
/// they differ; `None` when one is a prefix of the other.
pub fn first_difference(a: &[u8], b: &[u8]) -> (r: Option<usize>)
    ensures
        r matches Some(i) ==> i < a@.len() && i < b@.len() && a@[i as int] != b@[i as int]
            && forall|j: int| 0 <= j < i ==> a@[j] == b@[j],
        r is None ==> forall|j: int| 0 <= j < a@.len() && j < b@.len() ==> a@[j] == b@[j],
{
    let n = if a.len() < b.len() { a.len() } else { b.len() };
    let mut i: usize = 0;
    while i < n
        invariant
            n <= a@.len(),
            n <= b@.len(),
            n == a@.len() || n == b@.len(),
            i <= n,
            forall|j: int| 0 <= j < i ==> a@[j] == b@[j],
        decreases n - i,
    {
        if a[i] != b[i] {
            return Some(i);
        }
        i = i + 1;
    }
    None
}

} // verus!
