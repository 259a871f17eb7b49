//! The encoder's plane pipeline: deinterleave, color transform, spatial
//! filter and byte-plane split; and the block container around the
//! compressed planes.
use vstd::prelude::*;
use crate::color::{co_plane, cg_plane, delta, delta_plane, rgb_to_ycocg, y_plane};
use crate::filter::byte_sub;
use crate::error::MpxError;
use crate::filter::{filter_plane, filter_plane_rows, lemma_filter_plane_rows_len};
use crate::header::{le_u32_bytes, u32_to_le, FilterType, MpxHeader};
use crate::layout::{deinterleave, deinterleave_pixels, planes_view, split_byte_planes, split_bytes};

verus! {

/// The YCoCg-R forward transform of the first three planes (R, G, B become
/// Y, Co, Cg); any further plane (alpha) is kept.
pub open spec fn ycocg_forward_planes(p: Seq<Seq<u8>>) -> Seq<Seq<u8>> {
    p.update(0, y_plane(p[0], p[1], p[2])).update(1, co_plane(p[0], p[1], p[2])).update(
        2,
        cg_plane(p[0], p[1], p[2]),
    )
}

/// The inter-channel delta over the first `m` bytes: planes 1 and 2 (where
/// present) minus the original plane before them.
pub open spec fn icd_forward(p: Seq<Seq<u8>>, m: int) -> Seq<Seq<u8>> {
    Seq::new(p.len(), |c: int| if 1 <= c < 3 { delta_plane(p[c], p[c - 1], m) } else { p[c] })
}

/// The inter-channel delta subtracts, modulo 256 and over the first `m`
/// bytes, plane 0 from plane 1 and the original plane 1 from plane 2; plane 0
/// and every plane after the third (alpha) pass through unchanged.
pub proof fn law_icd_forward(p: Seq<Seq<u8>>, m: int)
    ensures
        icd_forward(p, m).len() == p.len(),
        forall|c: int| 0 <= c < p.len() ==> (#[trigger] icd_forward(p, m)[c]).len() == p[c].len(),
        forall|c: int, i: int| 0 <= c < p.len() && 0 <= i < p[c].len() ==> #[trigger] icd_forward(p, m)[c][i] as int
            == if (c == 1 || c == 2) && i < m { (p[c][i] - p[c - 1][i]) % 256 } else { p[c][i] as int },
{
    assert forall|c: int, i: int| 0 <= c < p.len() && 0 <= i < p[c].len() implies #[trigger] icd_forward(p, m)[c][i] as int
        == if (c == 1 || c == 2) && i < m { (p[c][i] - p[c - 1][i]) % 256 } else { p[c][i] as int } by {
        if (c == 1 || c == 2) && i < m {
            assert(icd_forward(p, m)[c][i] == byte_sub(p[c][i], p[c - 1][i]));
        }
    }
}

/// The color transforms touch only the first three planes: the alpha plane
/// of an RGBA image goes to the filter as it was deinterleaved.
pub proof fn law_transform_keeps_alpha(h: MpxHeader, px: Seq<u8>, c: int)
    requires
        3 <= c < h.channel_count(),
    ensures
        transformed_planes(h, px)[c]
            == deinterleave(px, h.pixel_count(), h.channel_count() as int, h.bytes_per_sample() as int)[c],
{
}

/// What the encoder does to each channel, in order: YCoCg-R turns planes
/// R, G, B into Y, Co, Cg (alpha kept); without it the inter-channel delta
/// or nothing applies to the deinterleaved planes; then each plane is
/// filtered row by row, rows `width` samples of the channel's sample size
/// long, and split into hi/lo byte planes where the header says so.
pub proof fn law_encode_pipeline(h: MpxHeader, px: Seq<u8>, c: int)
    requires
        0 <= c < h.channel_count(),
        h.use_ycocg() ==> h.channel_count() >= 3,
    ensures
        ({
            let p0 = deinterleave(px, h.pixel_count(), h.channel_count() as int, h.bytes_per_sample() as int);
            let t = transformed_planes(h, px)[c];
            &&& h.use_ycocg() && !h.inter_channel_delta() ==> t == (if c == 0 {
                y_plane(p0[0], p0[1], p0[2])
            } else if c == 1 {
                co_plane(p0[0], p0[1], p0[2])
            } else if c == 2 {
                cg_plane(p0[0], p0[1], p0[2])
            } else {
                p0[c]
            })
            &&& !h.use_ycocg() && !h.inter_channel_delta() ==> t == p0[c]
            &&& !h.use_ycocg() && h.inter_channel_delta() ==> t == icd_forward(p0, h.width * h.height * (h.bit_depth / 8))[c]
        }),
        ({
            let t = transformed_planes(h, px)[c];
            let cb = h.channel_bps(c as usize) as int;
            let f = filter_plane_rows(h.filter_type, t, h.width * cb, cb, h.height as int);
            spec_encode_planes(h, px)[c] == if h.channel_needs_byte_split(c as usize) { split_bytes(f) } else { f }
        }),
{
    assert(h.width * h.height * (h.bit_depth / 8) == h.spec_plane_bytes()) by (nonlinear_arith)
        requires h.spec_plane_bytes() == h.height * (h.width * (h.bit_depth / 8) as usize);
    let p0 = deinterleave(px, h.pixel_count(), h.channel_count() as int, h.bytes_per_sample() as int);
    assert(p0.len() == h.channel_count());
    assert(transformed_planes(h, px).len() == h.channel_count());
    assert(spec_encode_planes(h, px)[c] == encoded_plane(h, transformed_planes(h, px)[c], c));
}

/// The channel planes after the color transform the header asks for.
pub open spec fn transformed_planes(h: MpxHeader, px: Seq<u8>) -> Seq<Seq<u8>> {
    let p0 = deinterleave(px, h.pixel_count(), h.channel_count() as int, h.bytes_per_sample() as int);
    let p1 = if h.use_ycocg() { ycocg_forward_planes(p0) } else { p0 };
    if h.inter_channel_delta() { icd_forward(p1, h.spec_plane_bytes()) } else { p1 }
}

/// Channel plane `c` as it goes to the compressor: filtered row by row and,
/// where the header says so, split into hi and lo byte planes.
pub open spec fn encoded_plane(h: MpxHeader, t: Seq<u8>, c: int) -> Seq<u8> {
    let f = filter_plane_rows(
        h.filter_type,
        t,
        h.spec_channel_plane_row_bytes(c as usize),
        h.channel_bps(c as usize) as int,
        h.height as int,
    );
    if h.channel_needs_byte_split(c as usize) { split_bytes(f) } else { f }
}

/// Everything the encoder does before compression.
pub open spec fn spec_encode_planes(h: MpxHeader, px: Seq<u8>) -> Seq<Seq<u8>> {
    let t = transformed_planes(h, px);
    Seq::new(t.len(), |c: int| encoded_plane(h, t[c], c))
}

/// The sizes `encode` computes from the header fit in `usize`: the pixel
/// buffer and one row of pixels.
pub open spec fn sizes_fit(h: MpxHeader) -> bool {
    &&& h.dims_fit()
    &&& h.width * h.channel_count() <= usize::MAX
    &&& h.width * h.channel_count() * h.bytes_per_sample() <= usize::MAX
}

/// The headers whose pipeline can run on a pixel buffer of the right size:
/// samples are one or two bytes (the filter stride) unless the image has no
/// rows, and YCoCg-R has the three color planes it works on, of 8-bit
/// samples unless the image has no pixels.
pub open spec fn runnable(h: MpxHeader) -> bool {
    &&& (h.height == 0 || 1 <= h.bytes_per_sample() <= 2)
    &&& (h.use_ycocg() ==> h.channel_count() >= 3 && (h.bytes_per_sample() == 1 || h.pixel_count() == 0))
}

/// The headers whose whole pipeline `encode` carries out.
pub open spec fn encodable(h: MpxHeader) -> bool {
    &&& sizes_fit(h)
    &&& runnable(h)
}

/// The sizes the encoder computes, and that they fit in `usize`.
proof fn lemma_sizes(h: MpxHeader)
    requires
        encodable(h),
        h.height > 0,
    ensures
        h.pixel_bytes() == h.height * (h.width * h.channel_count() * h.bytes_per_sample()),
        h.pixel_count() * h.bytes_per_sample() == h.spec_plane_bytes(),
        0 <= h.spec_plane_row_bytes() <= usize::MAX,
        0 <= h.spec_plane_bytes() <= usize::MAX,
        h.pixel_count() * h.channel_count() * h.bytes_per_sample() == h.pixel_bytes(),
        0 <= h.pixel_count() <= usize::MAX,
        forall|c: usize| c < h.channel_count() ==> 0 <= #[trigger] h.spec_channel_plane_bytes(c) <= usize::MAX,
        forall|c: usize| c < h.channel_count() ==> 0 <= #[trigger] h.spec_channel_plane_row_bytes(c) <= usize::MAX,
        forall|c: usize| c < h.channel_count() ==> #[trigger] h.spec_channel_plane_row_bytes(c) <= 2 * 0xffff_ffff,
        h.use_ycocg() ==> 2 * h.pixel_count() <= usize::MAX,
        h.height * (h.width * 2) == 2 * h.pixel_count(),
{
    assert(h.height * (h.width * 2) == 2 * (h.width * h.height)) by (nonlinear_arith);
    if h.use_ycocg() {
        let n = h.pixel_count();
        let ch = h.channel_count() as int;
        assert(n * ch * 1 >= 2 * n) by (nonlinear_arith)
            requires ch >= 3, n >= 0;
    }
    let w = h.width as int;
    let hh = h.height as int;
    let ch = h.channel_count() as int;
    let b = h.bytes_per_sample() as int;
    assert(w * hh * ch * b == hh * (w * ch * b)) by (nonlinear_arith);
    assert(w * hh * b == hh * (w * b)) by (nonlinear_arith);
    assert(0 <= w * b <= w * ch * b) by (nonlinear_arith)
        requires w >= 0, ch >= 1, b >= 0;
    assert(0 <= hh * (w * b) <= hh * (w * ch * b)) by (nonlinear_arith)
        requires hh >= 0, 0 <= w * b <= w * ch * b;
    assert(w * hh >= 0) by (nonlinear_arith)
        requires w >= 0, hh >= 0;
    assert(w * hh <= w * hh * ch * b) by (nonlinear_arith)
        requires w * hh >= 0, ch >= 1, b >= 1;
    assert forall|c: usize| c < h.channel_count() implies 0 <= #[trigger] h.spec_channel_plane_bytes(c) <= usize::MAX by {
        h.lemma_channel_sizes_fit(c);
    }
    assert forall|c: usize| c < h.channel_count() implies 0 <= #[trigger] h.spec_channel_plane_row_bytes(c) <= usize::MAX
        && h.spec_channel_plane_row_bytes(c) <= 2 * 0xffff_ffff by {
        let cb = h.channel_bps(c) as int;
        assert(cb <= ch * b) by {
            if h.use_ycocg() && (c == 1 || c == 2) {
                assert(ch >= 2);
                assert(ch * b >= 2) by (nonlinear_arith)
                    requires ch >= 2, b >= 1;
            } else {
                assert(ch * b >= b) by (nonlinear_arith)
                    requires ch >= 1, b >= 0;
            }
        }
        assert(0 <= w * cb <= w * (ch * b)) by (nonlinear_arith)
            requires w >= 0, 0 <= cb <= ch * b;
        assert(w * (ch * b) == w * ch * b) by (nonlinear_arith);
        assert(0 <= w * cb <= 0xffff_ffff * 2) by (nonlinear_arith)
            requires 0 <= w <= 0xffff_ffff, 0 <= cb <= 2;
    }
}

/// Runs the encoder's plane pipeline on raw interleaved pixels: channel
/// deinterleave, the color transform the flags ask for (YCoCg-R, then the
/// inter-channel delta), the spatial filter per channel plane, and the
/// hi/lo byte-plane split. The result is one plane per channel, ready for
/// compression. Fails when `pixels` does not have the size the header implies.
pub fn encode(header: &MpxHeader, pixels: &[u8]) -> (res: Result<Vec<Vec<u8>>, MpxError>)
    requires
        sizes_fit(*header),
        pixels@.len() == header.pixel_bytes() ==> runnable(*header),
    ensures
        pixels@.len() != header.pixel_bytes() ==> res == Err::<Vec<Vec<u8>>, MpxError>(
            MpxError::PixelBufferSize { expected: header.pixel_bytes() as usize, got: pixels@.len() as usize },
        ),
        pixels@.len() == header.pixel_bytes() ==> (res matches Ok(planes) && planes_view(planes@)
            == spec_encode_planes(*header, pixels@)),
{
    proof {
        let w = header.width as int;
        let hh = header.height as int;
        let ch = header.channel_count() as int;
        let b = header.bytes_per_sample() as int;
        assert(w * hh * ch * b == hh * (w * ch * b)) by (nonlinear_arith);
    }
    let w = header.width as usize;
    let h = header.height as usize;
    let channels = header.channel_count();
    let bps = header.bytes_per_sample();
    let plen = pixels.len();
    let row_bytes = w * channels * bps;
    if plen != h * row_bytes {
        return Err(MpxError::PixelBufferSize { expected: h * row_bytes, got: plen });
    }
    assert(encodable(*header));
    if h == 0 || w == 0 {
        return Ok(empty_planes(header, pixels));
    }
    proof {
        lemma_sizes(*header);
    }
    let n = w * h;
    assert(n > 0) by (nonlinear_arith)
        requires n == w * h, w > 0, h > 0;
    assert(n * channels * bps == pixels@.len());
    let ghost px = pixels@;

    // 1. channel deinterleave
    let mut planes = deinterleave_pixels(pixels, n, channels, bps);
    let ghost p0 = planes_view(planes@);
    assert(p0 == deinterleave(px, header.pixel_count(), channels as int, bps as int));

    // 2a. YCoCg-R lossless color transform
    if header.use_ycocg() {
        assert(p0[0].len() == n * bps && p0[1].len() == n * bps && p0[2].len() == n * bps);
        assert(planes@[0]@ == p0[0] && planes@[1]@ == p0[1] && planes@[2]@ == p0[2]);
        let (yp, cop, cgp) = rgb_to_ycocg(&planes[0], &planes[1], &planes[2]);
        planes[0] = yp;
        planes[1] = cop;
        planes[2] = cgp;
        assert(planes_view(planes@) =~= ycocg_forward_planes(p0));
    }
    let ghost p1 = planes_view(planes@);
    assert(p1 == (if header.use_ycocg() { ycocg_forward_planes(p0) } else { p0 }));
    assert forall|c: int| 0 <= c < channels implies #[trigger] planes@[c]@.len() == header.spec_channel_plane_bytes(c as usize) by {
        assert(p0[c].len() == n * bps);
        if header.use_ycocg() {
            assert(bps == 1);
            if c == 1 || c == 2 {
                assert(planes@[c]@.len() == 2 * n);
            } else {
                assert(planes@[c]@.len() == n);
            }
        }
    }

    // 2b. inter-channel delta: G = G - R, B = B - G (original values)
    if header.inter_channel_delta() {
        let m = header.plane_bytes();
        if channels >= 2 {
            let d1 = delta(&planes[1], &planes[0], m);
            if channels >= 3 {
                let d2 = delta(&planes[2], &planes[1], m);
                planes[2] = d2;
            }
            planes[1] = d1;
        }
        assert(planes_view(planes@) =~= icd_forward(p1, header.spec_plane_bytes()));
    }
    let ghost t = planes_view(planes@);
    assert(t == transformed_planes(*header, px));
    assert forall|c: int| 0 <= c < channels implies #[trigger] planes@[c]@.len() == header.spec_channel_plane_bytes(c as usize) by {}

    // 3 + 4. spatial filter and byte-plane split, per channel
    let filter = header.filter_type;
    let mut out: Vec<Vec<u8>> = Vec::new();
    let mut c: usize = 0;
    while c < channels
        invariant
            channels == header.channel_count(),
            encodable(*header),
            header.height > 0,
            h == header.height,
            filter == header.filter_type,
            planes@.len() == channels,
            t == planes_view(planes@),
            forall|c: int| 0 <= c < channels ==> #[trigger] planes@[c]@.len() == header.spec_channel_plane_bytes(c as usize),
            forall|c: usize| c < header.channel_count() ==> 0 <= #[trigger] header.spec_channel_plane_bytes(c) <= usize::MAX,
            forall|c: usize| c < header.channel_count() ==> 0 <= #[trigger] header.spec_channel_plane_row_bytes(c) <= usize::MAX,
            forall|c: usize| c < header.channel_count() ==> #[trigger] header.spec_channel_plane_row_bytes(c) <= 2 * 0xffff_ffff,
            c <= channels,
            out@.len() == c,
            forall|d: int| 0 <= d < c ==> #[trigger] out@[d]@ == encoded_plane(*header, t[d], d),
        decreases channels - c,
    {
        let rb = header.channel_plane_row_bytes(c);
        let stride = header.channel_bps(c);
        let filtered = filter_plane(filter, &planes[c], rb, h, stride);
        assert(t[c as int] == planes@[c as int]@);
        assert(filtered@ == filter_plane_rows(
            header.filter_type,
            t[c as int],
            header.spec_channel_plane_row_bytes(c),
            header.channel_bps(c) as int,
            header.height as int,
        ));
        if header.channel_needs_byte_split(c) {
            assert(filtered@.len() % 2 == 0) by {
                assert(stride == 2);
                assert(header.height * (header.width * 2) == 2 * (header.height * header.width)) by (nonlinear_arith);
            }
            let split = split_byte_planes(&filtered);
            out.push(split);
        } else {
            out.push(filtered);
        }
        c = c + 1;
    }
    assert(planes_view(out@) =~= spec_encode_planes(*header, px));
    Ok(out)
}

/// The planes of an image without pixels: one empty plane per channel.
fn empty_planes(header: &MpxHeader, pixels: &[u8]) -> (planes: Vec<Vec<u8>>)
    requires
        encodable(*header),
        header.height == 0 || header.width == 0,
    ensures
        planes_view(planes@) == spec_encode_planes(*header, pixels@),
{
    let channels = header.channel_count();
    let mut planes: Vec<Vec<u8>> = Vec::new();
    let mut c: usize = 0;
    while c < channels
        invariant
            channels == header.channel_count(),
            c <= channels,
            planes@.len() == c,
            forall|d: int| 0 <= d < c ==> (#[trigger] planes@[d])@ == Seq::<u8>::empty(),
        decreases channels - c,
    {
        planes.push(Vec::new());
        c = c + 1;
    }
    let ghost t = transformed_planes(*header, pixels@);
    assert(t.len() == channels);
    assert forall|c: int| 0 <= c < channels implies encoded_plane(*header, t[c], c) == Seq::<u8>::empty() by {
        let f = filter_plane_rows(
            header.filter_type,
            t[c],
            header.spec_channel_plane_row_bytes(c as usize),
            header.channel_bps(c as usize) as int,
            header.height as int,
        );
        let rb = header.spec_channel_plane_row_bytes(c as usize);
        assert(rb == 0 || header.height == 0) by (nonlinear_arith)
            requires rb == header.width * header.channel_bps(c as usize), header.height == 0 || header.width == 0;
        assert(header.height * rb == 0) by (nonlinear_arith)
            requires rb == 0 || header.height == 0;
        lemma_filter_plane_rows_len(
            header.filter_type, t[c], rb, header.channel_bps(c as usize) as int, header.height as int);
        assert(f =~= Seq::<u8>::empty());
        assert(split_bytes(f) =~= Seq::<u8>::empty());
    }
    assert(planes_view(planes@) =~= spec_encode_planes(*header, pixels@));
    planes
}

// ── Container ───────────────────────────────────────────────────────────────

/// The length field written for a block: its length modulo 2^32.
pub open spec fn block_len_field(len: int) -> u32 {
    (len % 0x1_0000_0000) as u32
}

/// The channel blocks: each block's length as u32 LE, then its bytes.
pub open spec fn blocks_bytes(blocks: Seq<Seq<u8>>) -> Seq<u8>
    decreases blocks.len(),
{
    if blocks.len() == 0 {
        Seq::empty()
    } else {
        let last = blocks.last();
        blocks_bytes(blocks.drop_last()) + le_u32_bytes(block_len_field(last.len() as int)) + last
    }
}

/// The whole file: header, then one block per channel plane.
pub open spec fn container_bytes(h: MpxHeader, blocks: Seq<Seq<u8>>) -> Seq<u8> {
    h.spec_serialize() + blocks_bytes(blocks)
}

/// Writes the file: the 32-byte header followed by, for each compressed
/// plane in order, its length as u32 little-endian and its bytes. (A
/// length of 2^32 or more is written modulo 2^32.)
pub fn encode_container(header: &MpxHeader, compressed: &Vec<Vec<u8>>) -> (out: Vec<u8>)
    ensures
        out@ == container_bytes(*header, planes_view(compressed@)),
{
    let mut out: Vec<u8> = Vec::new();
    let hdr = header.serialize();
    append(&mut out, &hdr);
    assert(out@ =~= header.spec_serialize());
    let n = compressed.len();
    let mut i: usize = 0;
    while i < n
        invariant
            n == compressed@.len(),
            i <= n,
            out@ == header.spec_serialize() + blocks_bytes(planes_view(compressed@).subrange(0, i as int)),
        decreases n - i,
    {
        let block = &compressed[i];
        let len_field = (block.len() as u64 % 0x1_0000_0000) as u32;
        let lb = u32_to_le(len_field);
        append(&mut out, &lb);
        append(&mut out, block.as_slice());
        proof {
            let pv = planes_view(compressed@);
            let s = pv.subrange(0, i + 1);
            assert(s.drop_last() =~= pv.subrange(0, i as int));
            assert(s.last() == block@);
        }
        i = i + 1;
        assert(out@ =~= header.spec_serialize() + blocks_bytes(planes_view(compressed@).subrange(0, i as int)));
    }
    assert(planes_view(compressed@).subrange(0, n as int) =~= planes_view(compressed@));
    out
}

/// Appends the bytes of `src` to `dst`.
fn append(dst: &mut Vec<u8>, src: &[u8])
    ensures
        final(dst)@ == old(dst)@ + src@,
{
    let n = src.len();
    let mut i: usize = 0;
    while i < n
        invariant
            n == src@.len(),
            i <= n,
            dst@ == old(dst)@ + src@.subrange(0, i as int),
        decreases n - i,
    {
        dst.push(src[i]);
        i = i + 1;
        assert(dst@ =~= old(dst)@ + src@.subrange(0, i as int));
    }
    assert(src@.subrange(0, n as int) =~= src@);
}

} // verus!
