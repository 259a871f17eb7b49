//! The round-trip laws of the format: decoding what was encoded gives the
//! header and the pixels back.
use vstd::prelude::*;
use crate::color::{co_plane, cg_plane, delta_plane, lemma_delta_roundtrip, lemma_ycocg_roundtrip, y_plane};
use crate::decode::{icd_inverse, planes_fit, restored_planes, spec_block, spec_decode_planes, unfiltered_plane, ycocg_inverse_planes};
use crate::encode::{blocks_bytes, block_len_field, container_bytes, encodable, encoded_plane, icd_forward, spec_encode_planes, transformed_planes, ycocg_forward_planes};
use crate::filter::{filter_plane_rows, lemma_filter_plane_rows_len, lemma_fixed_filter_rows_decodable, lemma_plane_filter_roundtrip, lemma_solid_plane_adaptive_decodable, rows_decodable, solid_plane};
use crate::header::{le_u32, le_u32_bytes, lemma_le_u32_roundtrip, lemma_parse_serialize, spec_parse_header, FilterType, MpxHeader, HEADER_SIZE};
use crate::{image_header, lemma_flag_bits};
use crate::header::ColorType;
use crate::layout::{deinterleave, lemma_compose, lemma_interleave_deinterleave, lemma_merge_split, merge_bytes, sample_pos, split_bytes};

verus! {

/// The headers whose transforms the decoder reverses: valid and encodable,
/// and not YCoCg-R together with the inter-channel delta (the decoder undoes
/// them in the order the encoder applied them).
pub open spec fn reversible(h: MpxHeader) -> bool {
    &&& h.valid()
    &&& encodable(h)
    &&& !(h.use_ycocg() && h.inter_channel_delta())
}

/// The decoder can undo the spatial filter on every channel plane of `px`:
/// on every row the encoder's filter leaves the residuals the decoder's
/// filter expects. Adaptive stores no per-row choice and is undone as Paeth,
/// so for Adaptive this asks that the heuristic's pick filter every row as
/// Paeth does (as on a solid image); every other filter meets it.
pub open spec fn planes_decodable(h: MpxHeader, px: Seq<u8>) -> bool {
    forall|c: int| 0 <= c < h.channel_count() ==> #[trigger] rows_decodable(
        h.filter_type,
        transformed_planes(h, px)[c],
        h.spec_channel_plane_row_bytes(c as usize),
        h.channel_bps(c as usize) as int,
        h.height as int,
    )
}

/// Every filter but Adaptive can be undone on any pixels.
pub proof fn lemma_fixed_filter_decodable(h: MpxHeader, px: Seq<u8>)
    requires
        h.filter_type != FilterType::Adaptive,
    ensures
        planes_decodable(h, px),
{
    assert forall|c: int| 0 <= c < h.channel_count() implies #[trigger] rows_decodable(
        h.filter_type,
        transformed_planes(h, px)[c],
        h.spec_channel_plane_row_bytes(c as usize),
        h.channel_bps(c as usize) as int,
        h.height as int,
    ) by {
        lemma_fixed_filter_rows_decodable(
            h.filter_type,
            transformed_planes(h, px)[c],
            h.spec_channel_plane_row_bytes(c as usize),
            h.channel_bps(c as usize) as int,
            h.height as int,
        );
    }
}

/// Lengths of the color-transformed planes.
proof fn lemma_transformed_lengths(h: MpxHeader, px: Seq<u8>)
    requires
        h.valid(),
        encodable(h),
        px.len() == h.pixel_bytes(),
    ensures
        transformed_planes(h, px).len() == h.channel_count(),
        forall|c: int| 0 <= c < h.channel_count() ==> (#[trigger] transformed_planes(h, px)[c]).len()
            == h.height * h.spec_channel_plane_row_bytes(c as usize),
{
    let n = h.pixel_count();
    let b = h.bytes_per_sample() as int;
    assert(h.height * (h.width * b) == n * b) by (nonlinear_arith)
        requires n == h.width * h.height;
    assert(h.height * (h.width * 2) == 2 * n) by (nonlinear_arith)
        requires n == h.width * h.height;
    assert(h.height * (h.width * 1) == n) by (nonlinear_arith)
        requires n == h.width * h.height;
    let p0 = deinterleave(px, n, h.channel_count() as int, b);
    assert forall|c: int| 0 <= c < h.channel_count() implies (#[trigger] transformed_planes(h, px)[c]).len()
        == h.height * h.spec_channel_plane_row_bytes(c as usize) by {
        assert(p0[c].len() == n * b);
    }
}

/// One channel: the decoder's merge and inverse filter undo the encoder's
/// filter and split.
proof fn lemma_channel_roundtrip(h: MpxHeader, px: Seq<u8>, c: int)
    requires
        reversible(h),
        planes_decodable(h, px),
        px.len() == h.pixel_bytes(),
        0 <= c < h.channel_count(),
    ensures
        ({
            let t = transformed_planes(h, px);
            let e = encoded_plane(h, t[c], c);
            &&& e.len() == h.spec_channel_plane_bytes(c as usize)
            &&& unfiltered_plane(h, e, c) == t[c]
        }),
{
    let t = transformed_planes(h, px);
    lemma_transformed_lengths(h, px);
    let rb = h.spec_channel_plane_row_bytes(c as usize);
    let stride = h.channel_bps(c as usize) as int;
    assert(rb >= 0) by (nonlinear_arith)
        requires rb == h.width * h.channel_bps(c as usize);
    assert(rows_decodable(h.filter_type, t[c], rb, stride, h.height as int));
    let f = filter_plane_rows(h.filter_type, t[c], rb, stride, h.height as int);
    lemma_filter_plane_rows_len(h.filter_type, t[c], rb, stride, h.height as int);
    lemma_plane_filter_roundtrip(h.filter_type, t[c], rb, h.height as int, stride);
    if h.channel_needs_byte_split(c as usize) {
        assert(stride == 2);
        assert(h.height * (h.width * 2) == 2 * (h.height * h.width)) by (nonlinear_arith);
        lemma_merge_split(f);
    }
}

/// The inverse color transforms undo the forward ones.
proof fn lemma_color_roundtrip(h: MpxHeader, px: Seq<u8>)
    requires
        reversible(h),
        px.len() == h.pixel_bytes(),
    ensures
        ({
            let t = transformed_planes(h, px);
            let p0 = deinterleave(px, h.pixel_count(), h.channel_count() as int, h.bytes_per_sample() as int);
            let p2 = if h.use_ycocg() { ycocg_inverse_planes(t) } else { t };
            let p3 = if h.inter_channel_delta() { icd_inverse(p2, h.spec_plane_bytes()) } else { p2 };
            p3 == p0
        }),
{
    let n = h.pixel_count();
    let ch = h.channel_count() as int;
    let b = h.bytes_per_sample() as int;
    let p0 = deinterleave(px, n, ch, b);
    assert(h.height * (h.width * b) == n * b) by (nonlinear_arith)
        requires n == h.width * h.height;
    if h.use_ycocg() {
        assert(n > 0) by (nonlinear_arith)
            requires n == h.width * h.height, h.width > 0, h.height > 0;
        assert(b == 1);
        assert(p0[0].len() == n && p0[1].len() == n && p0[2].len() == n);
        lemma_ycocg_roundtrip(p0[0], p0[1], p0[2]);
        assert(ycocg_inverse_planes(ycocg_forward_planes(p0)) =~= p0);
    } else if h.inter_channel_delta() {
        let m = h.spec_plane_bytes();
        assert(forall|c: int| 0 <= c < ch ==> (#[trigger] p0[c]).len() == m);
        let fwd = icd_forward(p0, m);
        if ch >= 2 {
            lemma_delta_roundtrip(p0[1], p0[0], m);
        }
        if ch >= 3 {
            lemma_delta_roundtrip(p0[2], p0[1], m);
        }
        assert(icd_inverse(fwd, m) =~= p0);
    }
}

/// Decoding the planes the encoder produced gives the pixels back, and the
/// planes have the sizes the decoder checks for.
pub proof fn law_planes_roundtrip(h: MpxHeader, px: Seq<u8>)
    requires
        reversible(h),
        planes_decodable(h, px),
        px.len() == h.pixel_bytes(),
    ensures
        planes_fit(h, spec_encode_planes(h, px)),
        spec_decode_planes(h, spec_encode_planes(h, px)) == px,
{
    let n = h.pixel_count();
    let ch = h.channel_count() as int;
    let b = h.bytes_per_sample() as int;
    let e = spec_encode_planes(h, px);
    let t = transformed_planes(h, px);
    lemma_transformed_lengths(h, px);
    assert forall|c: int| 0 <= c < ch implies {
        &&& (#[trigger] e[c]).len() == h.spec_channel_plane_bytes(c as usize)
        &&& unfiltered_plane(h, e[c], c) == t[c]
    } by {
        lemma_channel_roundtrip(h, px, c);
    }
    let p1 = Seq::new(e.len(), |c: int| unfiltered_plane(h, e[c], c));
    assert(p1 =~= t);
    lemma_color_roundtrip(h, px);
    assert(restored_planes(h, e) == deinterleave(px, n, ch, b));
    lemma_interleave_deinterleave(px, n, ch, b);
}

// ── Solid images ────────────────────────────────────────────────────────────

/// An image whose pixels are all the same: every byte equals the byte at the
/// same position of the first pixel (`pixel_size` bytes long).
pub open spec fn solid_pixels(px: Seq<u8>, pixel_size: int) -> bool {
    forall|i: int| 0 <= i < px.len() ==> #[trigger] px[i] == px[i % pixel_size]
}

/// The channel planes of a solid image are solid.
proof fn lemma_solid_deinterleave(px: Seq<u8>, n: int, ch: int, b: int, c: int)
    requires
        px.len() == n * ch * b,
        n >= 0,
        ch >= 1,
        b >= 1,
        0 <= c < ch,
        solid_pixels(px, ch * b),
    ensures
        solid_plane(deinterleave(px, n, ch, b)[c], b),
{
    let plane = deinterleave(px, n, ch, b)[c];
    assert forall|j: int| 0 <= j < plane.len() implies #[trigger] plane[j] == plane[j % b] by {
        let p = j / b;
        let k = j % b;
        vstd::arithmetic::div_mod::lemma_fundamental_div_mod(j, b);
        vstd::arithmetic::div_mod::lemma_mod_pos_bound(j, b);
        assert(0 <= p < n) by (nonlinear_arith)
            requires j == b * p + k, 0 <= k < b, 0 <= j < n * b, b >= 1;
        lemma_compose(p, c, k, n, ch, b);
        lemma_compose(0, c, k, n, ch, b);
        vstd::arithmetic::div_mod::lemma_fundamental_div_mod_converse(k, b, 0, k);
        assert(plane[j] == px[sample_pos(p, c, k, ch, b)]);
        assert(plane[k] == px[sample_pos(0, c, k, ch, b)]);
        let s = sample_pos(p, c, k, ch, b);
        let s0 = sample_pos(0, c, k, ch, b);
        assert(s0 == c * b + k);
        assert(0 <= c * b + k < ch * b) by (nonlinear_arith)
            requires 0 <= c < ch, 0 <= k < b;
        assert(s == (ch * b) * p + (c * b + k)) by (nonlinear_arith)
            requires s == (p * ch + c) * b + k;
        vstd::arithmetic::div_mod::lemma_fundamental_div_mod_converse(s, ch * b, p, c * b + k);
        vstd::arithmetic::div_mod::lemma_fundamental_div_mod_converse(s0, ch * b, 0, c * b + k);
        assert(px[s] == px[s % (ch * b)]);
    }
}

/// The YCoCg-R planes of solid 8-bit planes are solid: Y one byte per
/// sample, Co and Cg two.
proof fn lemma_solid_ycocg(r: Seq<u8>, g: Seq<u8>, b: Seq<u8>)
    requires
        r.len() == g.len(),
        r.len() == b.len(),
        solid_plane(r, 1),
        solid_plane(g, 1),
        solid_plane(b, 1),
    ensures
        solid_plane(y_plane(r, g, b), 1),
        solid_plane(co_plane(r, g, b), 2),
        solid_plane(cg_plane(r, g, b), 2),
{
    assert forall|i: int| 0 <= i < r.len() implies #[trigger] r[i] == r[0] && g[i] == g[0] && b[i] == b[0] by {
        assert(i % 1 == 0);
        assert(r[i] == r[i % 1] && g[i] == g[i % 1] && b[i] == b[i % 1]);
    }
    let y = y_plane(r, g, b);
    let co = co_plane(r, g, b);
    let cg = cg_plane(r, g, b);
    assert forall|i: int| 0 <= i < y.len() implies #[trigger] y[i] == y[i % 1] by {
        assert(i % 1 == 0);
        assert(r[i] == r[0] && g[i] == g[0] && b[i] == b[0]);
    }
    assert forall|j: int| 0 <= j < co.len() implies #[trigger] co[j] == co[j % 2] && cg[j] == cg[j % 2] by {
        let i = j / 2;
        assert(0 <= i < r.len());
        assert(r[i] == r[0] && g[i] == g[0] && b[i] == b[0]);
        assert((j % 2) / 2 == 0 && (j % 2) % 2 == j % 2);
    }
}

/// The inter-channel delta of solid planes is solid.
proof fn lemma_solid_delta(cur: Seq<u8>, prev: Seq<u8>, m: int, b: int)
    requires
        b >= 1,
        cur.len() == m,
        prev.len() == m,
        solid_plane(cur, b),
        solid_plane(prev, b),
    ensures
        solid_plane(delta_plane(cur, prev, m), b),
{
    let d = delta_plane(cur, prev, m);
    assert forall|i: int| 0 <= i < d.len() implies #[trigger] d[i] == d[i % b] by {
        vstd::arithmetic::div_mod::lemma_mod_pos_bound(i, b);
        assert(i % b <= i) by {
            vstd::arithmetic::div_mod::lemma_fundamental_div_mod(i, b);
            assert(b * (i / b) >= 0) by (nonlinear_arith)
                requires b >= 1, i >= 0, i / b >= 0;
            vstd::arithmetic::div_mod::lemma_div_pos_is_pos(i, b);
        }
        assert(cur[i] == cur[i % b] && prev[i] == prev[i % b]);
    }
}

/// Every channel plane of a solid image is solid, whatever the color
/// transform, so Adaptive's per-row picks can all be undone.
pub proof fn lemma_solid_image_decodable(h: MpxHeader, px: Seq<u8>)
    requires
        reversible(h),
        px.len() == h.pixel_bytes(),
        solid_pixels(px, h.channel_count() * h.bytes_per_sample()),
    ensures
        planes_decodable(h, px),
{
    let n = h.pixel_count();
    let ch = h.channel_count() as int;
    let b = h.bytes_per_sample() as int;
    let m = h.spec_plane_bytes();
    let p0 = deinterleave(px, n, ch, b);
    let t = transformed_planes(h, px);
    lemma_transformed_lengths(h, px);
    assert(n >= 0) by (nonlinear_arith)
        requires n == h.width * h.height;
    assert(h.height * (h.width * b) == n * b) by (nonlinear_arith)
        requires n == h.width * h.height;
    assert forall|c: int| 0 <= c < ch implies solid_plane(#[trigger] p0[c], b) by {
        lemma_solid_deinterleave(px, n, ch, b, c);
    }
    let p1 = if h.use_ycocg() { ycocg_forward_planes(p0) } else { p0 };
    assert forall|c: int| 0 <= c < ch implies solid_plane(#[trigger] p1[c], h.channel_bps(c as usize) as int) by {
        if h.use_ycocg() {
            assert(n > 0) by (nonlinear_arith)
                requires n == h.width * h.height, h.width > 0, h.height > 0;
            assert(b == 1);
            lemma_solid_ycocg(p0[0], p0[1], p0[2]);
        }
    }
    assert forall|c: int| 0 <= c < ch implies solid_plane(#[trigger] t[c], h.channel_bps(c as usize) as int) by {
        if h.inter_channel_delta() {
            assert(!h.use_ycocg());
            if 1 <= c < 3 {
                assert(p0[c].len() == n * b && p0[c - 1].len() == n * b);
                assert(p1[c].len() == m && p1[c - 1].len() == m);
                lemma_solid_delta(p1[c], p1[c - 1], m, b);
            }
        }
    }
    assert forall|c: int| 0 <= c < ch implies #[trigger] rows_decodable(
        h.filter_type,
        transformed_planes(h, px)[c],
        h.spec_channel_plane_row_bytes(c as usize),
        h.channel_bps(c as usize) as int,
        h.height as int,
    ) by {
        let cb = h.channel_bps(c as usize) as int;
        let rb = h.spec_channel_plane_row_bytes(c as usize);
        assert(rb == cb * h.width) by (nonlinear_arith)
            requires rb == h.width * cb;
        vstd::arithmetic::div_mod::lemma_mod_multiples_vanish(h.width as int, 0, cb);
        assert(0int % cb == 0);
        assert(rb >= 0) by (nonlinear_arith)
            requires rb == h.width * cb, cb >= 1;
        if h.filter_type == FilterType::Adaptive {
            lemma_solid_plane_adaptive_decodable(t[c], rb, cb, h.height as int);
        } else {
            lemma_fixed_filter_rows_decodable(h.filter_type, t[c], rb, cb, h.height as int);
        }
    }
}

// ── Container ───────────────────────────────────────────────────────────────

/// Where block `c` starts in a container of `blocks`.
pub open spec fn block_start(blocks: Seq<Seq<u8>>, c: int) -> int {
    HEADER_SIZE + blocks_bytes(blocks.take(c)).len()
}

/// The bytes of the first `k` blocks are a prefix of the bytes of all blocks.
proof fn lemma_blocks_prefix(blocks: Seq<Seq<u8>>, k: int)
    requires
        0 <= k <= blocks.len(),
    ensures
        blocks_bytes(blocks.take(k)).len() <= blocks_bytes(blocks).len(),
        blocks_bytes(blocks).subrange(0, blocks_bytes(blocks.take(k)).len() as int) == blocks_bytes(blocks.take(k)),
    decreases blocks.len(),
{
    if k == blocks.len() {
        assert(blocks.take(k) =~= blocks);
    } else {
        let d = blocks.drop_last();
        assert(d.take(k) =~= blocks.take(k));
        lemma_blocks_prefix(d, k);
        let bd = blocks_bytes(d);
        let bk = blocks_bytes(blocks.take(k));
        assert(blocks_bytes(blocks).subrange(0, bk.len() as int) =~= bd.subrange(0, bk.len() as int));
    }
}

/// One more block: its length field and bytes follow the earlier blocks.
proof fn lemma_blocks_step(blocks: Seq<Seq<u8>>, c: int)
    requires
        0 <= c < blocks.len(),
    ensures
        blocks_bytes(blocks.take(c + 1)) == blocks_bytes(blocks.take(c)) + le_u32_bytes(
            block_len_field(blocks[c].len() as int),
        ) + blocks[c],
{
    let s = blocks.take(c + 1);
    assert(s.drop_last() =~= blocks.take(c));
    assert(s.last() == blocks[c]);
}

/// Block `c` of a container is found where the decoder looks for it.
proof fn lemma_block_found(hs: Seq<u8>, blocks: Seq<Seq<u8>>, c: int)
    requires
        hs.len() == HEADER_SIZE,
        0 <= c < blocks.len(),
        blocks[c].len() <= u32::MAX,
    ensures
        block_start(blocks, c + 1) == block_start(blocks, c) + 4 + blocks[c].len(),
        spec_block(hs + blocks_bytes(blocks), block_start(blocks, c), c)
            == Ok::<(int, int), crate::error::MpxError>((block_start(blocks, c) + 4, block_start(blocks, c + 1))),
        (hs + blocks_bytes(blocks)).subrange(block_start(blocks, c) + 4, block_start(blocks, c + 1)) == blocks[c],
        ({
            let d = hs + blocks_bytes(blocks);
            let s = block_start(blocks, c);
            d[s] + 256 * d[s + 1] + 65536 * d[s + 2] + 16777216 * d[s + 3] == blocks[c].len()
        }),
{
    let data = hs + blocks_bytes(blocks);
    let len = blocks[c].len() as int;
    let field = block_len_field(len);
    assert(field == len);
    lemma_blocks_step(blocks, c);
    lemma_blocks_prefix(blocks, c + 1);
    let pre = blocks_bytes(blocks.take(c));
    let pre1 = blocks_bytes(blocks.take(c + 1));
    let all = blocks_bytes(blocks);
    let start = block_start(blocks, c);
    let lb = le_u32_bytes(field);
    assert(pre1 == pre + lb + blocks[c]);
    assert forall|i: int| 0 <= i < pre1.len() implies data[HEADER_SIZE + i] == #[trigger] pre1[i] by {
        assert(data[HEADER_SIZE + i] == all[i]);
        assert(all.subrange(0, pre1.len() as int)[i] == all[i]);
    }
    assert(data[start] == pre1[pre.len() as int + 0]);
    assert(data[start + 1] == pre1[pre.len() as int + 1]);
    assert(data[start + 2] == pre1[pre.len() as int + 2]);
    assert(data[start + 3] == pre1[pre.len() as int + 3]);
    assert(data[start] == lb[0]);
    assert(data[start + 1] == lb[1]);
    assert(data[start + 2] == lb[2]);
    assert(data[start + 3] == lb[3]);
    lemma_le_u32_roundtrip(field);
    assert(le_u32(data[start], data[start + 1], data[start + 2], data[start + 3]) == len);
    assert(data.len() >= HEADER_SIZE + pre1.len());
    assert(data.subrange(start + 4, start + 4 + len) =~= blocks[c]) by {
        assert forall|i: int| 0 <= i < len implies data.subrange(start + 4, start + 4 + len)[i] == blocks[c][i] by {
            assert(data[start + 4 + i] == pre1[pre.len() as int + 4 + i]);
        }
    }
}

/// Reading a container back: the header parses to the one written, and
/// every block is found where the decoder looks for it and holds the bytes
/// written, provided each block's length fits in the u32 length field.
pub proof fn law_container_roundtrip(h: MpxHeader, blocks: Seq<Seq<u8>>)
    requires
        h.valid(),
        forall|c: int| 0 <= c < blocks.len() ==> (#[trigger] blocks[c]).len() <= u32::MAX,
    ensures
        spec_parse_header(container_bytes(h, blocks)) == Ok::<MpxHeader, crate::error::MpxError>(h),
        block_start(blocks, 0) == HEADER_SIZE,
        block_start(blocks, 0) == 32,
        container_bytes(h, blocks).subrange(0, 32) == h.spec_serialize(),
        container_bytes(h, blocks).len() == block_start(blocks, blocks.len() as int),
        forall|c: int| #![trigger blocks[c]] 0 <= c < blocks.len() ==> {
            let d = container_bytes(h, blocks);
            let s = block_start(blocks, c);
            d[s] + 256 * d[s + 1] + 65536 * d[s + 2] + 16777216 * d[s + 3] == blocks[c].len()
        },
        forall|c: int| #![trigger blocks[c]] 0 <= c < blocks.len() ==> {
            &&& block_start(blocks, c + 1) == block_start(blocks, c) + 4 + blocks[c].len()
            &&& spec_block(container_bytes(h, blocks), block_start(blocks, c), c)
                == Ok::<(int, int), crate::error::MpxError>((block_start(blocks, c) + 4, block_start(blocks, c + 1)))
            &&& container_bytes(h, blocks).subrange(block_start(blocks, c) + 4, block_start(blocks, c + 1)) == blocks[c]
        },
{
    let hs = h.spec_serialize();
    let data = container_bytes(h, blocks);
    assert(data == hs + blocks_bytes(blocks));
    assert(hs.len() == HEADER_SIZE);
    assert(spec_parse_header(data) == spec_parse_header(hs)) by {
        assert(data.subrange(0, 4) =~= hs.subrange(0, 4));
        assert forall|i: int| 0 <= i < 32 implies data[i] == hs[i] by {}
    }
    lemma_parse_serialize(h);
    assert(blocks.take(0) =~= Seq::<Seq<u8>>::empty());
    assert forall|c: int| #![trigger blocks[c]] 0 <= c < blocks.len() implies {
        &&& block_start(blocks, c + 1) == block_start(blocks, c) + 4 + blocks[c].len()
        &&& spec_block(data, block_start(blocks, c), c)
            == Ok::<(int, int), crate::error::MpxError>((block_start(blocks, c) + 4, block_start(blocks, c + 1)))
        &&& data.subrange(block_start(blocks, c) + 4, block_start(blocks, c + 1)) == blocks[c]
    } by {
        lemma_block_found(hs, blocks, c);
    }
    assert forall|c: int| #![trigger blocks[c]] 0 <= c < blocks.len() implies {
        let s = block_start(blocks, c);
        data[s] + 256 * data[s + 1] + 65536 * data[s + 2] + 16777216 * data[s + 3] == blocks[c].len()
    } by {
        lemma_block_found(hs, blocks, c);
    }
    assert(data.subrange(0, 32) =~= hs);
    assert(blocks.take(blocks.len() as int) =~= blocks);
}

// ── Whole files ─────────────────────────────────────────────────────────────

/// The file written for header `h` and pixels `px` when every plane is
/// compressed with `compress`.
pub open spec fn encode_file_with(h: MpxHeader, px: Seq<u8>, compress: spec_fn(Seq<u8>) -> Seq<u8>) -> Seq<u8> {
    let planes = spec_encode_planes(h, px);
    container_bytes(h, Seq::new(planes.len(), |c: int| compress(planes[c])))
}

/// The `Decoder` loop from the block at `cursor` on, with `planes` already
/// accepted, when every block is decompressed with `decompress` (`None`
/// standing for a failed decompression): `None` if any step fails.
pub open spec fn decode_blocks_with(
    h: MpxHeader,
    data: Seq<u8>,
    decompress: spec_fn(Seq<u8>) -> Option<Seq<u8>>,
    cursor: int,
    planes: Seq<Seq<u8>>,
) -> Option<Seq<Seq<u8>>>
    decreases h.channel_count() - planes.len(),
{
    if planes.len() >= h.channel_count() {
        Some(planes)
    } else {
        match spec_block(data, cursor, planes.len() as int) {
            Err(_) => None,
            Ok((start, end)) => match decompress(data.subrange(start, end)) {
                None => None,
                Some(p) => if p.len() != h.spec_channel_plane_bytes(planes.len() as usize) {
                    None
                } else {
                    decode_blocks_with(h, data, decompress, end, planes.push(p))
                },
            },
        }
    }
}

/// What decoding a whole file amounts to when every block is decompressed
/// with `decompress`: the header and the pixels, or `None` on any error.
pub open spec fn decode_file_with(data: Seq<u8>, decompress: spec_fn(Seq<u8>) -> Option<Seq<u8>>) -> Option<(MpxHeader, Seq<u8>)> {
    match spec_parse_header(data) {
        Err(_) => None,
        Ok(h) => match decode_blocks_with(h, data, decompress, HEADER_SIZE as int, Seq::empty()) {
            None => None,
            Some(planes) => Some((h, spec_decode_planes(h, planes))),
        },
    }
}

#[verifier::rlimit(80)]
proof fn lemma_decode_blocks_from(
    h: MpxHeader,
    data: Seq<u8>,
    e: Seq<Seq<u8>>,
    blocks: Seq<Seq<u8>>,
    decompress: spec_fn(Seq<u8>) -> Option<Seq<u8>>,
    k: int,
)
    requires
        planes_fit(h, e),
        blocks.len() == e.len(),
        0 <= k <= e.len(),
        forall|c: int| 0 <= c < blocks.len() ==> decompress(#[trigger] blocks[c]) == Some(e[c]),
        forall|c: int| #![trigger blocks[c]] 0 <= c < blocks.len() ==> {
            &&& spec_block(data, block_start(blocks, c), c)
                == Ok::<(int, int), crate::error::MpxError>((block_start(blocks, c) + 4, block_start(blocks, c + 1)))
            &&& data.subrange(block_start(blocks, c) + 4, block_start(blocks, c + 1)) == blocks[c]
        },
    ensures
        decode_blocks_with(h, data, decompress, block_start(blocks, k), e.take(k)) == Some(e),
    decreases e.len() - k,
{
    if k == e.len() {
        assert(e.take(k) =~= e);
    } else {
        assert(blocks[k] == blocks[k]);
        assert(e.take(k).push(e[k]) =~= e.take(k + 1));
        assert(e.take(k).len() == k);
        assert(e[k].len() == h.spec_channel_plane_bytes(k as usize));
        lemma_decode_blocks_from(h, data, e, blocks, decompress, k + 1);
        assert(decode_blocks_with(h, data, decompress, block_start(blocks, k), e.take(k))
            == decode_blocks_with(h, data, decompress, block_start(blocks, k + 1), e.take(k + 1)));
    }
}

/// With a lossless codec, decoding the file written for `h` and `px` gives
/// `h` and `px` back (for headers whose planes the decoder can reverse, and
/// compressed planes whose lengths fit the u32 length field).
#[verifier::rlimit(60)]
pub proof fn law_file_roundtrip(
    h: MpxHeader,
    px: Seq<u8>,
    compress: spec_fn(Seq<u8>) -> Seq<u8>,
    decompress: spec_fn(Seq<u8>) -> Option<Seq<u8>>,
)
    requires
        reversible(h),
        planes_decodable(h, px),
        px.len() == h.pixel_bytes(),
        forall|x: Seq<u8>| #[trigger] decompress(compress(x)) == Some(x),
        forall|c: int| 0 <= c < h.channel_count() ==> (#[trigger] compress(spec_encode_planes(h, px)[c])).len() <= u32::MAX,
    ensures
        decode_file_with(encode_file_with(h, px, compress), decompress) == Some((h, px)),
{
    let e = spec_encode_planes(h, px);
    law_planes_roundtrip(h, px);
    let blocks = Seq::new(e.len(), |c: int| compress(e[c]));
    assert forall|c: int| 0 <= c < blocks.len() implies (#[trigger] blocks[c]).len() <= u32::MAX by {
        assert(compress(e[c]).len() <= u32::MAX);
    }
    assert forall|c: int| 0 <= c < blocks.len() implies decompress(#[trigger] blocks[c]) == Some(e[c]) by {
        assert(decompress(compress(e[c])) == Some(e[c]));
    }
    law_container_roundtrip(h, blocks);
    lemma_decode_blocks_from(h, container_bytes(h, blocks), e, blocks, decompress, 0);
    assert(e.take(0) =~= Seq::<Seq<u8>>::empty());
}

/// The central promise of the format: every image `encode_image` accepts
/// (nonzero dimensions, 8 or 16 bits) decodes to exactly its header and
/// pixels, whichever color transform the compressibility estimate picked,
/// given a lossless codec whose output for each plane fits the u32 length
/// field; with Adaptive, on solid images and on every other image where its
/// per-row pick filters every row as Paeth does.
pub proof fn law_image_roundtrip(
    width: u32,
    height: u32,
    color_type: ColorType,
    bit_depth: u8,
    filter: FilterType,
    px: Seq<u8>,
    likely_compressible: bool,
    compress: spec_fn(Seq<u8>) -> Seq<u8>,
    decompress: spec_fn(Seq<u8>) -> Option<Seq<u8>>,
)
    requires
        width > 0,
        height > 0,
        bit_depth == 8 || bit_depth == 16,
        filter == FilterType::Adaptive ==> solid_pixels(px, color_type.channel_count() * (bit_depth / 8))
            || planes_decodable(image_header(width, height, color_type, bit_depth, filter, likely_compressible), px),
        width * height * color_type.channel_count() * (bit_depth / 8) <= usize::MAX,
        px.len() == width * height * color_type.channel_count() * (bit_depth / 8),
        forall|x: Seq<u8>| #[trigger] decompress(compress(x)) == Some(x),
        forall|c: int| 0 <= c < color_type.channel_count() ==> (#[trigger] compress(
            spec_encode_planes(image_header(width, height, color_type, bit_depth, filter, likely_compressible), px)[c],
        )).len() <= u32::MAX,
    ensures
        ({
            let h = image_header(width, height, color_type, bit_depth, filter, likely_compressible);
            decode_file_with(encode_file_with(h, px, compress), decompress) == Some((h, px))
        }),
{
    let h = image_header(width, height, color_type, bit_depth, filter, likely_compressible);
    lemma_flag_bits(h.flags);
    let w = width as int;
    let hh = height as int;
    let c = color_type.channel_count() as int;
    let b = (bit_depth / 8) as int;
    assert(w * c * b <= w * hh * c * b) by (nonlinear_arith)
        requires w >= 0, hh >= 1, c >= 1, b >= 1;
    assert(w * c <= w * c * b) by (nonlinear_arith)
        requires w >= 0, c >= 1, b >= 1;
    assert(reversible(h));
    if filter != FilterType::Adaptive {
        lemma_fixed_filter_decodable(h, px);
    } else if !planes_decodable(h, px) {
        lemma_solid_image_decodable(h, px);
    }
    law_file_roundtrip(h, px, compress, decompress);
}

} // verus!
