//! The decoder: reading the block container one channel at a time, and the
//! plane pipeline that turns decompressed planes back into pixels.
use vstd::prelude::*;
use crate::color::{b_plane, g_plane, r_plane, undelta, undelta_plane, ycocg_to_rgb};
use crate::error::MpxError;
use crate::filter::{byte_add, unfilter_plane, unfilter_plane_rows};
use crate::header::{le_u32, spec_parse_header, u32_from_le, MpxHeader, HEADER_SIZE};
use crate::layout::{interleave, interleave_planes, merge_byte_planes, merge_bytes, planes_view};

verus! {

/// The YCoCg-R inverse transform of the first three planes (Y, Co, Cg become
/// R, G, B); any further plane (alpha) is kept.
pub open spec fn ycocg_inverse_planes(p: Seq<Seq<u8>>) -> Seq<Seq<u8>> {
    p.update(0, r_plane(p[0], p[1], p[2])).update(1, g_plane(p[0], p[1], p[2])).update(
        2,
        b_plane(p[0], p[1], p[2]),
    )
}

/// Undoing the inter-channel delta over the first `m` bytes, in channel
/// order: plane 1 plus plane 0, then plane 2 plus the restored plane 1.
pub open spec fn icd_inverse(p: Seq<Seq<u8>>, m: int) -> Seq<Seq<u8>> {
    let q = if p.len() >= 2 { p.update(1, undelta_plane(p[1], p[0], m)) } else { p };
    if q.len() >= 3 { q.update(2, undelta_plane(q[2], q[1], m)) } else { q }
}

/// Undoing the inter-channel delta adds back, modulo 256 and over the first
/// `m` bytes, plane 0 to plane 1 and then the restored plane 1 to plane 2;
/// plane 0 and every plane after the third (alpha) pass through unchanged.
pub proof fn law_icd_inverse(p: Seq<Seq<u8>>, m: int)
    ensures
        icd_inverse(p, m).len() == p.len(),
        forall|c: int| 0 <= c < p.len() ==> (#[trigger] icd_inverse(p, m)[c]).len() == p[c].len(),
        forall|c: int, i: int| 0 <= c < p.len() && 0 <= i < p[c].len() ==> #[trigger] icd_inverse(p, m)[c][i] as int
            == if (c == 1 || c == 2) && i < m {
                (p[c][i] + icd_inverse(p, m)[c - 1][i]) % 256
            } else {
                p[c][i] as int
            },
{
    let q = icd_inverse(p, m);
    assert forall|c: int, i: int| 0 <= c < p.len() && 0 <= i < p[c].len() implies #[trigger] q[c][i] as int
        == if (c == 1 || c == 2) && i < m { (p[c][i] + q[c - 1][i]) % 256 } else { p[c][i] as int } by {
        if (c == 1 || c == 2) && i < m {
            assert(q[c][i] == byte_add(p[c][i], q[c - 1][i]));
        }
    }
}

/// The inverse color transforms touch only the first three planes: the
/// alpha plane comes out of the inverse filter as it is.
pub proof fn law_restore_keeps_alpha(h: MpxHeader, planes: Seq<Seq<u8>>, c: int)
    requires
        3 <= c < planes.len(),
    ensures
        restored_planes(h, planes)[c] == unfiltered_plane(h, planes[c], c),
{
}

/// What the decoder does to each decompressed plane, in order: merges the
/// hi/lo byte planes where the header says so, undoes the filter row by row
/// (rows `width` samples of the channel's sample size long), then undoes
/// YCoCg-R (Y, Co, Cg back to R, G, B) and after it the inter-channel delta;
/// the pixels interleave the restored planes.
pub proof fn law_decode_pipeline(h: MpxHeader, planes: Seq<Seq<u8>>, c: int)
    requires
        0 <= c < planes.len(),
    ensures
        ({
            let cb = h.channel_bps(c as usize) as int;
            let q = if h.channel_needs_byte_split(c as usize) { merge_bytes(planes[c]) } else { planes[c] };
            unfiltered_plane(h, planes[c], c) == unfilter_plane_rows(h.filter_type, q, h.width * cb, cb, h.height as int)
        }),
        ({
            let p1 = Seq::new(planes.len(), |d: int| unfiltered_plane(h, planes[d], d));
            let r = restored_planes(h, planes);
            &&& h.use_ycocg() && !h.inter_channel_delta() && planes.len() >= 3 ==> r[c] == (if c == 0 {
                r_plane(p1[0], p1[1], p1[2])
            } else if c == 1 {
                g_plane(p1[0], p1[1], p1[2])
            } else if c == 2 {
                b_plane(p1[0], p1[1], p1[2])
            } else {
                p1[c]
            })
            &&& !h.use_ycocg() && !h.inter_channel_delta() ==> r[c] == p1[c]
            &&& !h.use_ycocg() && h.inter_channel_delta() ==> r[c] == icd_inverse(p1, h.width * h.height * (h.bit_depth / 8))[c]
        }),
        spec_decode_planes(h, planes) == interleave(
            restored_planes(h, planes),
            h.width * h.height,
            h.color_type.to_u8() + 1,
            (h.bit_depth / 8) as int,
        ),
{
    assert(h.width * h.height * (h.bit_depth / 8) == h.spec_plane_bytes()) by (nonlinear_arith)
        requires h.spec_plane_bytes() == h.height * (h.width * (h.bit_depth / 8) as usize);
}

/// Channel plane `c` after the byte-plane merge and the filter's inverse.
pub open spec fn unfiltered_plane(h: MpxHeader, data: Seq<u8>, c: int) -> Seq<u8> {
    let q = if h.channel_needs_byte_split(c as usize) { merge_bytes(data) } else { data };
    unfilter_plane_rows(
        h.filter_type,
        q,
        h.spec_channel_plane_row_bytes(c as usize),
        h.channel_bps(c as usize) as int,
        h.height as int,
    )
}

/// The planes after the inverse filter and the inverse color transforms.
pub open spec fn restored_planes(h: MpxHeader, planes: Seq<Seq<u8>>) -> Seq<Seq<u8>> {
    let p1 = Seq::new(planes.len(), |c: int| unfiltered_plane(h, planes[c], c));
    let p2 = if h.use_ycocg() { ycocg_inverse_planes(p1) } else { p1 };
    if h.inter_channel_delta() { icd_inverse(p2, h.spec_plane_bytes()) } else { p2 }
}

/// The pixels `decode` rebuilds from decompressed channel planes.
pub open spec fn spec_decode_planes(h: MpxHeader, planes: Seq<Seq<u8>>) -> Seq<u8> {
    interleave(
        restored_planes(h, planes),
        h.pixel_count(),
        h.channel_count() as int,
        h.bytes_per_sample() as int,
    )
}

/// Decompressed planes as the decoder accepts them: one per channel, each
/// of the size the header implies.
pub open spec fn planes_fit(h: MpxHeader, planes: Seq<Seq<u8>>) -> bool {
    &&& planes.len() == h.channel_count()
    &&& forall|c: int| 0 <= c < planes.len() ==> (#[trigger] planes[c]).len() == h.spec_channel_plane_bytes(c as usize)
}

proof fn lemma_decode_sizes(h: MpxHeader)
    requires
        h.valid(),
    ensures
        0 <= h.pixel_count() <= usize::MAX,
        h.pixel_count() * h.bytes_per_sample() == h.spec_plane_bytes(),
        0 <= h.spec_plane_row_bytes() <= usize::MAX,
        0 <= h.spec_plane_bytes() <= usize::MAX,
        h.pixel_count() * h.channel_count() * h.bytes_per_sample() == h.pixel_bytes(),
        h.height * (h.width * 2) == 2 * h.pixel_count(),
        forall|c: usize| c < h.channel_count() ==> 0 <= #[trigger] h.spec_channel_plane_bytes(c) <= usize::MAX,
        forall|c: usize| c < h.channel_count() ==> 0 <= #[trigger] h.spec_channel_plane_row_bytes(c) <= usize::MAX,
{
    let w = h.width as int;
    let hh = h.height as int;
    let ch = h.channel_count() as int;
    let b = h.bytes_per_sample() as int;
    assert(h.height * (h.width * 2) == 2 * (h.width * h.height)) by (nonlinear_arith);
    assert(w * hh * b == hh * (w * b)) by (nonlinear_arith);
    assert(w * hh >= 0) by (nonlinear_arith)
        requires w >= 0, hh >= 0;
    assert(w * hh <= w * hh * ch * b) by (nonlinear_arith)
        requires w * hh >= 0, ch >= 1, b >= 1;
    assert(0 <= w * b <= w * ch * b) by (nonlinear_arith)
        requires w >= 0, ch >= 1, b >= 0;
    assert(0 <= hh * (w * b) <= hh * (w * ch * b)) by (nonlinear_arith)
        requires hh >= 0, 0 <= w * b <= w * ch * b;
    assert(w * hh * ch * b == hh * (w * ch * b)) by (nonlinear_arith);
    assert(w * b <= hh * (w * b)) by (nonlinear_arith)
        requires hh >= 1, w * b >= 0;
    assert forall|c: usize| c < h.channel_count() implies 0 <= #[trigger] h.spec_channel_plane_bytes(c) <= usize::MAX by {
        h.lemma_channel_sizes_fit(c);
    }
    assert forall|c: usize| c < h.channel_count() implies 0 <= #[trigger] h.spec_channel_plane_row_bytes(c) <= usize::MAX by {
        h.lemma_channel_sizes_fit(c);
    }
}

/// Rebuilds raw interleaved pixels from the decompressed channel planes:
/// merges split byte planes, undoes the spatial filter row by row, undoes
/// YCoCg-R and then the inter-channel delta as the flags say, and
/// interleaves the planes.
pub fn decode(header: &MpxHeader, planes: Vec<Vec<u8>>) -> (pixels: Vec<u8>)
    requires
        header.valid(),
        header.transform_supported(),
        planes_fit(*header, planes_view(planes@)),
    ensures
        pixels@ == spec_decode_planes(*header, planes_view(planes@)),
        pixels@.len() == header.pixel_bytes(),
{
    proof {
        lemma_decode_sizes(*header);
    }
    let ghost pv = planes_view(planes@);
    let w = header.width as usize;
    let h = header.height as usize;
    let channels = header.channel_count();
    let bps = header.bytes_per_sample();
    let n = w * h;
    let filter = header.filter_type;

    // byte-plane merge and inverse filter, per channel
    let mut restored: Vec<Vec<u8>> = Vec::new();
    let mut c: usize = 0;
    while c < channels
        invariant
            channels == header.channel_count(),
            header.valid(),
            h == header.height,
            filter == header.filter_type,
            pv == planes_view(planes@),
            planes_fit(*header, pv),
            forall|c: usize| c < header.channel_count() ==> 0 <= #[trigger] header.spec_channel_plane_bytes(c) <= usize::MAX,
            forall|c: usize| c < header.channel_count() ==> 0 <= #[trigger] header.spec_channel_plane_row_bytes(c) <= usize::MAX,
            header.height * (header.width * 2) == 2 * header.pixel_count(),
            c <= channels,
            restored@.len() == c,
            forall|d: int| 0 <= d < c ==> #[trigger] restored@[d]@ == unfiltered_plane(*header, pv[d], d),
            forall|d: int| 0 <= d < c ==> (#[trigger] restored@[d]@).len() == header.spec_channel_plane_bytes(d as usize),
        decreases channels - c,
    {
        let rb = header.channel_plane_row_bytes(c);
        let stride = header.channel_bps(c);
        assert(pv[c as int] == planes@[c as int]@);
        let plane = if header.channel_needs_byte_split(c) {
            let merged = merge_byte_planes(&planes[c]);
            assert(merged@.len() == planes@[c as int]@.len());
            unfilter_plane(filter, &merged, rb, h, stride)
        } else {
            unfilter_plane(filter, &planes[c], rb, h, stride)
        };
        restored.push(plane);
        c = c + 1;
    }
    let ghost p1 = planes_view(restored@);
    assert(p1 =~= Seq::new(pv.len(), |c: int| unfiltered_plane(*header, pv[c], c)));

    // inverse YCoCg-R
    if header.use_ycocg() {
        assert(bps == 1 && channels >= 3);
        assert(restored@[0]@.len() == n);
        let (rp, gp, bp) = ycocg_to_rgb(&restored[0], &restored[1], &restored[2]);
        restored.set(0, rp);
        restored.set(1, gp);
        restored.set(2, bp);
        assert(planes_view(restored@) =~= ycocg_inverse_planes(p1));
    }
    let ghost p2 = planes_view(restored@);
    assert(p2 == (if header.use_ycocg() { ycocg_inverse_planes(p1) } else { p1 }));
    assert forall|d: int| 0 <= d < channels implies (#[trigger] restored@[d]@).len() == n * bps by {
        if !header.use_ycocg() {
            assert(header.spec_channel_plane_bytes(d as usize) == header.spec_plane_bytes());
        }
    }

    // inverse inter-channel delta, in channel order
    if header.inter_channel_delta() {
        let m = header.plane_bytes();
        if channels >= 2 {
            let u1 = undelta(&restored[1], &restored[0], m);
            restored.set(1, u1);
            if channels >= 3 {
                let u2 = undelta(&restored[2], &restored[1], m);
                restored.set(2, u2);
            }
        }
        assert(planes_view(restored@) =~= icd_inverse(p2, header.spec_plane_bytes()));
    }
    assert(planes_view(restored@) == restored_planes(*header, pv));
    assert forall|d: int| 0 <= d < channels implies (#[trigger] restored@[d]@).len() == n * bps by {}

    interleave_planes(&restored, n, channels, bps)
}

// ── Block container ─────────────────────────────────────────────────────────

/// Where the compressed bytes of channel `ch` lie when its block starts at
/// `cursor`: a u32 LE length, then that many bytes. Errors when either runs
/// past the end of `data`.
pub open spec fn spec_block(data: Seq<u8>, cursor: int, ch: int) -> Result<(int, int), MpxError> {
    if cursor + 4 > data.len() {
        Err(MpxError::BlockHeaderTruncated { channel: ch as usize })
    } else {
        let len = le_u32(data[cursor], data[cursor + 1], data[cursor + 2], data[cursor + 3]);
        if cursor + 4 + len > data.len() {
            Err(MpxError::BlockDataTruncated { channel: ch as usize })
        } else {
            Ok((cursor + 4, cursor + 4 + len))
        }
    }
}

/// The abstract state of a `Decoder`.
pub struct DecoderState {
    /// The parsed header.
    pub header: MpxHeader,
    /// Where the next channel block starts.
    pub cursor: int,
    /// The decompressed planes accepted so far.
    pub planes: Seq<Seq<u8>>,
    /// A block has been located and its decompressed plane is awaited.
    pub pending: bool,
}

/// Decodes an MPX file step by step. The caller decompresses each block the
/// decoder locates and hands the plane back:
///
/// ```text
/// let mut d = Decoder::new(data)?;
/// while !d.is_complete() {
///     let (start, end) = d.next_block(data)?;
///     d.accept_plane(decompress(&data[start..end])?)?;
/// }
/// let (header, pixels) = d.finish();
/// ```
pub struct Decoder {
    header: MpxHeader,
    cursor: usize,
    planes: Vec<Vec<u8>>,
    pending: bool,
}

impl View for Decoder {
    type V = DecoderState;

    closed spec fn view(&self) -> DecoderState {
        DecoderState {
            header: self.header,
            cursor: self.cursor as int,
            planes: planes_view(self.planes@),
            pending: self.pending,
        }
    }
}

impl Decoder {
    /// The decoder's invariant: a valid header, and the accepted planes are
    /// the first channels, each of its expected size.
    pub open spec fn wf(&self) -> bool {
        let s = self@;
        &&& s.header.valid()
        &&& s.planes.len() <= s.header.channel_count()
        &&& s.pending ==> s.planes.len() < s.header.channel_count()
        &&& forall|c: int| 0 <= c < s.planes.len() ==> (#[trigger] s.planes[c]).len() == s.header.spec_channel_plane_bytes(c as usize)
        &&& 0 <= s.cursor <= usize::MAX
    }

    /// Starts decoding `data`: parses the header; the first block follows it.
    pub fn new(data: &[u8]) -> (res: Result<Decoder, MpxError>)
        ensures
            res is Err ==> res == Err::<Decoder, MpxError>(spec_parse_header(data@)->Err_0),
            res is Ok <==> spec_parse_header(data@) is Ok,
            res matches Ok(d) ==> d.wf() && d@ == (DecoderState {
                header: spec_parse_header(data@)->Ok_0,
                cursor: HEADER_SIZE as int,
                planes: Seq::empty(),
                pending: false,
            }),
    {
        match MpxHeader::parse(data) {
            Ok(header) => {
                let d = Decoder { header, cursor: HEADER_SIZE, planes: Vec::new(), pending: false };
                assert(d@.planes =~= Seq::<Seq<u8>>::empty());
                Ok(d)
            },
            Err(e) => Err(e),
        }
    }

    /// The parsed header.
    pub fn header(&self) -> (h: MpxHeader)
        ensures
            h == self@.header,
    {
        self.header
    }

    /// The channel whose block comes next: the number of planes accepted.
    pub fn next_channel(&self) -> (c: usize)
        ensures
            c == self@.planes.len(),
    {
        self.planes.len()
    }

    /// Whether every channel's plane has been accepted.
    pub fn is_complete(&self) -> (b: bool)
        requires
            self.wf(),
        ensures
            b == (self@.planes.len() == self@.header.channel_count()),
    {
        self.planes.len() == self.header.channel_count()
    }

    /// Locates the next channel block in `data`: returns the range of its
    /// compressed bytes and moves past it, or reports a truncated block.
    pub fn next_block(&mut self, data: &[u8]) -> (res: Result<(usize, usize), MpxError>)
        requires
            old(self).wf(),
            !old(self)@.pending,
            old(self)@.planes.len() < old(self)@.header.channel_count(),
        ensures
            final(self).wf(),
            res matches Ok(r) ==> spec_block(data@, old(self)@.cursor, old(self)@.planes.len() as int)
                == Ok::<(int, int), MpxError>((r.0 as int, r.1 as int)),
            res matches Err(e) ==> spec_block(data@, old(self)@.cursor, old(self)@.planes.len() as int)
                == Err::<(int, int), MpxError>(e),
            res matches Ok(r) ==> final(self)@ == (DecoderState { cursor: r.1 as int, pending: true, ..old(self)@ }),
            res is Err ==> final(self)@ == old(self)@,
            ({
                let c = old(self)@.cursor;
                let ch = old(self)@.planes.len() as usize;
                let len = data@[c] + 256 * data@[c + 1] + 65536 * data@[c + 2] + 16777216 * data@[c + 3];
                &&& c + 4 > data@.len() ==> res == Err::<(usize, usize), MpxError>(MpxError::BlockHeaderTruncated { channel: ch })
                &&& c + 4 <= data@.len() && c + 4 + len > data@.len() ==> res == Err::<(usize, usize), MpxError>(
                    MpxError::BlockDataTruncated { channel: ch },
                )
                &&& c + 4 <= data@.len() && c + 4 + len <= data@.len() ==> res == Ok::<(usize, usize), MpxError>(
                    ((c + 4) as usize, (c + 4 + len) as usize),
                )
            }),
    {
        let len = data.len();
        let cursor = self.cursor;
        let ch = self.planes.len();
        if len < 4 || cursor > len - 4 {
            return Err(MpxError::BlockHeaderTruncated { channel: ch });
        }
        let comp_len = u32_from_le(data[cursor], data[cursor + 1], data[cursor + 2], data[cursor + 3]) as usize;
        let start = cursor + 4;
        if comp_len > len - start {
            return Err(MpxError::BlockDataTruncated { channel: ch });
        }
        let end = start + comp_len;
        self.cursor = end;
        self.pending = true;
        Ok((start, end))
    }

    /// Accepts the decompressed plane of the block just located; it must have
    /// the size the header implies for its channel.
    pub fn accept_plane(&mut self, plane: Vec<u8>) -> (res: Result<(), MpxError>)
        requires
            old(self).wf(),
            old(self)@.pending,
        ensures
            final(self).wf(),
            ({
                let s = old(self)@;
                let ch = s.planes.len() as int;
                let expected = s.header.spec_channel_plane_bytes(ch as usize);
                &&& plane@.len() == expected ==> res is Ok && final(self)@ == (DecoderState {
                    planes: s.planes.push(plane@),
                    pending: false,
                    ..s
                })
                &&& plane@.len() != expected ==> res == Err::<(), MpxError>(MpxError::PlaneSize {
                    channel: ch as usize,
                    got: plane@.len() as usize,
                    expected: expected as usize,
                }) && final(self)@ == s
            }),
    {
        let ch = self.planes.len();
        proof {
            self.header.lemma_channel_sizes_fit(ch);
            assert(self.header.height * self.header.spec_channel_plane_row_bytes(ch) >= self.header.spec_channel_plane_row_bytes(ch)) by (nonlinear_arith)
                requires self.header.height >= 1, self.header.spec_channel_plane_row_bytes(ch) >= 0;
        }
        let expected = self.header.channel_plane_bytes(ch);
        if plane.len() != expected {
            return Err(MpxError::PlaneSize { channel: ch, got: plane.len(), expected });
        }
        let ghost old_planes = self@.planes;
        self.planes.push(plane);
        self.pending = false;
        assert(self@.planes =~= old_planes.push(plane@));
        Ok(())
    }

    /// Finishes decoding once every plane has been accepted: returns the
    /// header and the raw interleaved pixels rebuilt from the planes.
    pub fn finish(self) -> (res: (MpxHeader, Vec<u8>))
        requires
            self.wf(),
            self@.planes.len() == self@.header.channel_count(),
            self@.header.transform_supported(),
        ensures
            res.0 == self@.header,
            res.1@ == spec_decode_planes(self@.header, self@.planes),
    {
        let header = self.header;
        let pixels = decode(&header, self.planes);
        (header, pixels)
    }
}

} // verus!
