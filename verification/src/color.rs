//! Lossless color transforms between channel planes: YCoCg-R and the simple
//! inter-channel delta.
use vstd::prelude::*;
use crate::filter::{byte_add, byte_sub, lemma_byte_add_mod, lemma_byte_sub_mod};

verus! {

/// `x >> 1` on a signed integer: division by two rounded toward minus infinity.
pub open spec fn half_floor(x: int) -> int {
    x / 2
}

/// The YCoCg-R forward transform of one pixel: (Y, Co, Cg).
pub open spec fn ycocg_forward_pixel(r: u8, g: u8, b: u8) -> (int, int, int) {
    let co = r - b;
    let t = b + half_floor(co);
    let cg = g - t;
    let y = t + half_floor(cg);
    (y, co, cg)
}

/// `x` wrapped into the i16 range once, as i16 wrapping arithmetic does for
/// the sum or difference of two i16 values.
pub open spec fn wrap_i16(x: int) -> int {
    if x > 32767 {
        x - 65536
    } else if x < -32768 {
        x + 65536
    } else {
        x
    }
}

/// `x` clamped to 0..=255.
pub open spec fn clamp_u8(x: int) -> u8 {
    if x < 0 {
        0
    } else if x > 255 {
        255
    } else {
        x as u8
    }
}

/// The YCoCg-R inverse transform of one pixel as the decoder computes it in
/// i16 arithmetic (the two steps that can leave the i16 range on corrupt
/// data wrap), each result clamped to 0..=255: (R, G, B).
pub open spec fn ycocg_inverse_pixel(y: u8, co: int, cg: int) -> (u8, u8, u8) {
    let t = y - half_floor(cg);
    let g = cg + t;
    let b = wrap_i16(t - half_floor(co));
    let r = wrap_i16(b + co);
    (clamp_u8(r), clamp_u8(g), clamp_u8(b))
}

/// Low byte of the two's-complement i16 encoding of `v`.
pub open spec fn i16_lo(v: int) -> u8 {
    ((if v < 0 { v + 65536 } else { v }) % 256) as u8
}

/// High byte of the two's-complement i16 encoding of `v`.
pub open spec fn i16_hi(v: int) -> u8 {
    ((if v < 0 { v + 65536 } else { v }) / 256) as u8
}

/// The i16 value of two little-endian bytes.
pub open spec fn i16_from_le(lo: u8, hi: u8) -> int {
    let u = lo + 256 * hi;
    if u >= 32768 {
        u - 65536
    } else {
        u
    }
}

/// A plane of i16 samples stored little-endian, two bytes per sample.
pub open spec fn i16_le_plane(vals: Seq<int>) -> Seq<u8> {
    Seq::new(2 * vals.len(), |j: int| if j % 2 == 0 { i16_lo(vals[j / 2]) } else { i16_hi(vals[j / 2]) })
}

/// The i16 sample `i` of a little-endian i16 plane.
pub open spec fn i16_sample(plane: Seq<u8>, i: int) -> int {
    i16_from_le(plane[2 * i], plane[2 * i + 1])
}

/// The Y plane of the forward transform.
pub open spec fn y_plane(r: Seq<u8>, g: Seq<u8>, b: Seq<u8>) -> Seq<u8> {
    Seq::new(r.len(), |i: int| ycocg_forward_pixel(r[i], g[i], b[i]).0 as u8)
}

/// The Co plane of the forward transform (i16 little-endian).
pub open spec fn co_plane(r: Seq<u8>, g: Seq<u8>, b: Seq<u8>) -> Seq<u8> {
    i16_le_plane(Seq::new(r.len(), |i: int| ycocg_forward_pixel(r[i], g[i], b[i]).1))
}

/// The Cg plane of the forward transform (i16 little-endian).
pub open spec fn cg_plane(r: Seq<u8>, g: Seq<u8>, b: Seq<u8>) -> Seq<u8> {
    i16_le_plane(Seq::new(r.len(), |i: int| ycocg_forward_pixel(r[i], g[i], b[i]).2))
}

/// Pixel `i` of the inverse transform of planes Y, Co, Cg.
pub open spec fn inverse_at(y: Seq<u8>, co: Seq<u8>, cg: Seq<u8>, i: int) -> (u8, u8, u8) {
    ycocg_inverse_pixel(y[i], i16_sample(co, i), i16_sample(cg, i))
}

/// The R, G and B planes of the inverse transform.
pub open spec fn r_plane(y: Seq<u8>, co: Seq<u8>, cg: Seq<u8>) -> Seq<u8> {
    Seq::new(y.len(), |i: int| inverse_at(y, co, cg, i).0)
}

pub open spec fn g_plane(y: Seq<u8>, co: Seq<u8>, cg: Seq<u8>) -> Seq<u8> {
    Seq::new(y.len(), |i: int| inverse_at(y, co, cg, i).1)
}

pub open spec fn b_plane(y: Seq<u8>, co: Seq<u8>, cg: Seq<u8>) -> Seq<u8> {
    Seq::new(y.len(), |i: int| inverse_at(y, co, cg, i).2)
}

/// `x >> 1` for an i16.
fn half_floor_i16(x: i16) -> (r: i16)
    ensures
        r == half_floor(x as int),
{
    let xi = x as i32;
    if xi >= 0 {
        (xi / 2) as i16
    } else {
        (-((-xi + 1) / 2)) as i16
    }
}

/// Little-endian bytes of an i16.
fn i16_to_le(v: i16) -> (bytes: (u8, u8))
    ensures
        bytes.0 == i16_lo(v as int),
        bytes.1 == i16_hi(v as int),
{
    let u: u32 = if v < 0 { (v as i32 + 65536) as u32 } else { v as u32 };
    ((u % 256) as u8, (u / 256) as u8)
}

/// The i16 of two little-endian bytes.
fn i16_of_le(lo: u8, hi: u8) -> (v: i16)
    ensures
        v as int == i16_from_le(lo, hi),
{
    let u: u32 = lo as u32 + 256 * hi as u32;
    if u >= 32768 {
        (u as i32 - 65536) as i16
    } else {
        u as i16
    }
}

/// Forward YCoCg-R: from the R, G, B planes (one byte per sample) computes
/// the Y plane (one byte per sample) and the Co and Cg planes (i16
/// little-endian, two bytes per sample).
pub fn rgb_to_ycocg(r: &Vec<u8>, g: &Vec<u8>, b: &Vec<u8>) -> (res: (Vec<u8>, Vec<u8>, Vec<u8>))
    requires
        r@.len() == g@.len(),
        r@.len() == b@.len(),
        2 * r@.len() <= usize::MAX,
    ensures
        res.0@ == y_plane(r@, g@, b@),
        res.1@ == co_plane(r@, g@, b@),
        res.2@ == cg_plane(r@, g@, b@),
        res.0@.len() == r@.len(),
        res.1@.len() == 2 * r@.len(),
        res.2@.len() == 2 * r@.len(),
        forall|i: int| 0 <= i < r@.len() ==> {
            let co = r@[i] - b@[i];
            let t = b@[i] + co / 2;
            let cg = g@[i] - t;
            &&& #[trigger] res.0@[i] == t + cg / 2
            &&& res.1@[2 * i] + 256 * res.1@[2 * i + 1] == co % 65536
            &&& res.2@[2 * i] + 256 * res.2@[2 * i + 1] == cg % 65536
        },
{
    let n = r.len();
    let mut yv: Vec<u8> = Vec::new();
    let mut cov: Vec<u8> = Vec::new();
    let mut cgv: Vec<u8> = Vec::new();
    let mut i: usize = 0;
    while i < n
        invariant
            n == r@.len(),
            n == g@.len(),
            n == b@.len(),
            2 * n <= usize::MAX,
            i <= n,
            yv@.len() == i,
            cov@.len() == 2 * i,
            cgv@.len() == 2 * i,
            forall|j: int| 0 <= j < i ==> #[trigger] yv@[j] == y_plane(r@, g@, b@)[j],
            forall|j: int| 0 <= j < 2 * i ==> #[trigger] cov@[j] == co_plane(r@, g@, b@)[j],
            forall|j: int| 0 <= j < 2 * i ==> #[trigger] cgv@[j] == cg_plane(r@, g@, b@)[j],
        decreases n - i,
    {
        let rr = r[i] as i16;
        let gg = g[i] as i16;
        let bb = b[i] as i16;
        let co: i16 = rr - bb;
        let t: i16 = bb + half_floor_i16(co);
        let cg: i16 = gg - t;
        let y: i16 = t + half_floor_i16(cg);
        // Y is always within 0..=255
        yv.push(y as u8);
        let (co0, co1) = i16_to_le(co);
        cov.push(co0);
        cov.push(co1);
        let (cg0, cg1) = i16_to_le(cg);
        cgv.push(cg0);
        cgv.push(cg1);
        proof {
            assert(2 * (i + 1) == 2 * i + 2);
            assert((2 * i) / 2 == i && (2 * i) % 2 == 0);
            assert((2 * i + 1) / 2 == i && (2 * i + 1) % 2 == 1);
        }
        i = i + 1;
    }
    assert(yv@ =~= y_plane(r@, g@, b@));
    assert(cov@ =~= co_plane(r@, g@, b@));
    assert(cgv@ =~= cg_plane(r@, g@, b@));
    proof {
        assert forall|i: int| 0 <= i < r@.len() implies {
            let co = r@[i] - b@[i];
            let t = b@[i] + co / 2;
            let cg = g@[i] - t;
            &&& #[trigger] yv@[i] == t + cg / 2
            &&& cov@[2 * i] + 256 * cov@[2 * i + 1] == co % 65536
            &&& cgv@[2 * i] + 256 * cgv@[2 * i + 1] == cg % 65536
        } by {
            lemma_ycocg_pixel_roundtrip(r@[i], g@[i], b@[i]);
            let (y, co, cg) = ycocg_forward_pixel(r@[i], g@[i], b@[i]);
            assert((2 * i) / 2 == i && (2 * i) % 2 == 0);
            assert((2 * i + 1) / 2 == i && (2 * i + 1) % 2 == 1);
            lemma_i16_le_mod(co);
            lemma_i16_le_mod(cg);
        }
    }
    (yv, cov, cgv)
}

/// Inverse YCoCg-R: from the Y plane and the i16 little-endian Co and Cg
/// planes rebuilds the R, G and B planes, one per Y sample.
pub fn ycocg_to_rgb(y: &Vec<u8>, co: &Vec<u8>, cg: &Vec<u8>) -> (res: (Vec<u8>, Vec<u8>, Vec<u8>))
    requires
        co@.len() >= 2 * y@.len(),
        cg@.len() >= 2 * y@.len(),
    ensures
        res.0@ == r_plane(y@, co@, cg@),
        res.1@ == g_plane(y@, co@, cg@),
        res.2@ == b_plane(y@, co@, cg@),
        res.0@.len() == y@.len(),
        res.1@.len() == y@.len(),
        res.2@.len() == y@.len(),
        forall|i: int| 0 <= i < y@.len() ==> {
            let uo = co@[2 * i] + 256 * co@[2 * i + 1];
            let vo = if uo >= 32768 { uo - 65536 } else { uo };
            let ug = cg@[2 * i] + 256 * cg@[2 * i + 1];
            let vg = if ug >= 32768 { ug - 65536 } else { ug };
            let t = y@[i] - vg / 2;
            let gg = vg + t;
            let bw = t - vo / 2;
            let bb = if bw > 32767 { bw - 65536 } else if bw < -32768 { bw + 65536 } else { bw };
            let rw = bb + vo;
            let rr = if rw > 32767 { rw - 65536 } else if rw < -32768 { rw + 65536 } else { rw };
            &&& #[trigger] res.0@[i] == (if rr < 0 { 0 } else if rr > 255 { 255 } else { rr })
            &&& res.1@[i] == (if gg < 0 { 0 } else if gg > 255 { 255 } else { gg })
            &&& res.2@[i] == (if bb < 0 { 0 } else if bb > 255 { 255 } else { bb })
        },
{
    let n = y.len();
    let co_len = co.len();
    let mut rv: Vec<u8> = Vec::new();
    let mut gv: Vec<u8> = Vec::new();
    let mut bv: Vec<u8> = Vec::new();
    let mut i: usize = 0;
    while i < n
        invariant
            n == y@.len(),
            co_len == co@.len(),
            co@.len() >= 2 * n,
            cg@.len() >= 2 * n,
            i <= n,
            rv@.len() == i,
            gv@.len() == i,
            bv@.len() == i,
            forall|j: int| 0 <= j < i ==> #[trigger] rv@[j] == r_plane(y@, co@, cg@)[j],
            forall|j: int| 0 <= j < i ==> #[trigger] gv@[j] == g_plane(y@, co@, cg@)[j],
            forall|j: int| 0 <= j < i ==> #[trigger] bv@[j] == b_plane(y@, co@, cg@)[j],
        decreases n - i,
    {
        let yy = y[i] as i16;
        let c_o = i16_of_le(co[2 * i], co[2 * i + 1]);
        let c_g = i16_of_le(cg[2 * i], cg[2 * i + 1]);
        let t: i16 = yy - half_floor_i16(c_g);
        let gg: i16 = c_g + t;
        let bb: i16 = t.wrapping_sub(half_floor_i16(c_o));
        let rr: i16 = bb.wrapping_add(c_o);
        // For valid encoded data these are always in 0..=255.
        let r8: u8 = if rr < 0 { 0 } else if rr > 255 { 255 } else { rr as u8 };
        let g8: u8 = if gg < 0 { 0 } else if gg > 255 { 255 } else { gg as u8 };
        let b8: u8 = if bb < 0 { 0 } else if bb > 255 { 255 } else { bb as u8 };
        rv.push(r8);
        gv.push(g8);
        bv.push(b8);
        i = i + 1;
    }
    assert(rv@ =~= r_plane(y@, co@, cg@));
    assert(gv@ =~= g_plane(y@, co@, cg@));
    assert(bv@ =~= b_plane(y@, co@, cg@));
    proof {
        assert forall|i: int| 0 <= i < y@.len() implies {
            let uo = co@[2 * i] + 256 * co@[2 * i + 1];
            let vo = if uo >= 32768 { uo - 65536 } else { uo };
            let ug = cg@[2 * i] + 256 * cg@[2 * i + 1];
            let vg = if ug >= 32768 { ug - 65536 } else { ug };
            let t = y@[i] - vg / 2;
            let gg = vg + t;
            let bw = t - vo / 2;
            let bb = if bw > 32767 { bw - 65536 } else if bw < -32768 { bw + 65536 } else { bw };
            let rw = bb + vo;
            let rr = if rw > 32767 { rw - 65536 } else if rw < -32768 { rw + 65536 } else { rw };
            &&& #[trigger] rv@[i] == (if rr < 0 { 0 } else if rr > 255 { 255 } else { rr })
            &&& gv@[i] == (if gg < 0 { 0 } else if gg > 255 { 255 } else { gg })
            &&& bv@[i] == (if bb < 0 { 0 } else if bb > 255 { 255 } else { bb })
        } by {
            assert(rv@[i] == inverse_at(y@, co@, cg@, i).0);
            assert(gv@[i] == inverse_at(y@, co@, cg@, i).1);
            assert(bv@[i] == inverse_at(y@, co@, cg@, i).2);
        }
    }
    (rv, gv, bv)
}

/// The two little-endian bytes of an i16 spell its value modulo 2^16.
proof fn lemma_i16_le_mod(v: int)
    requires
        -32768 <= v <= 32767,
    ensures
        i16_lo(v) + 256 * i16_hi(v) == v % 65536,
{
}

proof fn lemma_i16_bytes(v: int)
    requires
        -32768 <= v <= 32767,
    ensures
        i16_from_le(i16_lo(v), i16_hi(v)) == v,
{
}

/// On every pixel the forward transform keeps Y in 0..=255 and Co, Cg in
/// -255..=255, and the inverse transform gives the pixel back.
pub proof fn lemma_ycocg_pixel_roundtrip(r: u8, g: u8, b: u8)
    ensures
        ({
            let (y, co, cg) = ycocg_forward_pixel(r, g, b);
            &&& 0 <= y <= 255
            &&& -255 <= co <= 255
            &&& -255 <= cg <= 255
            &&& ycocg_inverse_pixel(y as u8, co, cg) == (r, g, b)
        }),
{
}

/// The inverse YCoCg-R transform gives back the planes the forward
/// transform started from.
pub proof fn lemma_ycocg_roundtrip(r: Seq<u8>, g: Seq<u8>, b: Seq<u8>)
    requires
        r.len() == g.len(),
        r.len() == b.len(),
    ensures
        co_plane(r, g, b).len() == 2 * r.len(),
        cg_plane(r, g, b).len() == 2 * r.len(),
        r_plane(y_plane(r, g, b), co_plane(r, g, b), cg_plane(r, g, b)) == r,
        g_plane(y_plane(r, g, b), co_plane(r, g, b), cg_plane(r, g, b)) == g,
        b_plane(y_plane(r, g, b), co_plane(r, g, b), cg_plane(r, g, b)) == b,
{
    let yp = y_plane(r, g, b);
    let cop = co_plane(r, g, b);
    let cgp = cg_plane(r, g, b);
    assert forall|i: int| 0 <= i < r.len() implies #[trigger] inverse_at(yp, cop, cgp, i) == (r[i], g[i], b[i]) by {
        lemma_ycocg_pixel_roundtrip(r[i], g[i], b[i]);
        let (y, co, cg) = ycocg_forward_pixel(r[i], g[i], b[i]);
        assert((2 * i) / 2 == i && (2 * i) % 2 == 0);
        assert((2 * i + 1) / 2 == i && (2 * i + 1) % 2 == 1);
        lemma_i16_bytes(co);
        lemma_i16_bytes(cg);
        assert(i16_sample(cop, i) == co);
        assert(i16_sample(cgp, i) == cg);
    }
    assert(r_plane(yp, cop, cgp) =~= r);
    assert(g_plane(yp, cop, cgp) =~= g);
    assert(b_plane(yp, cop, cgp) =~= b);
}

// ── Inter-channel delta ─────────────────────────────────────────────────────

/// `cur` minus `prev` byte-wise (mod 256) on the first `m` bytes.
pub open spec fn delta_plane(cur: Seq<u8>, prev: Seq<u8>, m: int) -> Seq<u8> {
    Seq::new(cur.len(), |i: int| if i < m { byte_sub(cur[i], prev[i]) } else { cur[i] })
}

/// `cur` plus `prev` byte-wise (mod 256) on the first `m` bytes.
pub open spec fn undelta_plane(cur: Seq<u8>, prev: Seq<u8>, m: int) -> Seq<u8> {
    Seq::new(cur.len(), |i: int| if i < m { byte_add(cur[i], prev[i]) } else { cur[i] })
}

/// Subtracts `prev` from `cur` byte-wise (wrapping) over the first `m` bytes.
pub fn delta(cur: &Vec<u8>, prev: &Vec<u8>, m: usize) -> (out: Vec<u8>)
    requires
        cur@.len() >= m,
        prev@.len() >= m,
    ensures
        out@ == delta_plane(cur@, prev@, m as int),
        out@.len() == cur@.len(),
        forall|i: int| 0 <= i < cur@.len() ==> #[trigger] out@[i] as int == if i < m {
            (cur@[i] - prev@[i]) % 256
        } else {
            cur@[i] as int
        },
{
    let n = cur.len();
    let mut out: Vec<u8> = Vec::new();
    let mut i: usize = 0;
    while i < n
        invariant
            n == cur@.len(),
            cur@.len() >= m,
            prev@.len() >= m,
            i <= n,
            out@.len() == i,
            forall|j: int| 0 <= j < i ==> #[trigger] out@[j] == delta_plane(cur@, prev@, m as int)[j],
        decreases n - i,
    {
        if i < m {
            out.push(cur[i].wrapping_sub(prev[i]));
        } else {
            out.push(cur[i]);
        }
        i = i + 1;
    }
    assert(out@ =~= delta_plane(cur@, prev@, m as int));
    assert forall|i: int| 0 <= i < cur@.len() implies #[trigger] out@[i] as int == if i < m {
        (cur@[i] - prev@[i]) % 256
    } else {
        cur@[i] as int
    } by {
        if i < m {
            lemma_byte_sub_mod(cur@[i], prev@[i]);
        }
    }
    out
}

/// Adds `prev` to `cur` byte-wise (wrapping) over the first `m` bytes.
pub fn undelta(cur: &Vec<u8>, prev: &Vec<u8>, m: usize) -> (out: Vec<u8>)
    requires
        cur@.len() >= m,
        prev@.len() >= m,
    ensures
        out@ == undelta_plane(cur@, prev@, m as int),
        out@.len() == cur@.len(),
        forall|i: int| 0 <= i < cur@.len() ==> #[trigger] out@[i] as int == if i < m {
            (cur@[i] + prev@[i]) % 256
        } else {
            cur@[i] as int
        },
{
    let n = cur.len();
    let mut out: Vec<u8> = Vec::new();
    let mut i: usize = 0;
    while i < n
        invariant
            n == cur@.len(),
            cur@.len() >= m,
            prev@.len() >= m,
            i <= n,
            out@.len() == i,
            forall|j: int| 0 <= j < i ==> #[trigger] out@[j] == undelta_plane(cur@, prev@, m as int)[j],
        decreases n - i,
    {
        if i < m {
            out.push(cur[i].wrapping_add(prev[i]));
        } else {
            out.push(cur[i]);
        }
        i = i + 1;
    }
    assert(out@ =~= undelta_plane(cur@, prev@, m as int));
    assert forall|i: int| 0 <= i < cur@.len() implies #[trigger] out@[i] as int == if i < m {
        (cur@[i] + prev@[i]) % 256
    } else {
        cur@[i] as int
    } by {
        if i < m {
            lemma_byte_add_mod(cur@[i], prev@[i]);
        }
    }
    out
}

/// Adding back what was subtracted gives the plane back.
pub proof fn lemma_delta_roundtrip(cur: Seq<u8>, prev: Seq<u8>, m: int)
    requires
        prev.len() >= m,
    ensures
        undelta_plane(delta_plane(cur, prev, m), prev, m) == cur,
{
    assert(undelta_plane(delta_plane(cur, prev, m), prev, m) =~= cur);
}

} // verus!
