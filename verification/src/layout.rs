//! Byte layout of pixel data: interleaved pixels versus per-channel planes,
//! and the hi/lo byte-plane split of 2-byte samples.
use vstd::prelude::*;
use vstd::arithmetic::div_mod::lemma_fundamental_div_mod_converse;

verus! {

/// Position in an interleaved buffer of byte `k` of channel `c` of pixel `p`.
pub open spec fn sample_pos(p: int, c: int, k: int, channels: int, bps: int) -> int {
    (p * channels + c) * bps + k
}

/// Where pixel `p`, channel `c`, byte `k` sits, and that the position is in range.
pub proof fn lemma_compose(p: int, c: int, k: int, n: int, channels: int, bps: int)
    requires
        0 <= p < n,
        0 <= c < channels,
        0 <= k < bps,
    ensures
        0 <= sample_pos(p, c, k, channels, bps) < n * channels * bps,
        sample_pos(p, c, k, channels, bps) / bps == p * channels + c,
        sample_pos(p, c, k, channels, bps) % bps == k,
        (p * channels + c) / channels == p,
        (p * channels + c) % channels == c,
        0 <= p * bps + k < n * bps,
        (p * bps + k) / bps == p,
        (p * bps + k) % bps == k,
{
    let q = p * channels + c;
    assert(0 <= q < n * channels) by (nonlinear_arith)
        requires 0 <= p < n, 0 <= c < channels, q == p * channels + c;
    assert(0 <= q * bps + k < n * channels * bps) by (nonlinear_arith)
        requires 0 <= q < n * channels, 0 <= k < bps;
    assert(q * bps == (p * channels + c) * bps);
    lemma_fundamental_div_mod_converse(q * bps + k, bps, q, k);
    lemma_fundamental_div_mod_converse(q, channels, p, c);
    assert(0 <= p * bps + k < n * bps) by (nonlinear_arith)
        requires 0 <= p < n, 0 <= k < bps;
    lemma_fundamental_div_mod_converse(p * bps + k, bps, p, k);
}

/// Every position in an interleaved buffer is some pixel/channel/byte.
pub proof fn lemma_decompose(i: int, n: int, channels: int, bps: int)
    requires
        0 <= i < n * channels * bps,
        channels >= 1,
        bps >= 1,
    ensures
        0 <= (i / bps) / channels < n,
        0 <= (i / bps) % channels < channels,
        0 <= i % bps < bps,
        i == sample_pos((i / bps) / channels, (i / bps) % channels, i % bps, channels, bps),
{
    let q = i / bps;
    let k = i % bps;
    let p = q / channels;
    let c = q % channels;
    vstd::arithmetic::div_mod::lemma_fundamental_div_mod(i, bps);
    vstd::arithmetic::div_mod::lemma_fundamental_div_mod(q, channels);
    vstd::arithmetic::div_mod::lemma_mod_pos_bound(i, bps);
    vstd::arithmetic::div_mod::lemma_mod_pos_bound(q, channels);
    assert(i == q * bps + k) by (nonlinear_arith)
        requires i == bps * q + k;
    assert(q == p * channels + c) by (nonlinear_arith)
        requires q == channels * p + c;
    assert(0 <= q) by (nonlinear_arith)
        requires i == q * bps + k, 0 <= i, 0 <= k < bps, bps >= 1;
    assert(q < n * channels) by (nonlinear_arith)
        requires i == q * bps + k, i < n * channels * bps, 0 <= k < bps, bps >= 1;
    assert(0 <= p < n) by (nonlinear_arith)
        requires q == p * channels + c, 0 <= q < n * channels, 0 <= c < channels, channels >= 1;
}

/// Byte `j` of the plane of channel `c`: byte `j % bps` of sample `j / bps`.
pub open spec fn deinterleave_plane(px: Seq<u8>, n: int, c: int, channels: int, bps: int) -> Seq<u8> {
    Seq::new((n * bps) as nat, |j: int| px[sample_pos(j / bps, c, j % bps, channels, bps)])
}

/// The per-channel planes of `n` interleaved pixels.
pub open spec fn deinterleave(px: Seq<u8>, n: int, channels: int, bps: int) -> Seq<Seq<u8>> {
    Seq::new(channels as nat, |c: int| deinterleave_plane(px, n, c, channels, bps))
}

/// Pixels rebuilt from per-channel planes: byte `i` is byte `i % bps` of
/// the sample of channel `(i / bps) % channels` of pixel `(i / bps) / channels`.
pub open spec fn interleave(planes: Seq<Seq<u8>>, n: int, channels: int, bps: int) -> Seq<u8> {
    Seq::new(
        (n * channels * bps) as nat,
        |i: int| planes[(i / bps) % channels][((i / bps) / channels) * bps + i % bps],
    )
}

/// The contents of a list of planes.
pub open spec fn planes_view(v: Seq<Vec<u8>>) -> Seq<Seq<u8>> {
    Seq::new(v.len(), |c: int| v[c]@)
}

/// Splits `n` interleaved pixels of `channels` samples of `bps` bytes into
/// one plane per channel.
pub fn deinterleave_pixels(pixels: &[u8], n: usize, channels: usize, bps: usize) -> (planes: Vec<Vec<u8>>)
    requires
        pixels@.len() == n * channels * bps,
        channels >= 1,
        bps >= 1,
    ensures
        planes_view(planes@) == deinterleave(pixels@, n as int, channels as int, bps as int),
        planes@.len() == channels,
        forall|c: int| 0 <= c < channels ==> (#[trigger] planes@[c])@.len() == n * bps,
        forall|c: int, p: int, k: int| 0 <= c < channels && 0 <= p < n && 0 <= k < bps ==> #[trigger] planes@[c]@[p
            * bps + k] == pixels@[(p * channels + c) * bps + k],
{
    proof {
        let d = deinterleave(pixels@, n as int, channels as int, bps as int);
        assert forall|c: int, p: int, k: int| 0 <= c < channels && 0 <= p < n && 0 <= k < bps implies #[trigger] d[c][p
            * bps + k] == pixels@[(p * channels + c) * bps + k] by {
            lemma_compose(p, c, k, n as int, channels as int, bps as int);
        }
    }
    let total = pixels.len();
    let mut planes: Vec<Vec<u8>> = Vec::new();
    let mut c: usize = 0;
    while c < channels
        invariant
            total == pixels@.len() == n * channels * bps,
            channels >= 1,
            bps >= 1,
            c <= channels,
            planes@.len() == c,
            forall|q: int| 0 <= q < c ==> #[trigger] planes@[q]@ == deinterleave_plane(
                pixels@, n as int, q, channels as int, bps as int),
        decreases channels - c,
    {
        let mut plane: Vec<u8> = Vec::new();
        let mut p: usize = 0;
        while p < n
            invariant
                total == pixels@.len() == n * channels * bps,
                channels >= 1,
                bps >= 1,
                c < channels,
                p <= n,
                plane@.len() == p * bps,
                forall|j: int| 0 <= j < plane@.len() ==> #[trigger] plane@[j] == pixels@[sample_pos(
                    j / (bps as int), c as int, j % (bps as int), channels as int, bps as int)],
            decreases n - p,
        {
            proof {
                lemma_compose(p as int, c as int, 0, n as int, channels as int, bps as int);
            }
            assert((p * channels + c) * bps + bps <= n * channels * bps) by (nonlinear_arith)
                requires p < n, c < channels, bps >= 1;
            let base = (p * channels + c) * bps;
            let mut k: usize = 0;
            while k < bps
                invariant
                    total == pixels@.len() == n * channels * bps,
                    channels >= 1,
                    bps >= 1,
                    c < channels,
                    p < n,
                    k <= bps,
                    base == (p * channels + c) * bps,
                    base + bps <= n * channels * bps,
                    plane@.len() == p * bps + k,
                    forall|j: int| 0 <= j < plane@.len() ==> #[trigger] plane@[j] == pixels@[sample_pos(
                        j / (bps as int), c as int, j % (bps as int), channels as int, bps as int)],
                decreases bps - k,
            {
                proof {
                    lemma_compose(p as int, c as int, k as int, n as int, channels as int, bps as int);
                }
                plane.push(pixels[base + k]);
                k = k + 1;
            }
            assert(plane@.len() == (p + 1) * bps) by (nonlinear_arith)
                requires plane@.len() == p * bps + bps;
            p = p + 1;
        }
        assert(plane@ =~= deinterleave_plane(pixels@, n as int, c as int, channels as int, bps as int));
        planes.push(plane);
        c = c + 1;
    }
    assert(planes_view(planes@) =~= deinterleave(pixels@, n as int, channels as int, bps as int));
    assert forall|c: int| 0 <= c < channels implies (#[trigger] planes@[c])@ == planes_view(planes@)[c] by {}
    planes
}

/// Interleaves `channels` planes of `n` samples of `bps` bytes into pixels.
pub fn interleave_planes(planes: &Vec<Vec<u8>>, n: usize, channels: usize, bps: usize) -> (pixels: Vec<u8>)
    requires
        planes@.len() == channels,
        forall|c: int| 0 <= c < channels ==> #[trigger] planes@[c]@.len() == n * bps,
        n * channels * bps <= usize::MAX,
        channels >= 1,
        bps >= 1,
    ensures
        pixels@ == interleave(planes_view(planes@), n as int, channels as int, bps as int),
        pixels@.len() == n * channels * bps,
        forall|c: int, p: int, k: int| 0 <= c < channels && 0 <= p < n && 0 <= k < bps ==> #[trigger] pixels@[(p
            * channels + c) * bps + k] == planes@[c]@[p * bps + k],
{
    proof {
        let iv = interleave(planes_view(planes@), n as int, channels as int, bps as int);
        assert forall|c: int, p: int, k: int| 0 <= c < channels && 0 <= p < n && 0 <= k < bps implies #[trigger] iv[(p
            * channels + c) * bps + k] == planes@[c]@[p * bps + k] by {
            lemma_compose(p, c, k, n as int, channels as int, bps as int);
        }
    }
    let ghost pv = planes_view(planes@);
    assert(n * bps <= n * channels * bps) by (nonlinear_arith)
        requires channels >= 1, n >= 0, bps >= 1;
    let mut out: Vec<u8> = Vec::new();
    let mut p: usize = 0;
    assert(p * channels * bps == 0) by (nonlinear_arith)
        requires p == 0;
    while p < n
        invariant
            planes@.len() == channels,
            pv == planes_view(planes@),
            forall|c: int| 0 <= c < channels ==> #[trigger] planes@[c]@.len() == n * bps,
            n * channels * bps <= usize::MAX,
            n * bps <= usize::MAX,
            channels >= 1,
            bps >= 1,
            p <= n,
            out@.len() == p * channels * bps,
            forall|i: int| 0 <= i < out@.len() ==> #[trigger] out@[i] == interleave(pv, n as int, channels as int, bps as int)[i],
        decreases n - p,
    {
        let mut c: usize = 0;
        while c < channels
            invariant
                planes@.len() == channels,
                pv == planes_view(planes@),
                forall|c: int| 0 <= c < channels ==> #[trigger] planes@[c]@.len() == n * bps,
                n * channels * bps <= usize::MAX,
                n * bps <= usize::MAX,
                channels >= 1,
                bps >= 1,
                p < n,
                c <= channels,
                out@.len() == (p * channels + c) * bps,
                forall|i: int| 0 <= i < out@.len() ==> #[trigger] out@[i] == interleave(pv, n as int, channels as int, bps as int)[i],
            decreases channels - c,
        {
            proof {
                lemma_compose(p as int, c as int, 0, n as int, channels as int, bps as int);
            }
            let base = p * bps;
            let mut k: usize = 0;
            while k < bps
                invariant
                    planes@.len() == channels,
                    pv == planes_view(planes@),
                    forall|c: int| 0 <= c < channels ==> #[trigger] planes@[c]@.len() == n * bps,
                    n * channels * bps <= usize::MAX,
                    n * bps <= usize::MAX,
                    channels >= 1,
                    bps >= 1,
                    p < n,
                    c < channels,
                    k <= bps,
                    base == p * bps,
                    out@.len() == (p * channels + c) * bps + k,
                    forall|i: int| 0 <= i < out@.len() ==> #[trigger] out@[i] == interleave(pv, n as int, channels as int, bps as int)[i],
                decreases bps - k,
            {
                proof {
                    lemma_compose(p as int, c as int, k as int, n as int, channels as int, bps as int);
                }
                let v = planes[c][base + k];
                out.push(v);
                k = k + 1;
            }
            assert((p * channels + c) * bps + bps == (p * channels + (c + 1)) * bps) by (nonlinear_arith);
            c = c + 1;
        }
        assert((p * channels + channels) * bps == (p + 1) * channels * bps) by (nonlinear_arith);
        p = p + 1;
    }
    assert(out@ =~= interleave(pv, n as int, channels as int, bps as int));
    out
}

/// Interleaving the planes of interleaved pixels gives the pixels back.
pub proof fn lemma_interleave_deinterleave(px: Seq<u8>, n: int, channels: int, bps: int)
    requires
        px.len() == n * channels * bps,
        n >= 0,
        channels >= 1,
        bps >= 1,
    ensures
        interleave(deinterleave(px, n, channels, bps), n, channels, bps) == px,
{
    let planes = deinterleave(px, n, channels, bps);
    assert forall|i: int| 0 <= i < px.len() implies #[trigger] interleave(planes, n, channels, bps)[i] == px[i] by {
        lemma_decompose(i, n, channels, bps);
        let p = (i / bps) / channels;
        let c = (i / bps) % channels;
        let k = i % bps;
        lemma_compose(p, c, k, n, channels, bps);
    }
    assert(interleave(planes, n, channels, bps) =~= px);
}

// ── Byte-plane split ─────────────────────────────────────────────────────────

/// A plane of 2-byte little-endian samples rearranged as all high bytes
/// followed by all low bytes: [hi_0..hi_m, lo_0..lo_m].
pub open spec fn split_bytes(plane: Seq<u8>) -> Seq<u8> {
    let m = plane.len() / 2;
    Seq::new(plane.len(), |j: int| if j < m { plane[2 * j + 1] } else { plane[2 * (j - m)] })
}

/// The inverse arrangement: hi bytes from the first half, lo bytes from the
/// second half, back to interleaved little-endian samples.
pub open spec fn merge_bytes(plane: Seq<u8>) -> Seq<u8> {
    let m = plane.len() / 2;
    Seq::new(plane.len(), |j: int| if j >= 2 * m { 0u8 } else if j % 2 == 0 { plane[m + j / 2] } else { plane[j / 2] })
}

/// Splits a plane of 2-byte samples into a hi-byte plane followed by a
/// lo-byte plane.
pub fn split_byte_planes(plane: &Vec<u8>) -> (out: Vec<u8>)
    requires
        plane@.len() % 2 == 0,
    ensures
        out@ == split_bytes(plane@),
        out@.len() == plane@.len(),
        forall|j: int| 0 <= j < plane@.len() / 2 ==> #[trigger] out@[j] == plane@[2 * j + 1] && out@[plane@.len() / 2
            + j] == plane@[2 * j],
{
    let len = plane.len();
    let n = len / 2;
    let mut out: Vec<u8> = Vec::new();
    let mut i: usize = 0;
    while i < n
        invariant
            len == plane@.len(),
            n == plane@.len() / 2,
            plane@.len() % 2 == 0,
            i <= n,
            out@.len() == i,
            forall|j: int| 0 <= j < i ==> #[trigger] out@[j] == split_bytes(plane@)[j],
        decreases n - i,
    {
        out.push(plane[2 * i + 1]);
        i = i + 1;
    }
    let mut i: usize = 0;
    while i < n
        invariant
            len == plane@.len(),
            n == plane@.len() / 2,
            plane@.len() % 2 == 0,
            i <= n,
            out@.len() == n + i,
            forall|j: int| 0 <= j < n + i ==> #[trigger] out@[j] == split_bytes(plane@)[j],
        decreases n - i,
    {
        out.push(plane[2 * i]);
        i = i + 1;
    }
    assert(out@ =~= split_bytes(plane@));
    out
}

/// Rebuilds interleaved little-endian samples from a hi-byte plane followed
/// by a lo-byte plane.
pub fn merge_byte_planes(plane: &Vec<u8>) -> (out: Vec<u8>)
    ensures
        out@ == merge_bytes(plane@),
        out@.len() == plane@.len(),
        forall|j: int| 0 <= j < plane@.len() / 2 ==> #[trigger] out@[2 * j] == plane@[plane@.len() / 2 + j] && out@[2 * j
            + 1] == plane@[j],
        plane@.len() % 2 == 1 ==> out@[plane@.len() - 1] == 0,
{
    let len = plane.len();
    let n = len / 2;
    let mut out: Vec<u8> = Vec::new();
    let mut i: usize = 0;
    while i < n
        invariant
            len == plane@.len(),
            n == plane@.len() / 2,
            i <= n,
            out@.len() == 2 * i,
            forall|j: int| 0 <= j < 2 * i ==> #[trigger] out@[j] == merge_bytes(plane@)[j],
        decreases n - i,
    {
        out.push(plane[n + i]);
        out.push(plane[i]);
        i = i + 1;
    }
    if 2 * n < len {
        out.push(0);
    }
    assert(out@ =~= merge_bytes(plane@));
    out
}

/// Merging a split plane gives the plane back.
pub proof fn lemma_merge_split(plane: Seq<u8>)
    requires
        plane.len() % 2 == 0,
    ensures
        merge_bytes(split_bytes(plane)) == plane,
{
    assert(merge_bytes(split_bytes(plane)) =~= plane);
}

} // verus!
