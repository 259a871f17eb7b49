//! Spatial prediction filters applied per row, per channel plane.
//!
//! A filter turns raw bytes into residuals: the difference (mod 256) between
//! each byte and a prediction made from its left neighbour `a` (one sample,
//! i.e. `stride` bytes, back), the byte above `b` and the byte above-left `c`.
//! For 16-bit planes the stride is 2, so predictors look one sample back.
use vstd::prelude::*;
use crate::header::FilterType;

verus! {

/// `x - y` modulo 256.
pub open spec fn byte_sub(x: u8, y: u8) -> u8 {
    if x - y < 0 {
        (x - y + 256) as u8
    } else {
        (x - y) as u8
    }
}

/// `x + y` modulo 256.
pub open spec fn byte_add(x: u8, y: u8) -> u8 {
    if x + y > 255 {
        (x + y - 256) as u8
    } else {
        (x + y) as u8
    }
}

pub open spec fn abs_int(x: int) -> int {
    if x < 0 {
        -x
    } else {
        x
    }
}

/// The Paeth predictor: with `p = a + b - c`, the one of `a`, `b`, `c`
/// closest to `p`, ties going to `a` and then to `b`; and `a` also wherever
/// `a` and `b` are equally close, even if `c` is closer (for a=10, b=20,
/// c=15 it predicts 10).
pub open spec fn spec_paeth(a: u8, b: u8, c: u8) -> u8 {
    let p = a + b - c;
    let pa = abs_int(p - a);
    let pb = abs_int(p - b);
    let pc = abs_int(p - c);
    if pa <= pb && (pa <= pc || pa == pb) {
        a
    } else if pb <= pc {
        b
    } else {
        c
    }
}

/// `byte_sub` is subtraction modulo 256.
pub proof fn lemma_byte_sub_mod(x: u8, y: u8)
    ensures
        byte_sub(x, y) as int == (x - y) % 256,
{
}

/// `byte_add` is addition modulo 256.
pub proof fn lemma_byte_add_mod(x: u8, y: u8)
    ensures
        byte_add(x, y) as int == (x + y) % 256,
{
}

/// The prediction a (non-adaptive) filter makes from left `a`, up `b` and
/// up-left `c`; no filter predicts 0.
pub open spec fn predict(f: FilterType, a: u8, b: u8, c: u8) -> u8 {
    match f {
        FilterType::Sub => a,
        FilterType::Up => b,
        FilterType::Average => ((a + b) / 2) as u8,
        FilterType::Paeth => spec_paeth(a, b, c),
        _ => 0,
    }
}

/// The byte `stride` positions to the left of `i`, or 0 before the row start.
pub open spec fn left(s: Seq<u8>, i: int, stride: int) -> u8 {
    if i >= stride {
        s[i - stride]
    } else {
        0
    }
}

/// The residual of byte `i` when filtering `row` (with previous row `prev`).
pub open spec fn residual(f: FilterType, row: Seq<u8>, prev: Seq<u8>, stride: int, i: int) -> u8 {
    byte_sub(row[i], predict(f.effective(), left(row, i, stride), prev[i], left(prev, i, stride)))
}

/// The residuals `apply_filter` writes for `row`.
pub open spec fn filtered_row(f: FilterType, row: Seq<u8>, prev: Seq<u8>, stride: int) -> Seq<u8> {
    Seq::new(row.len(), |i: int| residual(f, row, prev, stride, i))
}

/// Byte `i` of the row `undo_filter` reconstructs from residuals `res`:
/// residual plus the prediction made from the already reconstructed bytes.
/// With stride 0 the "left" byte is the residual itself.
pub open spec fn recon(f: FilterType, res: Seq<u8>, prev: Seq<u8>, stride: int, i: int) -> u8
    decreases i,
{
    let a: u8 = if stride == 0 {
        res[i]
    } else if stride > 0 && i >= stride {
        recon(f, res, prev, stride, i - stride)
    } else {
        0
    };
    byte_add(res[i], predict(f.effective(), a, prev[i], left(prev, i, stride)))
}

/// The row `undo_filter` reconstructs from residuals `res`.
pub open spec fn unfiltered_row(f: FilterType, res: Seq<u8>, prev: Seq<u8>, stride: int) -> Seq<u8> {
    Seq::new(res.len(), |i: int| recon(f, res, prev, stride, i))
}

/// Whether the filter reads the previous row.
pub open spec fn uses_prev(f: FilterType) -> bool {
    let e = f.effective();
    e == FilterType::Up || e == FilterType::Average || e == FilterType::Paeth
}

/// The Paeth predictor of left `a`, up `b` and up-left `c` (see `spec_paeth`).
pub fn paeth(a: u8, b: u8, c: u8) -> (r: u8)
    ensures
        r == spec_paeth(a, b, c),
        ({
            let p = a + b - c;
            let pa = if p >= a { p - a } else { a - p };
            let pb = if p >= b { p - b } else { b - p };
            let pc = if p >= c { p - c } else { c - p };
            r == if pa <= pb && (pa <= pc || pa == pb) {
                a
            } else if pb <= pc {
                b
            } else {
                c
            }
        }),
{
    let a = a as i32;
    let b = b as i32;
    let c = c as i32;
    let p = a + b - c;
    let pa = if p - a < 0 { a - p } else { p - a };
    let pb = if p - b < 0 { b - p } else { p - b };
    let pc = if p - c < 0 { c - p } else { p - c };
    if pa <= pb && (pa <= pc || pa == pb) {
        a as u8
    } else if pb <= pc {
        b as u8
    } else {
        c as u8
    }
}

/// Mean of two bytes, rounded down, as the Average filter uses it.
fn average(a: u8, b: u8) -> (r: u8)
    ensures
        r == ((a + b) / 2) as u8,
{
    ((a as u16 + b as u16) / 2) as u8
}

// ── Encode implementations ──────────────────────────────────────────────────

fn encode_none(row: &[u8], out: &mut [u8])
    requires
        old(out)@.len() == row@.len(),
    ensures
        final(out)@ == filtered_row(FilterType::NoFilter, row@, row@, 1),
{
    let n = row.len();
    for i in 0..n
        invariant
            n == row@.len(),
            out@.len() == n,
            forall|j: int| 0 <= j < i ==> out@[j] == residual(FilterType::NoFilter, row@, row@, 1, j),
    {
        out[i] = row[i];
    }
    assert(out@ =~= filtered_row(FilterType::NoFilter, row@, row@, 1));
}

fn encode_sub(row: &[u8], out: &mut [u8], stride: usize)
    requires
        old(out)@.len() == row@.len(),
    ensures
        forall|prev: Seq<u8>| final(out)@ == #[trigger] filtered_row(FilterType::Sub, row@, prev, stride as int),
{
    let n = row.len();
    for i in 0..n
        invariant
            n == row@.len(),
            out@.len() == n,
            forall|j: int, prev: Seq<u8>| 0 <= j < i ==> out@[j] == #[trigger] residual(FilterType::Sub, row@, prev, stride as int, j),
    {
        let a = if i >= stride { row[i - stride] } else { 0 };
        out[i] = row[i].wrapping_sub(a);
    }
    assert forall|prev: Seq<u8>| out@ == #[trigger] filtered_row(FilterType::Sub, row@, prev, stride as int) by {
        assert(out@ =~= filtered_row(FilterType::Sub, row@, prev, stride as int));
    }
}

fn encode_up(row: &[u8], prev: &[u8], out: &mut [u8], stride: usize)
    requires
        old(out)@.len() == row@.len(),
        prev@.len() == row@.len(),
    ensures
        final(out)@ == filtered_row(FilterType::Up, row@, prev@, stride as int),
{
    let n = row.len();
    for i in 0..n
        invariant
            n == row@.len(),
            n == prev@.len(),
            out@.len() == n,
            forall|j: int| 0 <= j < i ==> out@[j] == residual(FilterType::Up, row@, prev@, stride as int, j),
    {
        out[i] = row[i].wrapping_sub(prev[i]);
    }
    assert(out@ =~= filtered_row(FilterType::Up, row@, prev@, stride as int));
}

fn encode_average(row: &[u8], prev: &[u8], out: &mut [u8], stride: usize)
    requires
        old(out)@.len() == row@.len(),
        prev@.len() == row@.len(),
    ensures
        final(out)@ == filtered_row(FilterType::Average, row@, prev@, stride as int),
{
    let n = row.len();
    for i in 0..n
        invariant
            n == row@.len(),
            n == prev@.len(),
            out@.len() == n,
            forall|j: int| 0 <= j < i ==> out@[j] == residual(FilterType::Average, row@, prev@, stride as int, j),
    {
        let a = if i >= stride { row[i - stride] } else { 0u8 };
        let b = prev[i];
        let avg = average(a, b);
        out[i] = row[i].wrapping_sub(avg);
    }
    assert(out@ =~= filtered_row(FilterType::Average, row@, prev@, stride as int));
}

fn encode_paeth(row: &[u8], prev: &[u8], out: &mut [u8], stride: usize)
    requires
        old(out)@.len() == row@.len(),
        prev@.len() == row@.len(),
    ensures
        final(out)@ == filtered_row(FilterType::Paeth, row@, prev@, stride as int),
{
    let n = row.len();
    for i in 0..n
        invariant
            n == row@.len(),
            n == prev@.len(),
            out@.len() == n,
            forall|j: int| 0 <= j < i ==> out@[j] == residual(FilterType::Paeth, row@, prev@, stride as int, j),
    {
        let a = if i >= stride { row[i - stride] } else { 0 };
        let b = prev[i];
        let c = if i >= stride { prev[i - stride] } else { 0 };
        out[i] = row[i].wrapping_sub(paeth(a, b, c));
    }
    assert(out@ =~= filtered_row(FilterType::Paeth, row@, prev@, stride as int));
}

/// Applies a spatial prediction filter to one row of a channel plane.
///
/// `row` is the current row, `prev` the previous row (all zeros for row 0),
/// `out` receives the residuals, `stride` is bytes per sample (1 or 2).
/// Adaptive is applied as Paeth.
pub fn apply_filter(filter: FilterType, row: &[u8], prev: &[u8], out: &mut [u8], stride: usize)
    requires
        row@.len() == prev@.len(),
        row@.len() == old(out)@.len(),
        stride == 1 || stride == 2,
    ensures
        final(out)@ == filtered_row(filter, row@, prev@, stride as int),
        forall|i: int| 0 <= i < row@.len() ==> {
            let x = row@[i] as int;
            let a = if i >= stride { row@[i - stride] } else { 0u8 };
            let b = prev@[i];
            let c = if i >= stride { prev@[i - stride] } else { 0u8 };
            let o = #[trigger] final(out)@[i] as int;
            &&& filter == FilterType::NoFilter ==> o == x
            &&& filter == FilterType::Sub ==> o == (x - a) % 256
            &&& filter == FilterType::Up ==> o == (x - b) % 256
            &&& filter == FilterType::Average ==> o == (x - (a + b) / 2) % 256
            &&& (filter == FilterType::Paeth || filter == FilterType::Adaptive) ==> o == (x - spec_paeth(a, b, c)) % 256
        },
{
    proof {
        assert forall|i: int| 0 <= i < row@.len() implies {
            let x = row@[i] as int;
            let a = if i >= stride { row@[i - stride] } else { 0u8 };
            let b = prev@[i];
            let c = if i >= stride { prev@[i - stride] } else { 0u8 };
            let o = #[trigger] filtered_row(filter, row@, prev@, stride as int)[i] as int;
            &&& filter == FilterType::NoFilter ==> o == x
            &&& filter == FilterType::Sub ==> o == (x - a) % 256
            &&& filter == FilterType::Up ==> o == (x - b) % 256
            &&& filter == FilterType::Average ==> o == (x - (a + b) / 2) % 256
            &&& (filter == FilterType::Paeth || filter == FilterType::Adaptive) ==> o == (x - spec_paeth(a, b, c)) % 256
        } by {
            lemma_byte_sub_mod(row@[i], predict(filter.effective(), left(row@, i, stride as int), prev@[i], left(prev@, i, stride as int)));
        }
    }
    match filter.effective() {
        FilterType::NoFilter => {
            encode_none(row, out);
            assert(out@ =~= filtered_row(filter, row@, prev@, stride as int));
        },
        FilterType::Sub => {
            encode_sub(row, out, stride);
            assert(out@ == filtered_row(FilterType::Sub, row@, prev@, stride as int));
            assert(out@ =~= filtered_row(filter, row@, prev@, stride as int));
        },
        FilterType::Up => {
            encode_up(row, prev, out, stride);
            assert(out@ =~= filtered_row(filter, row@, prev@, stride as int));
        },
        FilterType::Average => {
            encode_average(row, prev, out, stride);
            assert(out@ =~= filtered_row(filter, row@, prev@, stride as int));
        },
        FilterType::Paeth => {
            encode_paeth(row, prev, out, stride);
            assert(out@ =~= filtered_row(filter, row@, prev@, stride as int));
        },
        FilterType::Adaptive => {
            // effective() never yields Adaptive
        },
    }
}

// ── Decode implementations ──────────────────────────────────────────────────

/// The state of an in-place decode loop after `i` bytes: those are
/// reconstructed, the rest still hold residuals.
pub open spec fn decoded_prefix(f: FilterType, cur: Seq<u8>, res: Seq<u8>, prev: Seq<u8>, stride: int, i: int) -> bool {
    &&& cur.len() == res.len()
    &&& forall|j: int| 0 <= j < i ==> cur[j] == #[trigger] recon(f, res, prev, stride, j)
    &&& forall|j: int| i <= j < cur.len() ==> cur[j] == res[j]
}

fn decode_sub(row: &mut [u8], stride: usize, Ghost(prev): Ghost<Seq<u8>>)
    ensures
        final(row)@ == unfiltered_row(FilterType::Sub, old(row)@, prev, stride as int),
{
    let ghost res = row@;
    let n = row.len();
    if stride >= n {
        assert(row@ =~= unfiltered_row(FilterType::Sub, res, prev, stride as int)) by {
            assert forall|j: int| 0 <= j < n implies row@[j] == recon(FilterType::Sub, res, prev, stride as int, j) by {
            }
        }
        return;
    }
    let mut i = stride;
    assert(decoded_prefix(FilterType::Sub, row@, res, prev, stride as int, i as int));
    while i < n
        invariant
            n == row@.len(),
            res.len() == n,
            stride <= i <= n,
            decoded_prefix(FilterType::Sub, row@, res, prev, stride as int, i as int),
        decreases n - i,
    {
        let a = row[i - stride];
        proof {
            if stride > 0 {
                assert(row@[i - stride] == recon(FilterType::Sub, res, prev, stride as int, i - stride));
            }
        }
        row[i] = row[i].wrapping_add(a);
        i = i + 1;
    }
    assert(row@ =~= unfiltered_row(FilterType::Sub, res, prev, stride as int));
}

fn decode_up(row: &mut [u8], prev: &[u8], stride: usize)
    requires
        prev@.len() >= old(row)@.len(),
    ensures
        final(row)@ == unfiltered_row(FilterType::Up, old(row)@, prev@, stride as int),
{
    let ghost res = row@;
    let n = row.len();
    for i in 0..n
        invariant
            n == row@.len(),
            res.len() == n,
            prev@.len() >= n,
            decoded_prefix(FilterType::Up, row@, res, prev@, stride as int, i as int),
    {
        row[i] = row[i].wrapping_add(prev[i]);
    }
    assert(row@ =~= unfiltered_row(FilterType::Up, res, prev@, stride as int));
}

fn decode_average(row: &mut [u8], prev: &[u8], stride: usize)
    requires
        prev@.len() >= old(row)@.len(),
    ensures
        final(row)@ == unfiltered_row(FilterType::Average, old(row)@, prev@, stride as int),
{
    let ghost res = row@;
    let n = row.len();
    for i in 0..n
        invariant
            n == row@.len(),
            res.len() == n,
            prev@.len() >= n,
            decoded_prefix(FilterType::Average, row@, res, prev@, stride as int, i as int),
    {
        // a is already reconstructed by the time we reach it (left-to-right)
        let a = if i >= stride { row[i - stride] } else { 0u8 };
        proof {
            if stride > 0 && i >= stride {
                assert(row@[i - stride] == recon(FilterType::Average, res, prev@, stride as int, i - stride));
            }
        }
        let b = prev[i];
        let avg = average(a, b);
        row[i] = row[i].wrapping_add(avg);
    }
    assert(row@ =~= unfiltered_row(FilterType::Average, res, prev@, stride as int));
}

fn decode_paeth(row: &mut [u8], prev: &[u8], stride: usize)
    requires
        prev@.len() >= old(row)@.len(),
    ensures
        final(row)@ == unfiltered_row(FilterType::Paeth, old(row)@, prev@, stride as int),
{
    let ghost res = row@;
    let n = row.len();
    for i in 0..n
        invariant
            n == row@.len(),
            res.len() == n,
            prev@.len() >= n,
            decoded_prefix(FilterType::Paeth, row@, res, prev@, stride as int, i as int),
    {
        let a = if i >= stride { row[i - stride] } else { 0 };
        let b = prev[i];
        let c = if i >= stride { prev[i - stride] } else { 0 };
        proof {
            if stride > 0 && i >= stride {
                assert(row@[i - stride] == recon(FilterType::Paeth, res, prev@, stride as int, i - stride));
            }
        }
        row[i] = row[i].wrapping_add(paeth(a, b, c));
    }
    assert(row@ =~= unfiltered_row(FilterType::Paeth, res, prev@, stride as int));
}

/// Undoes a spatial prediction filter on one row in place.
///
/// `row` holds residuals and becomes the raw bytes; `prev` is the previous
/// reconstructed row (all zeros for row 0); `stride` is bytes per sample.
/// Adaptive is undone as Paeth.
pub fn undo_filter(filter: FilterType, row: &mut [u8], prev: &[u8], stride: usize)
    requires
        uses_prev(filter) ==> prev@.len() >= old(row)@.len(),
    ensures
        final(row)@ == unfiltered_row(filter, old(row)@, prev@, stride as int),
        forall|i: int| 0 <= i < old(row)@.len() ==> {
            let y = old(row)@[i] as int;
            let a = if stride == 0 { old(row)@[i] } else if i >= stride { final(row)@[i - stride] } else { 0u8 };
            let b = prev@[i];
            let c = if i >= stride { prev@[i - stride] } else { 0u8 };
            let o = #[trigger] final(row)@[i] as int;
            &&& filter == FilterType::NoFilter ==> o == y
            &&& filter == FilterType::Sub ==> o == (y + a) % 256
            &&& filter == FilterType::Up ==> o == (y + b) % 256
            &&& filter == FilterType::Average ==> o == (y + (a + b) / 2) % 256
            &&& (filter == FilterType::Paeth || filter == FilterType::Adaptive) ==> o == (y + spec_paeth(a, b, c)) % 256
        },
{
    proof {
        let res = old(row)@;
        let un = unfiltered_row(filter, res, prev@, stride as int);
        assert forall|i: int| 0 <= i < res.len() implies {
            let y = res[i] as int;
            let a = if stride == 0 { res[i] } else if i >= stride { un[i - stride] } else { 0u8 };
            let b = prev@[i];
            let c = if i >= stride { prev@[i - stride] } else { 0u8 };
            let o = #[trigger] un[i] as int;
            &&& filter == FilterType::NoFilter ==> o == y
            &&& filter == FilterType::Sub ==> o == (y + a) % 256
            &&& filter == FilterType::Up ==> o == (y + b) % 256
            &&& filter == FilterType::Average ==> o == (y + (a + b) / 2) % 256
            &&& (filter == FilterType::Paeth || filter == FilterType::Adaptive) ==> o == (y + spec_paeth(a, b, c)) % 256
        } by {
            let a = if stride == 0 { res[i] } else if i >= stride { un[i - stride] } else { 0u8 };
            assert(un[i] == recon(filter, res, prev@, stride as int, i));
            if stride > 0 && i >= stride {
                assert(un[i - stride] == recon(filter, res, prev@, stride as int, i - stride));
            }
            lemma_byte_add_mod(res[i], predict(filter.effective(), a, prev@[i], left(prev@, i, stride as int)));
        }
    }
    let ghost res = row@;
    match filter.effective() {
        FilterType::NoFilter => {
            assert(row@ =~= unfiltered_row(filter, res, prev@, stride as int));
        },
        FilterType::Sub => {
            decode_sub(row, stride, Ghost(prev@));
            assert(row@ =~= unfiltered_row(filter, res, prev@, stride as int)) by {
                assert forall|j: int| 0 <= j < res.len() implies recon(FilterType::Sub, res, prev@, stride as int, j)
                    == recon(filter, res, prev@, stride as int, j) by {
                    lemma_recon_effective(filter, FilterType::Sub, res, prev@, stride as int, j);
                }
            }
        },
        FilterType::Up => {
            decode_up(row, prev, stride);
            assert(row@ =~= unfiltered_row(filter, res, prev@, stride as int)) by {
                assert forall|j: int| 0 <= j < res.len() implies recon(FilterType::Up, res, prev@, stride as int, j)
                    == recon(filter, res, prev@, stride as int, j) by {
                    lemma_recon_effective(filter, FilterType::Up, res, prev@, stride as int, j);
                }
            }
        },
        FilterType::Average => {
            decode_average(row, prev, stride);
            assert(row@ =~= unfiltered_row(filter, res, prev@, stride as int)) by {
                assert forall|j: int| 0 <= j < res.len() implies recon(FilterType::Average, res, prev@, stride as int, j)
                    == recon(filter, res, prev@, stride as int, j) by {
                    lemma_recon_effective(filter, FilterType::Average, res, prev@, stride as int, j);
                }
            }
        },
        FilterType::Paeth => {
            decode_paeth(row, prev, stride);
            assert(row@ =~= unfiltered_row(filter, res, prev@, stride as int)) by {
                assert forall|j: int| 0 <= j < res.len() implies recon(FilterType::Paeth, res, prev@, stride as int, j)
                    == recon(filter, res, prev@, stride as int, j) by {
                    lemma_recon_effective(filter, FilterType::Paeth, res, prev@, stride as int, j);
                }
            }
        },
        FilterType::Adaptive => {},
    }
}

/// Two filters with the same effective filter reconstruct the same bytes.
proof fn lemma_recon_effective(f: FilterType, g: FilterType, res: Seq<u8>, prev: Seq<u8>, stride: int, i: int)
    requires
        f.effective() == g.effective(),
    ensures
        recon(f, res, prev, stride, i) == recon(g, res, prev, stride, i),
    decreases i,
{
    if stride > 0 && i >= stride {
        lemma_recon_effective(f, g, res, prev, stride, i - stride);
    }
}

// ── Round trip ──────────────────────────────────────────────────────────────

proof fn lemma_recon_of_residuals(f: FilterType, row: Seq<u8>, prev: Seq<u8>, stride: int, i: int)
    requires
        stride > 0,
        0 <= i < row.len(),
        prev.len() == row.len(),
    ensures
        recon(f, filtered_row(f, row, prev, stride), prev, stride, i) == row[i],
    decreases i,
{
    if i >= stride {
        lemma_recon_of_residuals(f, row, prev, stride, i - stride);
    }
}

/// Undoing a filter on the residuals it produced gives the original row
/// back, for every filter (Adaptive acts as Paeth on both sides) and every
/// positive stride.
pub proof fn lemma_filter_roundtrip(f: FilterType, row: Seq<u8>, prev: Seq<u8>, stride: int)
    requires
        stride > 0,
        prev.len() == row.len(),
    ensures
        unfiltered_row(f, filtered_row(f, row, prev, stride), prev, stride) == row,
{
    assert forall|i: int| 0 <= i < row.len() implies
        unfiltered_row(f, filtered_row(f, row, prev, stride), prev, stride)[i] == row[i] by {
        lemma_recon_of_residuals(f, row, prev, stride, i);
    }
    assert(unfiltered_row(f, filtered_row(f, row, prev, stride), prev, stride) =~= row);
}

// ── Filter selection heuristic ──────────────────────────────────────────────

/// Magnitude of a residual read as a signed byte: values above 127 are the
/// negative residuals 256 - v.
pub open spec fn residual_magnitude(v: u8) -> int {
    if v < 128 {
        v as int
    } else {
        256 - v
    }
}

/// Sum of residual magnitudes of a row.
pub open spec fn residual_cost(s: Seq<u8>) -> int
    decreases s.len(),
{
    if s.len() == 0 {
        0
    } else {
        residual_cost(s.drop_last()) + residual_magnitude(s.last())
    }
}

proof fn lemma_residual_cost_bound(s: Seq<u8>)
    ensures
        0 <= residual_cost(s) <= 128 * s.len(),
    decreases s.len(),
{
    if s.len() > 0 {
        lemma_residual_cost_bound(s.drop_last());
    }
}

/// The selection heuristic's cost of a row of residuals is the sum of their
/// magnitudes as signed bytes: a byte `v` counts `v` below 128 and `256 - v`
/// from 128 on.
pub proof fn law_residual_cost(s: Seq<u8>, v: u8)
    ensures
        residual_cost(Seq::<u8>::empty()) == 0,
        residual_cost(s.push(v)) == residual_cost(s) + (if v < 128 { v as int } else { 256 - v }),
{
    assert(s.push(v).drop_last() =~= s);
}

/// The cost of filtering `row` with `f`.
pub open spec fn filter_cost(f: FilterType, row: Seq<u8>, prev: Seq<u8>, stride: int) -> int {
    residual_cost(filtered_row(f, row, prev, stride))
}

/// One step of the selection: keep the best so far unless `f` is strictly cheaper.
pub open spec fn select_step(best: (FilterType, int), f: FilterType, row: Seq<u8>, prev: Seq<u8>, stride: int) -> (FilterType, int) {
    let c = filter_cost(f, row, prev, stride);
    if c < best.1 {
        (f, c)
    } else {
        best
    }
}

/// The filter `select_best_filter` picks: trying Sub, Up, Average and Paeth
/// in that order from (Paeth, u64::MAX), the first with the smallest cost.
pub open spec fn spec_select_best_filter(row: Seq<u8>, prev: Seq<u8>, stride: int) -> FilterType {
    let s0 = (FilterType::Paeth, u64::MAX as int);
    let s1 = select_step(s0, FilterType::Sub, row, prev, stride);
    let s2 = select_step(s1, FilterType::Up, row, prev, stride);
    let s3 = select_step(s2, FilterType::Average, row, prev, stride);
    let s4 = select_step(s3, FilterType::Paeth, row, prev, stride);
    s4.0
}

/// Sum of residual magnitudes of `s`, computed in u64.
fn cost_of(s: &[u8]) -> (sum: u64)
    requires
        128 * s@.len() <= u64::MAX,
    ensures
        sum == residual_cost(s@),
{
    let n = s.len();
    let mut sum: u64 = 0;
    for i in 0..n
        invariant
            n == s@.len(),
            128 * n <= u64::MAX,
            sum == residual_cost(s@.take(i as int)),
    {
        proof {
            assert(s@.take(i + 1).drop_last() =~= s@.take(i as int));
            lemma_residual_cost_bound(s@.take(i as int));
        }
        let b = s[i];
        let m: u64 = if b < 128 { b as u64 } else { 256 - b as u64 };
        sum = sum + m;
    }
    assert(s@.take(n as int) =~= s@);
    sum
}

/// Picks the filter for a row by trying Sub, Up, Average and Paeth and
/// choosing the one with the smallest sum of absolute residuals (residual
/// bytes read as signed); ties go to the earlier candidate. Never returns
/// NoFilter or Adaptive.
pub fn select_best_filter(row: &[u8], prev: &[u8], stride: usize) -> (best: FilterType)
    requires
        row@.len() == prev@.len(),
        stride == 1 || stride == 2,
        128 * row@.len() <= u64::MAX,
    ensures
        best == spec_select_best_filter(row@, prev@, stride as int),
        best != FilterType::NoFilter,
        best != FilterType::Adaptive,
        ({
            let cs = residual_cost(filtered_row(FilterType::Sub, row@, prev@, stride as int));
            let cu = residual_cost(filtered_row(FilterType::Up, row@, prev@, stride as int));
            let ca = residual_cost(filtered_row(FilterType::Average, row@, prev@, stride as int));
            let cp = residual_cost(filtered_row(FilterType::Paeth, row@, prev@, stride as int));
            let cb = residual_cost(filtered_row(best, row@, prev@, stride as int));
            &&& cb <= cs && cb <= cu && cb <= ca && cb <= cp
            &&& best == FilterType::Up ==> cs > cb
            &&& best == FilterType::Average ==> cs > cb && cu > cb
            &&& best == FilterType::Paeth ==> cs > cb && cu > cb && ca > cb
        }),
{
    proof {
        lemma_residual_cost_bound(filtered_row(FilterType::Sub, row@, prev@, stride as int));
        lemma_residual_cost_bound(filtered_row(FilterType::Up, row@, prev@, stride as int));
        lemma_residual_cost_bound(filtered_row(FilterType::Average, row@, prev@, stride as int));
        lemma_residual_cost_bound(filtered_row(FilterType::Paeth, row@, prev@, stride as int));
        assert(128 * row@.len() < u64::MAX);
    }
    let mut tmp = vec![0u8; row.len()];
    let mut best = FilterType::Paeth;
    let mut best_sum = u64::MAX;

    apply_filter(FilterType::Sub, row, prev, &mut tmp, stride);
    let sum = cost_of(&tmp);
    if sum < best_sum {
        best_sum = sum;
        best = FilterType::Sub;
    }
    apply_filter(FilterType::Up, row, prev, &mut tmp, stride);
    let sum = cost_of(&tmp);
    if sum < best_sum {
        best_sum = sum;
        best = FilterType::Up;
    }
    apply_filter(FilterType::Average, row, prev, &mut tmp, stride);
    let sum = cost_of(&tmp);
    if sum < best_sum {
        best_sum = sum;
        best = FilterType::Average;
    }
    apply_filter(FilterType::Paeth, row, prev, &mut tmp, stride);
    let sum = cost_of(&tmp);
    if sum < best_sum {
        best_sum = sum;
        best = FilterType::Paeth;
    }
    best
}

// ── Whole planes ────────────────────────────────────────────────────────────

/// Row `r` of a plane whose rows are `rb` bytes long.
pub open spec fn plane_row(plane: Seq<u8>, rb: int, r: int) -> Seq<u8> {
    plane.subrange(r * rb, r * rb + rb)
}

/// A row of `rb` zero bytes: the row above the first row.
pub open spec fn zero_row(rb: int) -> Seq<u8> {
    Seq::new(rb as nat, |i: int| 0u8)
}

/// The row above row `r` of a plane.
pub open spec fn row_above(plane: Seq<u8>, rb: int, r: int) -> Seq<u8> {
    if r == 0 {
        zero_row(rb)
    } else {
        plane_row(plane, rb, r - 1)
    }
}

/// The filter the encoder uses for a row: the selection heuristic's choice
/// for Adaptive, otherwise the filter itself.
pub open spec fn encoder_row_filter(f: FilterType, row: Seq<u8>, prev: Seq<u8>, stride: int) -> FilterType {
    if f == FilterType::Adaptive {
        spec_select_best_filter(row, prev, stride)
    } else {
        f.effective()
    }
}

/// The first `k` filtered rows of a plane; each row is filtered against the
/// raw row above it.
pub open spec fn filter_plane_rows(f: FilterType, plane: Seq<u8>, rb: int, stride: int, k: int) -> Seq<u8>
    decreases k,
{
    if k <= 0 {
        Seq::empty()
    } else {
        let r = k - 1;
        let row = plane_row(plane, rb, r);
        let prev = row_above(plane, rb, r);
        filter_plane_rows(f, plane, rb, stride, r) + filtered_row(encoder_row_filter(f, row, prev, stride), row, prev, stride)
    }
}

/// The first `k` reconstructed rows of a filtered plane; each row is
/// reconstructed against the reconstructed row above it, with the filter's
/// effective filter.
pub open spec fn unfilter_plane_rows(f: FilterType, data: Seq<u8>, rb: int, stride: int, k: int) -> Seq<u8>
    decreases k,
{
    if k <= 0 {
        Seq::empty()
    } else {
        let r = k - 1;
        let done = unfilter_plane_rows(f, data, rb, stride, r);
        let prev = if r == 0 { zero_row(rb) } else { done.subrange((r - 1) * rb, r * rb) };
        done + unfiltered_row(f, plane_row(data, rb, r), prev, stride)
    }
}

pub proof fn lemma_row_bounds(r: int, h: int, rb: int)
    requires
        0 <= r < h,
        rb >= 0,
    ensures
        0 <= r * rb,
        r * rb + rb <= h * rb,
        (r + 1) * rb == r * rb + rb,
        r >= 1 ==> (r - 1) * rb + rb == r * rb,
{
    assert(0 <= r * rb) by (nonlinear_arith)
        requires r >= 0, rb >= 0;
    assert((r + 1) * rb == r * rb + rb) by (nonlinear_arith);
    assert(r * rb + rb <= h * rb) by (nonlinear_arith)
        requires r < h, rb >= 0, (r + 1) * rb == r * rb + rb;
    assert(r >= 1 ==> (r - 1) * rb + rb == r * rb) by (nonlinear_arith);
}

pub proof fn lemma_filter_plane_rows_len(f: FilterType, plane: Seq<u8>, rb: int, stride: int, k: int)
    requires
        0 <= k,
        rb >= 0,
        plane.len() >= k * rb,
    ensures
        filter_plane_rows(f, plane, rb, stride, k).len() == k * rb,
    decreases k,
{
    if k > 0 {
        lemma_row_bounds(k - 1, k, rb);
        lemma_filter_plane_rows_len(f, plane, rb, stride, k - 1);
    } else {
        assert(k * rb == 0) by (nonlinear_arith)
            requires k == 0;
    }
}

/// A vector of `n` zero bytes.
fn zeros(n: usize) -> (v: Vec<u8>)
    ensures
        v@ == zero_row(n as int),
{
    let mut v: Vec<u8> = Vec::new();
    let mut i: usize = 0;
    while i < n
        invariant
            i <= n,
            v@.len() == i,
            forall|j: int| 0 <= j < i ==> v@[j] == 0u8,
        decreases n - i,
    {
        v.push(0);
        i = i + 1;
    }
    assert(v@ =~= zero_row(n as int));
    v
}

/// Appends the bytes of `src` to `dst`.
fn append_bytes(dst: &mut Vec<u8>, src: &[u8])
    ensures
        final(dst)@ == old(dst)@ + src@,
{
    let n = src.len();
    let mut i: usize = 0;
    while i < n
        invariant
            n == src@.len(),
            i <= n,
            dst@ == old(dst)@ + src@.subrange(0, i as int),
        decreases n - i,
    {
        dst.push(src[i]);
        i = i + 1;
        assert(dst@ =~= old(dst)@ + src@.subrange(0, i as int));
    }
    assert(src@.subrange(0, n as int) =~= src@);
}

/// Filters a whole channel plane of `h` rows of `rb` bytes, row by row from
/// the top; row 0 is filtered against a zero row. With Adaptive each row
/// uses the filter `select_best_filter` picks for it.
#[verifier::rlimit(40)]
pub fn filter_plane(f: FilterType, plane: &Vec<u8>, rb: usize, h: usize, stride: usize) -> (out: Vec<u8>)
    requires
        plane@.len() == h * rb,
        stride == 1 || stride == 2,
        f == FilterType::Adaptive ==> 128 * rb <= u64::MAX,
    ensures
        out@ == filter_plane_rows(f, plane@, rb as int, stride as int, h as int),
        out@.len() == plane@.len(),
{
    let total = plane.len();
    let mut out: Vec<u8> = Vec::new();
    let mut prev_row = zeros(rb);
    let mut cur_out = zeros(rb);
    let mut off: usize = 0;
    let mut r: usize = 0;
    assert(r * rb == 0) by (nonlinear_arith)
        requires r == 0;
    while r < h
        invariant
            total == plane@.len() == h * rb,
            stride == 1 || stride == 2,
            f == FilterType::Adaptive ==> 128 * rb <= u64::MAX,
            r <= h,
            off == r * rb,
            prev_row@ == row_above(plane@, rb as int, r as int),
            cur_out@.len() == rb,
            out@ == filter_plane_rows(f, plane@, rb as int, stride as int, r as int),
        decreases h - r,
    {
        proof {
            lemma_row_bounds(r as int, h as int, rb as int);
        }
        let cur_row = vstd::slice::slice_subrange(plane.as_slice(), off, off + rb);
        let effective = if f == FilterType::Adaptive {
            select_best_filter(cur_row, &prev_row, stride)
        } else {
            f.effective()
        };
        apply_filter(effective, cur_row, &prev_row, &mut cur_out, stride);
        append_bytes(&mut out, &cur_out);
        prev_row = vstd::slice::slice_to_vec(cur_row);
        off = off + rb;
        r = r + 1;
    }
    proof {
        lemma_filter_plane_rows_len(f, plane@, rb as int, stride as int, h as int);
    }
    out
}

/// Undoes the filter on a whole channel plane of `h` rows of `rb` bytes,
/// row by row from the top, each against the reconstructed row above it
/// (a zero row for row 0), with the filter's effective filter.
pub fn unfilter_plane(f: FilterType, data: &Vec<u8>, rb: usize, h: usize, stride: usize) -> (out: Vec<u8>)
    requires
        data@.len() == h * rb,
    ensures
        out@ == unfilter_plane_rows(f, data@, rb as int, stride as int, h as int),
        out@.len() == data@.len(),
{
    let total = data.len();
    let mut out: Vec<u8> = Vec::new();
    let mut prev_row = zeros(rb);
    let mut off: usize = 0;
    let mut r: usize = 0;
    assert(r * rb == 0) by (nonlinear_arith)
        requires r == 0;
    while r < h
        invariant
            total == data@.len() == h * rb,
            r <= h,
            off == r * rb,
            out@.len() == r * rb,
            prev_row@ == (if r == 0 { zero_row(rb as int) } else { out@.subrange((r - 1) * rb, r * rb) }),
            out@ == unfilter_plane_rows(f, data@, rb as int, stride as int, r as int),
        decreases h - r,
    {
        proof {
            lemma_row_bounds(r as int, h as int, rb as int);
        }
        let mut row = vstd::slice::slice_to_vec(vstd::slice::slice_subrange(data.as_slice(), off, off + rb));
        let ghost done = out@;
        undo_filter(f, &mut row, &prev_row, stride);
        append_bytes(&mut out, &row);
        assert(out@.subrange(r * rb, r * rb + rb) =~= row@);
        prev_row = row;
        off = off + rb;
        r = r + 1;
    }
    out
}

/// The filtered rows of a plane, read back row by row.
proof fn lemma_filtered_plane_row(f: FilterType, plane: Seq<u8>, rb: int, stride: int, k: int, r: int)
    requires
        0 <= r < k,
        rb >= 0,
        plane.len() >= k * rb,
    ensures
        ({
            let row = plane_row(plane, rb, r);
            let prev = row_above(plane, rb, r);
            plane_row(filter_plane_rows(f, plane, rb, stride, k), rb, r)
                == filtered_row(encoder_row_filter(f, row, prev, stride), row, prev, stride)
        }),
    decreases k,
{
    let fk = filter_plane_rows(f, plane, rb, stride, k);
    let fk1 = filter_plane_rows(f, plane, rb, stride, k - 1);
    lemma_row_bounds(k - 1, k, rb);
    lemma_row_bounds(r, k, rb);
    lemma_filter_plane_rows_len(f, plane, rb, stride, k - 1);
    if r < k - 1 {
        lemma_row_bounds(r, k - 1, rb);
        lemma_filtered_plane_row(f, plane, rb, stride, k - 1, r);
        assert(plane_row(fk, rb, r) =~= plane_row(fk1, rb, r));
    } else {
        assert(plane_row(fk, rb, r) =~= fk.subrange(fk1.len() as int, fk.len() as int));
    }
}

/// On each of the first `h` rows, the filter the encoder picks leaves the
/// residuals of the filter the decoder undoes, `f.effective()`. That holds
/// for every filter but Adaptive; for Adaptive (undone as Paeth) it says
/// that on every row the heuristic's pick filters the row as Paeth does.
#[verifier::opaque]
pub open spec fn rows_decodable(f: FilterType, plane: Seq<u8>, rb: int, stride: int, h: int) -> bool {
    forall|r: int| #![trigger plane_row(plane, rb, r)] 0 <= r < h ==> filtered_row(
        encoder_row_filter(f, plane_row(plane, rb, r), row_above(plane, rb, r), stride),
        plane_row(plane, rb, r),
        row_above(plane, rb, r),
        stride,
    ) == filtered_row(f.effective(), plane_row(plane, rb, r), row_above(plane, rb, r), stride)
}

/// Every filter but Adaptive filters each row with itself.
pub proof fn lemma_fixed_filter_rows_decodable(f: FilterType, plane: Seq<u8>, rb: int, stride: int, h: int)
    requires
        f != FilterType::Adaptive,
    ensures
        rows_decodable(f, plane, rb, stride, h),
{
    reveal(rows_decodable);
}

/// Undoing the filter on a filtered plane gives the plane back whenever the
/// encoder's per-row filters are those the decoder undoes: always for a
/// fixed filter, and for Adaptive when its pick matches Paeth on every row.
pub proof fn lemma_plane_filter_roundtrip(f: FilterType, plane: Seq<u8>, rb: int, h: int, stride: int)
    requires
        rows_decodable(f, plane, rb, stride, h),
        rb >= 0,
        h >= 0,
        stride > 0,
        plane.len() == h * rb,
    ensures
        unfilter_plane_rows(f, filter_plane_rows(f, plane, rb, stride, h), rb, stride, h) == plane,
{
    lemma_unfilter_prefix(f, plane, rb, h, stride, h);
    assert(plane.subrange(0, h * rb) =~= plane);
}

proof fn lemma_unfilter_prefix(f: FilterType, plane: Seq<u8>, rb: int, h: int, stride: int, k: int)
    requires
        rows_decodable(f, plane, rb, stride, h),
        rb >= 0,
        0 <= k <= h,
        stride > 0,
        plane.len() == h * rb,
    ensures
        unfilter_plane_rows(f, filter_plane_rows(f, plane, rb, stride, h), rb, stride, k) == plane.subrange(0, k * rb),
    decreases k,
{
    let fp = filter_plane_rows(f, plane, rb, stride, h);
    if k == 0 {
        assert(k * rb == 0) by (nonlinear_arith)
            requires k == 0;
        assert(plane.subrange(0, 0) =~= Seq::<u8>::empty());
    } else {
        let r = k - 1;
        lemma_row_bounds(r, h, rb);
        lemma_unfilter_prefix(f, plane, rb, h, stride, r);
        let done = unfilter_plane_rows(f, fp, rb, stride, r);
        let row = plane_row(plane, rb, r);
        let prev = row_above(plane, rb, r);
        let dprev = if r == 0 { zero_row(rb) } else { done.subrange((r - 1) * rb, r * rb) };
        assert(dprev == prev) by {
            if r > 0 {
                lemma_row_bounds(r - 1, h, rb);
                assert(dprev =~= prev);
            }
        }
        assert(plane_row(fp, rb, r) == filtered_row(f, row, prev, stride)) by {
            lemma_filtered_plane_row(f, plane, rb, stride, h, r);
            assert(filtered_row(encoder_row_filter(f, row, prev, stride), row, prev, stride)
                == filtered_row(f.effective(), row, prev, stride)) by {
                reveal(rows_decodable);
            }
            assert(filtered_row(f.effective(), row, prev, stride) =~= filtered_row(f, row, prev, stride));
        }
        assert(unfiltered_row(f, filtered_row(f, row, prev, stride), prev, stride) == row) by {
            lemma_filter_roundtrip(f, row, prev, stride);
        }
        assert(unfilter_plane_rows(f, fp, rb, stride, k) == done + unfiltered_row(f, plane_row(fp, rb, r), dprev, stride));
        assert(done + row =~= plane.subrange(0, k * rb));
    }
}

// ── Whole planes, row by row ────────────────────────────────────────────────

proof fn lemma_unfilter_rows_len(f: FilterType, data: Seq<u8>, rb: int, stride: int, k: int)
    requires
        0 <= k,
        rb >= 0,
        data.len() >= k * rb,
    ensures
        unfilter_plane_rows(f, data, rb, stride, k).len() == k * rb,
    decreases k,
{
    if k > 0 {
        lemma_row_bounds(k - 1, k, rb);
        lemma_unfilter_rows_len(f, data, rb, stride, k - 1);
    } else {
        assert(k * rb == 0) by (nonlinear_arith)
            requires k == 0;
    }
}

proof fn lemma_unfilter_rows_prefix(f: FilterType, data: Seq<u8>, rb: int, stride: int, k: int, j: int)
    requires
        0 <= j <= k,
        rb >= 0,
        data.len() >= k * rb,
    ensures
        j * rb <= k * rb,
        unfilter_plane_rows(f, data, rb, stride, k).subrange(0, j * rb) == unfilter_plane_rows(f, data, rb, stride, j),
    decreases k,
{
    assert(j * rb <= k * rb) by (nonlinear_arith)
        requires j <= k, rb >= 0;
    lemma_unfilter_rows_len(f, data, rb, stride, k);
    lemma_unfilter_rows_len(f, data, rb, stride, j);
    if j == k {
        assert(unfilter_plane_rows(f, data, rb, stride, k).subrange(0, k * rb) =~= unfilter_plane_rows(f, data, rb, stride, k));
    } else {
        lemma_row_bounds(k - 1, k, rb);
        lemma_unfilter_rows_prefix(f, data, rb, stride, k - 1, j);
        lemma_unfilter_rows_len(f, data, rb, stride, k - 1);
        let uk = unfilter_plane_rows(f, data, rb, stride, k);
        let uk1 = unfilter_plane_rows(f, data, rb, stride, k - 1);
        assert(uk.subrange(0, j * rb) =~= uk1.subrange(0, j * rb));
    }
}

/// Filtering a plane filters each row on its own, against the raw row above
/// it (zeros above the first row), with the filter the encoder picks for it.
pub proof fn law_filter_plane_rows(f: FilterType, plane: Seq<u8>, rb: int, stride: int, h: int)
    requires
        rb >= 0,
        h >= 0,
        plane.len() == h * rb,
    ensures
        filter_plane_rows(f, plane, rb, stride, h).len() == h * rb,
        forall|r: int| 0 <= r < h ==> {
            let row = plane.subrange(r * rb, r * rb + rb);
            let prev = if r == 0 { Seq::new(rb as nat, |i: int| 0u8) } else { plane.subrange((r - 1) * rb, r * rb) };
            #[trigger] filter_plane_rows(f, plane, rb, stride, h).subrange(r * rb, r * rb + rb)
                == filtered_row(encoder_row_filter(f, row, prev, stride), row, prev, stride)
        },
{
    lemma_filter_plane_rows_len(f, plane, rb, stride, h);
    assert forall|r: int| 0 <= r < h implies {
        let row = plane.subrange(r * rb, r * rb + rb);
        let prev = if r == 0 { Seq::new(rb as nat, |i: int| 0u8) } else { plane.subrange((r - 1) * rb, r * rb) };
        #[trigger] filter_plane_rows(f, plane, rb, stride, h).subrange(r * rb, r * rb + rb)
            == filtered_row(encoder_row_filter(f, row, prev, stride), row, prev, stride)
    } by {
        lemma_filtered_plane_row(f, plane, rb, stride, h, r);
        lemma_row_bounds(r, h, rb);
        if r > 0 {
            lemma_row_bounds(r - 1, h, rb);
            assert(row_above(plane, rb, r) == plane.subrange((r - 1) * rb, r * rb));
        } else {
            assert(row_above(plane, rb, r) =~= Seq::new(rb as nat, |i: int| 0u8));
        }
    }
}

/// Undoing the filter on a plane undoes it row by row from the top, each
/// row against the already reconstructed row above it (zeros above the
/// first row).
pub proof fn law_unfilter_plane_rows(f: FilterType, data: Seq<u8>, rb: int, stride: int, h: int)
    requires
        rb >= 0,
        h >= 0,
        data.len() == h * rb,
    ensures
        unfilter_plane_rows(f, data, rb, stride, h).len() == h * rb,
        forall|r: int| #![trigger unfilter_plane_rows(f, data, rb, stride, h).subrange(r * rb, r * rb + rb)] 0 <= r < h ==> {
            let out = unfilter_plane_rows(f, data, rb, stride, h);
            let prev = if r == 0 { Seq::new(rb as nat, |i: int| 0u8) } else { out.subrange((r - 1) * rb, r * rb) };
            out.subrange(r * rb, r * rb + rb) == unfiltered_row(f, data.subrange(r * rb, r * rb + rb), prev, stride)
        },
{
    lemma_unfilter_rows_len(f, data, rb, stride, h);
    let out = unfilter_plane_rows(f, data, rb, stride, h);
    assert forall|r: int| #![trigger out.subrange(r * rb, r * rb + rb)] 0 <= r < h implies {
        let prev = if r == 0 { Seq::new(rb as nat, |i: int| 0u8) } else { out.subrange((r - 1) * rb, r * rb) };
        out.subrange(r * rb, r * rb + rb) == unfiltered_row(f, data.subrange(r * rb, r * rb + rb), prev, stride)
    } by {
        lemma_row_bounds(r, h, rb);
        lemma_unfilter_rows_prefix(f, data, rb, stride, h, r + 1);
        lemma_unfilter_rows_len(f, data, rb, stride, r);
        let u1 = unfilter_plane_rows(f, data, rb, stride, r + 1);
        let u0 = unfilter_plane_rows(f, data, rb, stride, r);
        let p0 = if r == 0 { zero_row(rb) } else { u0.subrange((r - 1) * rb, r * rb) };
        assert(u1 == u0 + unfiltered_row(f, plane_row(data, rb, r), p0, stride));
        assert(out.subrange(r * rb, r * rb + rb) =~= u1.subrange(r * rb, r * rb + rb));
        assert(u1.subrange(r * rb, r * rb + rb) =~= unfiltered_row(f, plane_row(data, rb, r), p0, stride));
        if r > 0 {
            lemma_row_bounds(r - 1, h, rb);
            lemma_unfilter_rows_prefix(f, data, rb, stride, h, r);
            assert(out.subrange((r - 1) * rb, r * rb) =~= u0.subrange((r - 1) * rb, r * rb));
        } else {
            assert(p0 =~= Seq::new(rb as nat, |i: int| 0u8));
        }
    }
}

// ── Adaptive on solid planes ────────────────────────────────────────────────

proof fn lemma_cost_monotone(x: Seq<u8>, y: Seq<u8>)
    requires
        x.len() == y.len(),
        forall|i: int| 0 <= i < x.len() ==> residual_magnitude(#[trigger] x[i]) >= residual_magnitude(y[i]),
    ensures
        residual_cost(x) >= residual_cost(y),
    decreases x.len(),
{
    if x.len() > 0 {
        lemma_cost_monotone(x.drop_last(), y.drop_last());
    }
}

proof fn lemma_cost_zero(x: Seq<u8>)
    ensures
        residual_cost(x) >= 0,
        (residual_cost(x) == 0) == (forall|i: int| 0 <= i < x.len() ==> #[trigger] x[i] == 0),
    decreases x.len(),
{
    lemma_residual_cost_bound(x);
    if x.len() > 0 {
        let d = x.drop_last();
        lemma_cost_zero(d);
        lemma_residual_cost_bound(d);
        if residual_cost(x) == 0 {
            assert forall|i: int| 0 <= i < x.len() implies #[trigger] x[i] == 0 by {
                if i < d.len() {
                    assert(d[i] == x[i]);
                }
            }
        } else if forall|i: int| 0 <= i < x.len() ==> #[trigger] x[i] == 0 {
            assert forall|i: int| 0 <= i < d.len() implies #[trigger] d[i] == 0 by {
                assert(x[i] == 0);
            }
            assert(x[x.len() - 1] == 0);
        }
    }
}

/// On a row whose samples are all equal (each byte repeats `stride` bytes
/// later), with the zero row or the same row above it, the heuristic's pick
/// leaves the residuals Paeth leaves.
proof fn lemma_solid_row_adaptive(row: Seq<u8>, prev: Seq<u8>, stride: int)
    requires
        stride > 0,
        prev.len() == row.len(),
        forall|i: int| stride <= i < row.len() ==> #[trigger] row[i] == row[i - stride],
        prev == zero_row(row.len() as int) || prev == row,
    ensures
        filtered_row(encoder_row_filter(FilterType::Adaptive, row, prev, stride), row, prev, stride)
            == filtered_row(FilterType::Paeth, row, prev, stride),
{
    let sub = filtered_row(FilterType::Sub, row, prev, stride);
    let up = filtered_row(FilterType::Up, row, prev, stride);
    let avg = filtered_row(FilterType::Average, row, prev, stride);
    let pae = filtered_row(FilterType::Paeth, row, prev, stride);
    lemma_cost_zero(sub);
    lemma_cost_zero(up);
    lemma_cost_zero(avg);
    lemma_cost_zero(pae);
    if prev == zero_row(row.len() as int) {
        assert forall|i: int| 0 <= i < row.len() implies #[trigger] sub[i] == pae[i] by {
            assert(prev[i] == 0);
            if i >= stride {
                assert(row[i] == row[i - stride]);
                assert(prev[i - stride] == 0);
            }
        }
        assert(sub =~= pae);
        assert forall|i: int| 0 <= i < row.len() implies residual_magnitude(#[trigger] up[i]) >= residual_magnitude(sub[i]) by {
            assert(prev[i] == 0);
            if i >= stride {
                assert(row[i] == row[i - stride]);
            }
        }
        assert forall|i: int| 0 <= i < row.len() implies residual_magnitude(#[trigger] avg[i]) >= residual_magnitude(sub[i]) by {
            assert(prev[i] == 0);
            if i >= stride {
                assert(row[i] == row[i - stride]);
            }
        }
        lemma_cost_monotone(up, sub);
        lemma_cost_monotone(avg, sub);
    } else {
        assert forall|i: int| 0 <= i < row.len() implies #[trigger] pae[i] == 0 by {
            if i >= stride {
                assert(row[i] == row[i - stride]);
            }
        }
        assert(up =~= pae);
        if filter_cost(FilterType::Sub, row, prev, stride) == 0 {
            assert(sub =~= pae) by {
                assert forall|i: int| 0 <= i < row.len() implies sub[i] == pae[i] by {
                    assert(sub[i] == 0);
                }
            }
        }
    }
}

/// A plane whose samples are all equal: each byte equals the byte at the
/// same position of the first sample.
pub open spec fn solid_plane(plane: Seq<u8>, stride: int) -> bool {
    forall|i: int| 0 <= i < plane.len() ==> #[trigger] plane[i] == plane[i % stride]
}

/// On a solid plane (rows a whole number of samples long) Adaptive's pick
/// filters every row as Paeth does, so Adaptive is undone exactly.
pub proof fn lemma_solid_plane_adaptive_decodable(plane: Seq<u8>, rb: int, stride: int, h: int)
    requires
        stride > 0,
        rb >= 0,
        rb % stride == 0,
        h >= 0,
        plane.len() == h * rb,
        solid_plane(plane, stride),
    ensures
        rows_decodable(FilterType::Adaptive, plane, rb, stride, h),
{
    reveal(rows_decodable);
    assert forall|r: int| #![trigger plane_row(plane, rb, r)] 0 <= r < h implies filtered_row(
        encoder_row_filter(FilterType::Adaptive, plane_row(plane, rb, r), row_above(plane, rb, r), stride),
        plane_row(plane, rb, r),
        row_above(plane, rb, r),
        stride,
    ) == filtered_row(FilterType::Adaptive.effective(), plane_row(plane, rb, r), row_above(plane, rb, r), stride) by {
        lemma_row_bounds(r, h, rb);
        let row = plane_row(plane, rb, r);
        let prev = row_above(plane, rb, r);
        let base = r * rb;
        assert forall|j: int| stride <= j < row.len() implies #[trigger] row[j] == row[j - stride] by {
            assert(row[j] == plane[base + j]);
            assert(row[j - stride] == plane[base + j - stride]);
            vstd::arithmetic::div_mod::lemma_mod_sub_multiples_vanish(base + j, stride);
            assert(-stride + (base + j) == base + j - stride);
        }
        if r > 0 {
            lemma_row_bounds(r - 1, h, rb);
            let pbase = (r - 1) * rb;
            vstd::arithmetic::div_mod::lemma_fundamental_div_mod(rb, stride);
            assert forall|j: int| 0 <= j < rb implies #[trigger] prev[j] == row[j] by {
                assert(prev[j] == plane[pbase + j]);
                assert(row[j] == plane[base + j]);
                assert(base + j == stride * (rb / stride) + (pbase + j));
                vstd::arithmetic::div_mod::lemma_mod_multiples_vanish(rb / stride, pbase + j, stride);
            }
            assert(prev =~= row);
        }
        lemma_solid_row_adaptive(row, prev, stride);
    }
}

} // verus!
