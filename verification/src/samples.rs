//! 16-bit samples and the little-endian byte pairs that raw 16-bit pixel
//! buffers hold them in.
use vstd::prelude::*;

verus! {

/// The bytes of 16-bit samples, each as its low byte then its high byte.
pub open spec fn le_sample_bytes(samples: Seq<u16>) -> Seq<u8> {
    Seq::new(
        2 * samples.len(),
        |j: int| if j % 2 == 0 { (samples[j / 2] % 256) as u8 } else { (samples[j / 2] / 256) as u8 },
    )
}

/// The 16-bit samples of little-endian byte pairs; a trailing odd byte is
/// not a sample.
pub open spec fn le_samples(bytes: Seq<u8>) -> Seq<u16> {
    Seq::new(bytes.len() / 2, |i: int| (bytes[2 * i] + 256 * bytes[2 * i + 1]) as u16)
}

/// Writes each sample as two little-endian bytes.
pub fn u16_samples_to_le_bytes(samples: &[u16]) -> (bytes: Vec<u8>)
    requires
        2 * samples@.len() <= usize::MAX,
    ensures
        bytes@ == le_sample_bytes(samples@),
        bytes@.len() == 2 * samples@.len(),
        forall|i: int| 0 <= i < samples@.len() ==> bytes@[2 * i] + 256 * bytes@[2 * i + 1] == #[trigger] samples@[i],
{
    let n = samples.len();
    let mut out: Vec<u8> = Vec::new();
    let mut i: usize = 0;
    while i < n
        invariant
            n == samples@.len(),
            2 * n <= usize::MAX,
            i <= n,
            out@.len() == 2 * i,
            forall|j: int| 0 <= j < 2 * i ==> #[trigger] out@[j] == le_sample_bytes(samples@)[j],
        decreases n - i,
    {
        let v = samples[i];
        out.push((v % 256) as u8);
        out.push((v / 256) as u8);
        i = i + 1;
    }
    assert(out@ =~= le_sample_bytes(samples@));
    assert forall|i: int| 0 <= i < samples@.len() implies out@[2 * i] + 256 * out@[2 * i + 1] == #[trigger] samples@[i] by {
        assert((2 * i) / 2 == i && (2 * i) % 2 == 0);
        assert((2 * i + 1) / 2 == i && (2 * i + 1) % 2 == 1);
    }
    out
}

/// Reads consecutive little-endian byte pairs as 16-bit samples, ignoring a
/// trailing odd byte.
pub fn le_bytes_to_u16_samples(bytes: &[u8]) -> (samples: Vec<u16>)
    ensures
        samples@ == le_samples(bytes@),
        samples@.len() == bytes@.len() / 2,
        forall|i: int| 0 <= i < samples@.len() ==> #[trigger] samples@[i] == bytes@[2 * i] + 256 * bytes@[2 * i + 1],
{
    let len = bytes.len();
    let n = len / 2;
    let mut out: Vec<u16> = Vec::new();
    let mut i: usize = 0;
    while i < n
        invariant
            len == bytes@.len(),
            n == len / 2,
            i <= n,
            out@.len() == i,
            forall|j: int| 0 <= j < i ==> #[trigger] out@[j] == le_samples(bytes@)[j],
        decreases n - i,
    {
        let lo = bytes[2 * i] as u16;
        let hi = bytes[2 * i + 1] as u16;
        out.push(lo + 256 * hi);
        i = i + 1;
    }
    assert(out@ =~= le_samples(bytes@));
    out
}

/// Reading back the bytes written for 16-bit samples gives the samples.
pub proof fn lemma_le_samples_roundtrip(samples: Seq<u16>)
    ensures
        le_samples(le_sample_bytes(samples)) == samples,
{
    let b = le_sample_bytes(samples);
    assert forall|i: int| 0 <= i < samples.len() implies #[trigger] le_samples(b)[i] == samples[i] by {
        assert(b[2 * i] == (samples[i] % 256) as u8);
        assert(b[2 * i + 1] == (samples[i] / 256) as u8);
    }
    assert(le_samples(b) =~= samples);
}

/// Writing the samples read from an even number of bytes gives the bytes.
pub proof fn lemma_le_bytes_roundtrip(bytes: Seq<u8>)
    requires
        bytes.len() % 2 == 0,
    ensures
        le_sample_bytes(le_samples(bytes)) == bytes,
{
    let s = le_samples(bytes);
    assert forall|j: int| 0 <= j < bytes.len() implies #[trigger] le_sample_bytes(s)[j] == bytes[j] by {
        let i = j / 2;
        assert(s[i] == (bytes[2 * i] + 256 * bytes[2 * i + 1]) as u16);
    }
    assert(le_sample_bytes(s) =~= bytes);
}

} // verus!
