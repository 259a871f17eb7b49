//! Names of color types and filters as written on a command line.
//!
//! Names are compared case-insensitively. ASCII case folding is enough: the
//! only non-ASCII characters whose lowercase form is ASCII are the Kelvin
//! sign (to `k`, in no name here) and dotted capital I (to `i` followed by a
//! combining dot, so never a name), and every other non-ASCII character
//! stays non-ASCII.
use vstd::prelude::*;
use crate::header::{ColorType, FilterType};
use vstd::string::StringSliceAdditionalSpecFns;

verus! {

/// A byte with ASCII capitals turned into lowercase.
pub open spec fn ascii_lower(b: u8) -> u8 {
    if 65 <= b <= 90 {
        (b + 32) as u8
    } else {
        b
    }
}

/// Bytes with ASCII capitals turned into lowercase.
pub open spec fn lower_bytes(s: Seq<u8>) -> Seq<u8> {
    Seq::new(s.len(), |i: int| ascii_lower(s[i]))
}

/// Whether `s`, with ASCII capitals lowercased, equals `name`.
fn matches_name(s: &[u8], name: &[u8]) -> (r: bool)
    ensures
        r == (lower_bytes(s@) == name@),
{
    let n = s.len();
    if n != name.len() {
        assert(lower_bytes(s@).len() != name@.len());
        return false;
    }
    let mut i: usize = 0;
    while i < n
        invariant
            n == s@.len(),
            n == name@.len(),
            i <= n,
            forall|j: int| 0 <= j < i ==> ascii_lower(s@[j]) == name@[j],
        decreases n - i,
    {
        let b = s[i];
        let lb = if 65 <= b && b <= 90 { b + 32 } else { b };
        if lb != name[i] {
            assert(lower_bytes(s@)[i as int] != name@[i as int]);
            return false;
        }
        i = i + 1;
    }
    assert(lower_bytes(s@) =~= name@);
    true
}

/// The color type a name denotes: gray, grey or l; graya or la; rgb; rgba
/// (ASCII case ignored).
pub open spec fn spec_parse_color_type(s: Seq<u8>) -> Option<ColorType> {
    let l = lower_bytes(s);
    if l == seq![103u8, 114, 97, 121] || l == seq![103u8, 114, 101, 121] || l == seq![108u8] {
        Some(ColorType::Gray)
    } else if l == seq![103u8, 114, 97, 121, 97] || l == seq![108u8, 97] {
        Some(ColorType::GrayA)
    } else if l == seq![114u8, 103, 98] {
        Some(ColorType::Rgb)
    } else if l == seq![114u8, 103, 98, 97] {
        Some(ColorType::Rgba)
    } else {
        None
    }
}

/// The filter a name denotes: none, sub, up, average, paeth, adaptive
/// (ASCII case ignored); any other name means Paeth.
pub open spec fn spec_parse_filter_opt(s: Seq<u8>) -> FilterType {
    let l = lower_bytes(s);
    if l == seq![110u8, 111, 110, 101] {
        FilterType::NoFilter
    } else if l == seq![115u8, 117, 98] {
        FilterType::Sub
    } else if l == seq![117u8, 112] {
        FilterType::Up
    } else if l == seq![97u8, 118, 101, 114, 97, 103, 101] {
        FilterType::Average
    } else if l == seq![97u8, 100, 97, 112, 116, 105, 118, 101] {
        FilterType::Adaptive
    } else {
        FilterType::Paeth
    }
}

/// Reads a color-type name (gray | grey | l | graya | la | rgb | rgba, in
/// any ASCII case); `None` for any other text.
pub fn parse_color_type(s: &str) -> (res: Option<ColorType>)
    ensures
        res == spec_parse_color_type(s.spec_bytes()),
        lower_bytes(s.spec_bytes()) == seq![103u8, 114, 97, 121] ==> res == Some(ColorType::Gray),
        lower_bytes(s.spec_bytes()) == seq![103u8, 114, 101, 121] ==> res == Some(ColorType::Gray),
        lower_bytes(s.spec_bytes()) == seq![108u8] ==> res == Some(ColorType::Gray),
        lower_bytes(s.spec_bytes()) == seq![103u8, 114, 97, 121, 97] ==> res == Some(ColorType::GrayA),
        lower_bytes(s.spec_bytes()) == seq![108u8, 97] ==> res == Some(ColorType::GrayA),
        lower_bytes(s.spec_bytes()) == seq![114u8, 103, 98] ==> res == Some(ColorType::Rgb),
        lower_bytes(s.spec_bytes()) == seq![114u8, 103, 98, 97] ==> res == Some(ColorType::Rgba),
{
    proof {
        let l = lower_bytes(s.spec_bytes());
        if l == seq![114u8, 103, 98, 97] {
            assert(l[0] == 114 && l.len() == 4);
        }
        if l == seq![103u8, 114, 97, 121, 97] {
            assert(l.len() == 5);
        }
    }
    let b = s.as_bytes();
    let gray: [u8; 4] = [103, 114, 97, 121];
    let grey: [u8; 4] = [103, 114, 101, 121];
    let l: [u8; 1] = [108];
    let graya: [u8; 5] = [103, 114, 97, 121, 97];
    let la: [u8; 2] = [108, 97];
    let rgb: [u8; 3] = [114, 103, 98];
    let rgba: [u8; 4] = [114, 103, 98, 97];
    assert(gray@ =~= seq![103u8, 114, 97, 121]);
    assert(grey@ =~= seq![103u8, 114, 101, 121]);
    assert(l@ =~= seq![108u8]);
    assert(graya@ =~= seq![103u8, 114, 97, 121, 97]);
    assert(la@ =~= seq![108u8, 97]);
    assert(rgb@ =~= seq![114u8, 103, 98]);
    assert(rgba@ =~= seq![114u8, 103, 98, 97]);
    if matches_name(b, gray.as_slice()) || matches_name(b, grey.as_slice()) || matches_name(b, l.as_slice()) {
        Some(ColorType::Gray)
    } else if matches_name(b, graya.as_slice()) || matches_name(b, la.as_slice()) {
        Some(ColorType::GrayA)
    } else if matches_name(b, rgb.as_slice()) {
        Some(ColorType::Rgb)
    } else if matches_name(b, rgba.as_slice()) {
        Some(ColorType::Rgba)
    } else {
        None
    }
}

/// Reads a filter name (none | sub | up | average | paeth | adaptive, in any
/// ASCII case); any other text means Paeth.
pub fn parse_filter_opt(s: &str) -> (res: FilterType)
    ensures
        res == spec_parse_filter_opt(s.spec_bytes()),
        lower_bytes(s.spec_bytes()) == seq![110u8, 111, 110, 101] ==> res == FilterType::NoFilter,
        lower_bytes(s.spec_bytes()) == seq![115u8, 117, 98] ==> res == FilterType::Sub,
        lower_bytes(s.spec_bytes()) == seq![117u8, 112] ==> res == FilterType::Up,
        lower_bytes(s.spec_bytes()) == seq![97u8, 118, 101, 114, 97, 103, 101] ==> res == FilterType::Average,
        lower_bytes(s.spec_bytes()) == seq![112u8, 97, 101, 116, 104] ==> res == FilterType::Paeth,
        lower_bytes(s.spec_bytes()) == seq![97u8, 100, 97, 112, 116, 105, 118, 101] ==> res == FilterType::Adaptive,
{
    let b = s.as_bytes();
    let none: [u8; 4] = [110, 111, 110, 101];
    let sub: [u8; 3] = [115, 117, 98];
    let up: [u8; 2] = [117, 112];
    let average: [u8; 7] = [97, 118, 101, 114, 97, 103, 101];
    let adaptive: [u8; 8] = [97, 100, 97, 112, 116, 105, 118, 101];
    assert(none@ =~= seq![110u8, 111, 110, 101]);
    assert(sub@ =~= seq![115u8, 117, 98]);
    assert(up@ =~= seq![117u8, 112]);
    assert(average@ =~= seq![97u8, 118, 101, 114, 97, 103, 101]);
    assert(adaptive@ =~= seq![97u8, 100, 97, 112, 116, 105, 118, 101]);
    if matches_name(b, none.as_slice()) {
        FilterType::NoFilter
    } else if matches_name(b, sub.as_slice()) {
        FilterType::Sub
    } else if matches_name(b, up.as_slice()) {
        FilterType::Up
    } else if matches_name(b, average.as_slice()) {
        FilterType::Average
    } else if matches_name(b, adaptive.as_slice()) {
        FilterType::Adaptive
    } else {
        FilterType::Paeth
    }
}

} // verus!
