//! The fixed 32-byte MPX file header and the enums it carries.
use vstd::prelude::*;
use crate::error::MpxError;

verus! {

/// The four bytes every MPX file starts with: "MPX\0".
pub const MAGIC: [u8; 4] = [0x4D, 0x50, 0x58, 0x00];
/// The only format version this library reads and writes.
pub const VERSION: u8 = 1;
/// Size in bytes of the fixed file header.
pub const HEADER_SIZE: usize = 32;

/// bit 0: split 16-bit samples into hi/lo byte planes before compression.
pub const FLAG_BYTE_PLANE_SPLIT: u8 = 0b0000_0001;
/// bit 1: inter-channel delta, G = G - R and B = B - G, applied before the spatial filter.
pub const FLAG_INTER_CHANNEL_DELTA: u8 = 0b0000_0010;
/// bit 2: YCoCg-R lossless color transform (RGB/RGBA, 8-bit only).
///   Forward:  Co = R-B,  t = B + (Co>>1),  Cg = G-t,  Y = t + (Cg>>1)
///   Inverse:  t = Y-(Cg>>1), G = Cg+t, B = t-(Co>>1), R = B+Co
/// Planes are stored in order Y, Co, Cg [, A]; Co and Cg as i16 little-endian.
pub const FLAG_YCOCG_R: u8 = 0b0000_0100;

/// The spec view of `MAGIC`.
pub open spec fn magic_seq() -> Seq<u8> {
    seq![0x4Du8, 0x50u8, 0x58u8, 0x00u8]
}

#[derive(Debug, Clone, Copy, PartialEq, Eq, Structural)]
pub enum ColorType {
    Gray,
    GrayA,
    Rgb,
    Rgba,
}

impl ColorType {
    pub open spec fn spec_from_u8(v: u8) -> Option<ColorType> {
        if v == 0 {
            Some(ColorType::Gray)
        } else if v == 1 {
            Some(ColorType::GrayA)
        } else if v == 2 {
            Some(ColorType::Rgb)
        } else if v == 3 {
            Some(ColorType::Rgba)
        } else {
            None
        }
    }

    /// Decodes the header's color-type byte.
    #[verifier::when_used_as_spec(spec_from_u8)]
    pub fn from_u8(v: u8) -> (res: Option<Self>)
        ensures
            res == Self::spec_from_u8(v),
            res is Some <==> v <= 3,
            res matches Some(t) ==> t.to_u8() == v,
    {
        match v {
            0 => Some(ColorType::Gray),
            1 => Some(ColorType::GrayA),
            2 => Some(ColorType::Rgb),
            3 => Some(ColorType::Rgba),
            _ => None,
        }
    }

    pub open spec fn spec_to_u8(self) -> u8 {
        match self {
            ColorType::Gray => 0,
            ColorType::GrayA => 1,
            ColorType::Rgb => 2,
            ColorType::Rgba => 3,
        }
    }

    /// The byte that encodes this color type in the header.
    #[verifier::when_used_as_spec(spec_to_u8)]
    pub fn to_u8(self) -> (v: u8)
        ensures
            v == self.spec_to_u8(),
            Self::spec_from_u8(v) == Some(self),
            self == ColorType::Gray ==> v == 0,
            self == ColorType::GrayA ==> v == 1,
            self == ColorType::Rgb ==> v == 2,
            self == ColorType::Rgba ==> v == 3,
    {
        match self {
            ColorType::Gray => 0,
            ColorType::GrayA => 1,
            ColorType::Rgb => 2,
            ColorType::Rgba => 3,
        }
    }

    pub open spec fn spec_channel_count(self) -> usize {
        match self {
            ColorType::Gray => 1,
            ColorType::GrayA => 2,
            ColorType::Rgb => 3,
            ColorType::Rgba => 4,
        }
    }

    /// Number of interleaved channels per pixel.
    #[verifier::when_used_as_spec(spec_channel_count)]
    pub fn channel_count(self) -> (n: usize)
        ensures
            n == self.spec_channel_count(),
            1 <= n <= 4,
            n == self.to_u8() + 1,
            self == ColorType::Gray ==> n == 1,
            self == ColorType::GrayA ==> n == 2,
            self == ColorType::Rgb ==> n == 3,
            self == ColorType::Rgba ==> n == 4,
    {
        match self {
            ColorType::Gray => 1,
            ColorType::GrayA => 2,
            ColorType::Rgb => 3,
            ColorType::Rgba => 4,
        }
    }
}

#[derive(Debug, Clone, Copy, PartialEq, Eq, Structural)]
pub enum FilterType {
    NoFilter,
    Sub,
    Up,
    Average,
    Paeth,
    Adaptive,
}

impl FilterType {
    pub open spec fn spec_from_u8(v: u8) -> Option<FilterType> {
        if v == 0 {
            Some(FilterType::NoFilter)
        } else if v == 1 {
            Some(FilterType::Sub)
        } else if v == 2 {
            Some(FilterType::Up)
        } else if v == 3 {
            Some(FilterType::Average)
        } else if v == 4 {
            Some(FilterType::Paeth)
        } else if v == 5 {
            Some(FilterType::Adaptive)
        } else {
            None
        }
    }

    /// Decodes the header's filter-type byte.
    #[verifier::when_used_as_spec(spec_from_u8)]
    pub fn from_u8(v: u8) -> (res: Option<Self>)
        ensures
            res == Self::spec_from_u8(v),
            res is Some <==> v <= 5,
            res matches Some(t) ==> t.to_u8() == v,
    {
        match v {
            0 => Some(FilterType::NoFilter),
            1 => Some(FilterType::Sub),
            2 => Some(FilterType::Up),
            3 => Some(FilterType::Average),
            4 => Some(FilterType::Paeth),
            5 => Some(FilterType::Adaptive),
            _ => None,
        }
    }

    pub open spec fn spec_to_u8(self) -> u8 {
        match self {
            FilterType::NoFilter => 0,
            FilterType::Sub => 1,
            FilterType::Up => 2,
            FilterType::Average => 3,
            FilterType::Paeth => 4,
            FilterType::Adaptive => 5,
        }
    }

    /// The byte that encodes this filter type in the header.
    #[verifier::when_used_as_spec(spec_to_u8)]
    pub fn to_u8(self) -> (v: u8)
        ensures
            v == self.spec_to_u8(),
            Self::spec_from_u8(v) == Some(self),
            self == FilterType::NoFilter ==> v == 0,
            self == FilterType::Sub ==> v == 1,
            self == FilterType::Up ==> v == 2,
            self == FilterType::Average ==> v == 3,
            self == FilterType::Paeth ==> v == 4,
            self == FilterType::Adaptive ==> v == 5,
    {
        match self {
            FilterType::NoFilter => 0,
            FilterType::Sub => 1,
            FilterType::Up => 2,
            FilterType::Average => 3,
            FilterType::Paeth => 4,
            FilterType::Adaptive => 5,
        }
    }

    pub open spec fn spec_effective(self) -> FilterType {
        match self {
            FilterType::Adaptive => FilterType::Paeth,
            other => other,
        }
    }

    /// The filter a decoder applies for this header value: Adaptive is
    /// decoded as Paeth, every other filter as itself.
    #[verifier::when_used_as_spec(spec_effective)]
    pub fn effective(self) -> (f: FilterType)
        ensures
            f == self.spec_effective(),
            f != FilterType::Adaptive,
            self == FilterType::Adaptive ==> f == FilterType::Paeth,
            self != FilterType::Adaptive ==> f == self,
    {
        match self {
            FilterType::Adaptive => FilterType::Paeth,
            other => other,
        }
    }
}

/// Little-endian value of four bytes.
pub open spec fn le_u32(b0: u8, b1: u8, b2: u8, b3: u8) -> u32 {
    (b0 + 256 * b1 + 65536 * b2 + 16777216 * b3) as u32
}

/// Little-endian bytes of a `u32`.
pub open spec fn le_u32_bytes(v: u32) -> Seq<u8> {
    seq![
        (v % 256) as u8,
        ((v / 256) % 256) as u8,
        ((v / 65536) % 256) as u8,
        (v / 16777216) as u8,
    ]
}

/// Reading back the little-endian bytes of a `u32` gives the value.
pub proof fn lemma_le_u32_roundtrip(v: u32)
    ensures
        le_u32(le_u32_bytes(v)[0], le_u32_bytes(v)[1], le_u32_bytes(v)[2], le_u32_bytes(v)[3])
            == v,
{
}

/// Writes `v` as four little-endian bytes.
pub fn u32_to_le(v: u32) -> (b: [u8; 4])
    ensures
        b@ == le_u32_bytes(v),
{
    let b = [(v % 256) as u8, ((v / 256) % 256) as u8, ((v / 65536) % 256) as u8, (v / 16777216) as u8];
    assert(b@ =~= le_u32_bytes(v));
    b
}

/// Reads four little-endian bytes as a `u32`.
pub fn u32_from_le(b0: u8, b1: u8, b2: u8, b3: u8) -> (v: u32)
    ensures
        v == le_u32(b0, b1, b2, b3),
{
    b0 as u32 + 256 * (b1 as u32) + 65536 * (b2 as u32) + 16777216 * (b3 as u32)
}

#[derive(Debug, Clone, Copy, PartialEq, Eq, Structural)]
pub struct MpxHeader {
    pub color_type: ColorType,
    pub bit_depth: u8,
    pub filter_type: FilterType,
    pub width: u32,
    pub height: u32,
    pub flags: u8,
}

impl MpxHeader {
    pub open spec fn spec_channel_count(&self) -> usize {
        self.color_type.spec_channel_count()
    }

    /// Number of channels (planes) of the image.
    #[verifier::when_used_as_spec(spec_channel_count)]
    pub fn channel_count(&self) -> (n: usize)
        ensures
            n == self.spec_channel_count(),
            1 <= n <= 4,
    {
        self.color_type.channel_count()
    }

    pub open spec fn spec_bytes_per_sample(&self) -> usize {
        (self.bit_depth / 8) as usize
    }

    /// Bytes per sample of the raw pixels: bit_depth / 8.
    #[verifier::when_used_as_spec(spec_bytes_per_sample)]
    pub fn bytes_per_sample(&self) -> (n: usize)
        ensures
            n == self.spec_bytes_per_sample(),
            n == self.bit_depth / 8,
    {
        (self.bit_depth / 8) as usize
    }

    /// Number of pixels, width * height.
    pub open spec fn pixel_count(&self) -> int {
        self.width * self.height
    }

    /// Size in bytes of the raw interleaved pixel buffer.
    pub open spec fn pixel_bytes(&self) -> int {
        self.width * self.height * self.channel_count() * self.bytes_per_sample()
    }

    /// The raw pixel buffer's size fits in `usize`.
    pub open spec fn dims_fit(&self) -> bool {
        self.pixel_bytes() <= usize::MAX
    }

    /// Bytes of one row of one raw channel plane.
    pub open spec fn spec_plane_row_bytes(&self) -> int {
        self.width * self.bytes_per_sample()
    }

    /// Bytes of one raw channel plane.
    pub open spec fn spec_plane_bytes(&self) -> int {
        self.height * self.spec_plane_row_bytes()
    }

    /// width * bytes_per_sample.
    pub fn plane_row_bytes(&self) -> (n: usize)
        requires
            self.spec_plane_row_bytes() <= usize::MAX,
        ensures
            n == self.spec_plane_row_bytes(),
            n == self.width * (self.bit_depth / 8),
    {
        self.width as usize * self.bytes_per_sample()
    }

    /// height * width * bytes_per_sample.
    pub fn plane_bytes(&self) -> (n: usize)
        requires
            self.spec_plane_row_bytes() <= usize::MAX,
            self.spec_plane_bytes() <= usize::MAX,
        ensures
            n == self.spec_plane_bytes(),
            n == self.height * (self.width * (self.bit_depth / 8)),
    {
        self.height as usize * self.plane_row_bytes()
    }

    pub open spec fn spec_byte_plane_split(&self) -> bool {
        self.bit_depth == 16 && (self.flags & FLAG_BYTE_PLANE_SPLIT) != 0
    }

    /// Whether 16-bit samples are split into hi/lo byte planes.
    #[verifier::when_used_as_spec(spec_byte_plane_split)]
    pub fn byte_plane_split(&self) -> (b: bool)
        ensures
            b == self.spec_byte_plane_split(),
            b == (self.bit_depth == 16 && self.flags % 2 == 1),
    {
        proof {
            let f = self.flags;
            assert((f & 1 != 0) == (f % 2 == 1)) by (bit_vector);
        }
        self.bit_depth == 16 && (self.flags & FLAG_BYTE_PLANE_SPLIT) != 0
    }

    pub open spec fn spec_inter_channel_delta(&self) -> bool {
        (self.flags & FLAG_INTER_CHANNEL_DELTA) != 0
    }

    /// True when the simple G-R / B-G inter-channel delta is used.
    #[verifier::when_used_as_spec(spec_inter_channel_delta)]
    pub fn inter_channel_delta(&self) -> (b: bool)
        ensures
            b == self.spec_inter_channel_delta(),
            b == ((self.flags / 2) % 2 == 1),
    {
        proof {
            let f = self.flags;
            assert((f & 2 != 0) == ((f / 2) % 2 == 1)) by (bit_vector);
        }
        (self.flags & FLAG_INTER_CHANNEL_DELTA) != 0
    }

    pub open spec fn spec_use_ycocg(&self) -> bool {
        (self.flags & FLAG_YCOCG_R) != 0
    }

    /// True when the YCoCg-R lossless color transform is used.
    #[verifier::when_used_as_spec(spec_use_ycocg)]
    pub fn use_ycocg(&self) -> (b: bool)
        ensures
            b == self.spec_use_ycocg(),
            b == ((self.flags / 4) % 2 == 1),
    {
        proof {
            let f = self.flags;
            assert((f & 4 != 0) == ((f / 4) % 2 == 1)) by (bit_vector);
        }
        (self.flags & FLAG_YCOCG_R) != 0
    }

    /// The color transform the flags ask for can be carried out: YCoCg-R
    /// needs at least three channels of one byte per sample.
    pub open spec fn transform_supported(&self) -> bool {
        self.use_ycocg() ==> (self.channel_count() >= 3 && self.bytes_per_sample() == 1)
    }

    pub open spec fn spec_channel_bps(&self, ch: usize) -> usize {
        if self.use_ycocg() && (ch == 1 || ch == 2) {
            2
        } else {
            self.bytes_per_sample()
        }
    }

    /// Bytes per sample of channel plane `ch` after the color transform:
    /// the YCoCg-R chroma planes Co and Cg hold i16 samples (2 bytes).
    #[verifier::when_used_as_spec(spec_channel_bps)]
    pub fn channel_bps(&self, ch: usize) -> (n: usize)
        ensures
            n == self.spec_channel_bps(ch),
            n == if self.use_ycocg() && (ch == 1 || ch == 2) { 2 } else { self.bit_depth / 8 },
    {
        if self.use_ycocg() && (ch == 1 || ch == 2) {
            2
        } else {
            self.bytes_per_sample()
        }
    }

    /// Bytes of one row of channel plane `ch`.
    pub open spec fn spec_channel_plane_row_bytes(&self, ch: usize) -> int {
        self.width * self.channel_bps(ch)
    }

    /// Bytes of channel plane `ch`.
    pub open spec fn spec_channel_plane_bytes(&self, ch: usize) -> int {
        self.height * self.spec_channel_plane_row_bytes(ch)
    }

    /// width * channel_bps(ch).
    pub fn channel_plane_row_bytes(&self, ch: usize) -> (n: usize)
        requires
            self.spec_channel_plane_row_bytes(ch) <= usize::MAX,
        ensures
            n == self.spec_channel_plane_row_bytes(ch),
            n == self.width * self.channel_bps(ch),
    {
        self.width as usize * self.channel_bps(ch)
    }

    /// height * width * channel_bps(ch).
    pub fn channel_plane_bytes(&self, ch: usize) -> (n: usize)
        requires
            self.spec_channel_plane_row_bytes(ch) <= usize::MAX,
            self.spec_channel_plane_bytes(ch) <= usize::MAX,
        ensures
            n == self.spec_channel_plane_bytes(ch),
            n == self.height * (self.width * self.channel_bps(ch)),
    {
        self.height as usize * self.channel_plane_row_bytes(ch)
    }

    pub open spec fn spec_channel_needs_byte_split(&self, ch: usize) -> bool {
        self.byte_plane_split() || (self.use_ycocg() && (ch == 1 || ch == 2))
    }

    /// Whether channel plane `ch` is stored as separate hi/lo byte planes:
    /// every channel of a split 16-bit image, and the Co/Cg planes of YCoCg-R.
    #[verifier::when_used_as_spec(spec_channel_needs_byte_split)]
    pub fn channel_needs_byte_split(&self, ch: usize) -> (b: bool)
        ensures
            b == self.spec_channel_needs_byte_split(ch),
            b == (self.byte_plane_split() || (self.use_ycocg() && (ch == 1 || ch == 2))),
    {
        self.byte_plane_split() || (self.use_ycocg() && (ch == 1 || ch == 2))
    }

    /// Every per-channel plane is no larger than the raw pixel buffer, so
    /// its sizes fit in `usize` when the pixel buffer's does.
    pub proof fn lemma_channel_sizes_fit(&self, ch: usize)
        requires
            self.dims_fit(),
            self.bytes_per_sample() >= 1,
            ch < self.channel_count(),
        ensures
            0 <= self.spec_channel_plane_bytes(ch) <= self.pixel_bytes(),
            0 <= self.spec_channel_plane_row_bytes(ch),
            self.height >= 1 ==> self.spec_channel_plane_row_bytes(ch)
                <= self.spec_channel_plane_bytes(ch),
    {
        let w = self.width as int;
        let h = self.height as int;
        let c = self.channel_count() as int;
        let b = self.bytes_per_sample() as int;
        let cb = self.channel_bps(ch) as int;
        assert(cb <= c * b) by {
            if self.use_ycocg() && (ch == 1 || ch == 2) {
                assert(c >= 2);
                assert(c * b >= 2) by (nonlinear_arith)
                    requires c >= 2, b >= 1;
            } else {
                assert(c * b >= b) by (nonlinear_arith)
                    requires c >= 1, b >= 0;
            }
        }
        assert(0 <= w * cb) by (nonlinear_arith)
            requires w >= 0, cb >= 0;
        assert(0 <= h * (w * cb) <= w * h * c * b) by (nonlinear_arith)
            requires w >= 0, h >= 0, cb <= c * b, cb >= 0;
        assert(h >= 1 ==> w * cb <= h * (w * cb)) by (nonlinear_arith)
            requires w >= 0, h >= 0, cb >= 0;
    }

    /// The 32 bytes that `serialize` writes.
    pub open spec fn spec_serialize(&self) -> Seq<u8> {
        magic_seq() + seq![
            VERSION,
            self.color_type.to_u8(),
            self.bit_depth,
            self.filter_type.to_u8(),
        ] + le_u32_bytes(self.width) + le_u32_bytes(self.height) + seq![
            self.channel_count() as u8,
            self.flags,
        ] + Seq::new(14, |i: int| 0u8)
    }

    /// Writes the fixed 32-byte header: magic, version, color type, bit depth,
    /// filter type, width and height (u32 LE), channel count, flags, and 14
    /// zero bytes.
    pub fn serialize(&self) -> (buf: [u8; HEADER_SIZE])
        ensures
            buf@ == self.spec_serialize(),
            buf@.len() == HEADER_SIZE,
            buf@.len() == 32,
            buf@[0] == 0x4D && buf@[1] == 0x50 && buf@[2] == 0x58 && buf@[3] == 0,
            buf@[4] == 1,
            buf@[5] == self.color_type.to_u8(),
            buf@[6] == self.bit_depth,
            buf@[7] == self.filter_type.to_u8(),
            buf@[8] + 256 * buf@[9] + 65536 * buf@[10] + 16777216 * buf@[11] == self.width,
            buf@[12] + 256 * buf@[13] + 65536 * buf@[14] + 16777216 * buf@[15] == self.height,
            buf@[16] == self.color_type.to_u8() + 1,
            buf@[17] == self.flags,
            forall|i: int| 18 <= i < 32 ==> #[trigger] buf@[i] == 0,
    {
        let mut buf = [0u8; HEADER_SIZE];
        buf[0] = MAGIC[0];
        buf[1] = MAGIC[1];
        buf[2] = MAGIC[2];
        buf[3] = MAGIC[3];
        buf[4] = VERSION;
        buf[5] = self.color_type.to_u8();
        buf[6] = self.bit_depth;
        buf[7] = self.filter_type.to_u8();
        let w = u32_to_le(self.width);
        let h = u32_to_le(self.height);
        buf[8] = w[0];
        buf[9] = w[1];
        buf[10] = w[2];
        buf[11] = w[3];
        buf[12] = h[0];
        buf[13] = h[1];
        buf[14] = h[2];
        buf[15] = h[3];
        buf[16] = self.channel_count() as u8;
        buf[17] = self.flags;
        assert(buf@ =~= self.spec_serialize());
        proof {
            lemma_le_u32_roundtrip(self.width);
            lemma_le_u32_roundtrip(self.height);
        }
        buf
    }
}

/// What `MpxHeader::parse` returns for the bytes `data`.
pub open spec fn spec_parse_header(data: Seq<u8>) -> Result<MpxHeader, MpxError> {
    if data.len() < HEADER_SIZE {
        Err(MpxError::HeaderTooShort)
    } else if data.subrange(0, 4) != magic_seq() {
        Err(MpxError::NotMpx)
    } else if data[4] != VERSION {
        Err(MpxError::UnsupportedVersion(data[4]))
    } else if ColorType::from_u8(data[5]) is None {
        Err(MpxError::UnknownColorType(data[5]))
    } else if data[6] != 8 && data[6] != 16 {
        Err(MpxError::UnsupportedBitDepth(data[6]))
    } else if FilterType::from_u8(data[7]) is None {
        Err(MpxError::UnknownFilterType(data[7]))
    } else {
        let hdr = MpxHeader {
            color_type: ColorType::from_u8(data[5]).unwrap(),
            bit_depth: data[6],
            filter_type: FilterType::from_u8(data[7]).unwrap(),
            width: le_u32(data[8], data[9], data[10], data[11]),
            height: le_u32(data[12], data[13], data[14], data[15]),
            flags: data[17],
        };
        if hdr.width == 0 || hdr.height == 0 {
            Err(MpxError::ZeroDimension)
        } else if !hdr.dims_fit() {
            Err(MpxError::DimensionsOverflow)
        } else {
            Ok(hdr)
        }
    }
}

impl MpxHeader {
    /// A header as `parse` accepts it: nonzero dimensions, 8 or 16 bits,
    /// and a pixel buffer size that fits in `usize`.
    pub open spec fn valid(&self) -> bool {
        &&& self.width > 0
        &&& self.height > 0
        &&& (self.bit_depth == 8 || self.bit_depth == 16)
        &&& self.dims_fit()
    }

    /// Reads and checks the fixed header at the start of `data`.
    pub fn parse(data: &[u8]) -> (res: Result<Self, MpxError>)
        ensures
            res == spec_parse_header(data@),
            res matches Ok(h) ==> h.valid(),
            data@.len() < 32 ==> res == Err::<Self, MpxError>(MpxError::HeaderTooShort),
            res is Ok <==> ({
                let w = data@[8] + 256 * data@[9] + 65536 * data@[10] + 16777216 * data@[11];
                let h = data@[12] + 256 * data@[13] + 65536 * data@[14] + 16777216 * data@[15];
                &&& data@.len() >= 32
                &&& data@[0] == 0x4D && data@[1] == 0x50 && data@[2] == 0x58 && data@[3] == 0
                &&& data@[4] == 1
                &&& data@[5] <= 3
                &&& (data@[6] == 8 || data@[6] == 16)
                &&& data@[7] <= 5
                &&& w > 0 && h > 0
                &&& w * h * (data@[5] + 1) * (data@[6] / 8) <= usize::MAX
            }),
            res matches Ok(h) ==> {
                &&& h.color_type.to_u8() == data@[5]
                &&& h.bit_depth == data@[6]
                &&& h.filter_type.to_u8() == data@[7]
                &&& h.width == data@[8] + 256 * data@[9] + 65536 * data@[10] + 16777216 * data@[11]
                &&& h.height == data@[12] + 256 * data@[13] + 65536 * data@[14] + 16777216 * data@[15]
                &&& h.flags == data@[17]
            },
    {
        if data.len() < HEADER_SIZE {
            return Err(MpxError::HeaderTooShort);
        }
        if data[0] != MAGIC[0] || data[1] != MAGIC[1] || data[2] != MAGIC[2] || data[3] != MAGIC[3] {
            assert(data@.subrange(0, 4) != magic_seq()) by {
                if data@.subrange(0, 4) == magic_seq() {
                    assert(data@.subrange(0, 4)[0] == data@[0]);
                    assert(data@.subrange(0, 4)[1] == data@[1]);
                    assert(data@.subrange(0, 4)[2] == data@[2]);
                    assert(data@.subrange(0, 4)[3] == data@[3]);
                }
            }
            return Err(MpxError::NotMpx);
        }
        assert(data@.subrange(0, 4) =~= magic_seq());
        if data[4] != VERSION {
            return Err(MpxError::UnsupportedVersion(data[4]));
        }
        let color_type = match ColorType::from_u8(data[5]) {
            Some(c) => c,
            None => {
                return Err(MpxError::UnknownColorType(data[5]));
            },
        };
        let bit_depth = data[6];
        if bit_depth != 8 && bit_depth != 16 {
            return Err(MpxError::UnsupportedBitDepth(bit_depth));
        }
        let filter_type = match FilterType::from_u8(data[7]) {
            Some(f) => f,
            None => {
                return Err(MpxError::UnknownFilterType(data[7]));
            },
        };
        let width = u32_from_le(data[8], data[9], data[10], data[11]);
        let height = u32_from_le(data[12], data[13], data[14], data[15]);
        let flags = data[17];
        if width == 0 || height == 0 {
            return Err(MpxError::ZeroDimension);
        }
        let hdr = MpxHeader { color_type, bit_depth, filter_type, width, height, flags };
        let channels = color_type.channel_count();
        let bps = (bit_depth / 8) as usize;
        let w = width as usize;
        let h = height as usize;
        proof {
            lemma_product_fits_prefixes(w as int, h as int, channels as int, bps as int);
        }
        match w.checked_mul(h) {
            None => {
                return Err(MpxError::DimensionsOverflow);
            },
            Some(wh) => match wh.checked_mul(channels) {
                None => {
                    return Err(MpxError::DimensionsOverflow);
                },
                Some(whc) => match whc.checked_mul(bps) {
                    None => {
                        return Err(MpxError::DimensionsOverflow);
                    },
                    Some(_) => {},
                },
            },
        }
        Ok(hdr)
    }
}

/// With factors of at least one, the full product bounds every prefix product.
pub proof fn lemma_product_fits_prefixes(w: int, h: int, c: int, b: int)
    requires
        w >= 0,
        h >= 0,
        c >= 1,
        b >= 1,
    ensures
        w * h <= w * h * c,
        w * h * c <= w * h * c * b,
        w * h >= 0,
{
    assert(w * h >= 0) by (nonlinear_arith)
        requires w >= 0, h >= 0;
    assert(w * h <= w * h * c) by (nonlinear_arith)
        requires w * h >= 0, c >= 1;
    assert(w * h * c <= w * h * c * b) by (nonlinear_arith)
        requires w * h >= 0, c >= 1, b >= 1;
}

/// Parsing what `serialize` wrote gives the header back.
pub proof fn lemma_parse_serialize(h: MpxHeader)
    requires
        h.valid(),
    ensures
        spec_parse_header(h.spec_serialize()) == Ok::<MpxHeader, MpxError>(h),
{
    let s = h.spec_serialize();
    lemma_le_u32_roundtrip(h.width);
    lemma_le_u32_roundtrip(h.height);
    assert(s.subrange(0, 4) =~= magic_seq());
    assert(s[5] == h.color_type.to_u8());
    assert(s[7] == h.filter_type.to_u8());
    assert(s[8] == le_u32_bytes(h.width)[0]);
    assert(s[9] == le_u32_bytes(h.width)[1]);
    assert(s[10] == le_u32_bytes(h.width)[2]);
    assert(s[11] == le_u32_bytes(h.width)[3]);
    assert(s[12] == le_u32_bytes(h.height)[0]);
    assert(s[13] == le_u32_bytes(h.height)[1]);
    assert(s[14] == le_u32_bytes(h.height)[2]);
    assert(s[15] == le_u32_bytes(h.height)[3]);
    assert(s[17] == h.flags);
}

} // verus!
