use mpx::color::{delta, rgb_to_ycocg, undelta, ycocg_to_rgb};
use mpx::decode::Decoder;
use mpx::encode::{encode, encode_container};
use mpx::filter::{filter_plane, unfilter_plane};
use mpx::layout::{deinterleave_pixels, interleave_planes, merge_byte_planes, split_byte_planes};
use mpx::{encode_image, ColorType, FilterType, MpxError, MpxHeader, HEADER_SIZE};

fn header(color_type: ColorType, bit_depth: u8, filter: FilterType, w: u32, h: u32, flags: u8) -> MpxHeader {
    MpxHeader { color_type, bit_depth, filter_type: filter, width: w, height: h, flags }
}

fn valid_header_bytes() -> Vec<u8> {
    header(ColorType::Rgb, 8, FilterType::Paeth, 2, 2, 0).serialize().to_vec()
}

// ── Header ───────────────────────────────────────────────────────────────────

#[test]
fn header_serialize_exact_bytes() {
    let h = header(ColorType::Rgb, 8, FilterType::Paeth, 0x0102_0304, 5, 4);
    let b = h.serialize();
    let mut expected = vec![0x4D, 0x50, 0x58, 0x00, 1, 2, 8, 4, 4, 3, 2, 1, 5, 0, 0, 0, 3, 4];
    expected.extend_from_slice(&[0u8; 14]);
    assert_eq!(b.to_vec(), expected);
    assert_eq!(b.len(), HEADER_SIZE);
}

#[test]
fn header_parse_serialize_roundtrip() {
    for (ct, bd, f, flags) in [
        (ColorType::Gray, 8, FilterType::NoFilter, 0u8),
        (ColorType::GrayA, 16, FilterType::Sub, 1),
        (ColorType::Rgb, 8, FilterType::Average, 4),
        (ColorType::Rgba, 8, FilterType::Adaptive, 2),
    ] {
        let h = header(ct, bd, f, 640, 480, flags);
        assert_eq!(MpxHeader::parse(&h.serialize()), Ok(h));
    }
}

#[test]
fn header_parse_errors() {
    let good = valid_header_bytes();
    assert_eq!(MpxHeader::parse(&good[..31]), Err(MpxError::HeaderTooShort));
    let mut d = good.clone();
    d[2] = b'Y';
    assert_eq!(MpxHeader::parse(&d), Err(MpxError::NotMpx));
    let mut d = good.clone();
    d[4] = 99;
    assert_eq!(MpxHeader::parse(&d), Err(MpxError::UnsupportedVersion(99)));
    let mut d = good.clone();
    d[5] = 9;
    assert_eq!(MpxHeader::parse(&d), Err(MpxError::UnknownColorType(9)));
    let mut d = good.clone();
    d[6] = 7;
    assert_eq!(MpxHeader::parse(&d), Err(MpxError::UnsupportedBitDepth(7)));
    let mut d = good.clone();
    d[7] = 6;
    assert_eq!(MpxHeader::parse(&d), Err(MpxError::UnknownFilterType(6)));
    let mut d = good.clone();
    d[12] = 0;
    assert_eq!(MpxHeader::parse(&d), Err(MpxError::ZeroDimension));
    // checks run in order: a bad version is reported before a bad color type
    let mut d = good.clone();
    d[4] = 2;
    d[5] = 9;
    assert_eq!(MpxHeader::parse(&d), Err(MpxError::UnsupportedVersion(2)));
}

#[test]
fn header_dimension_overflow_is_rejected() {
    if usize::BITS == 64 {
        let h = header(ColorType::Rgba, 16, FilterType::Paeth, u32::MAX, u32::MAX, 0);
        assert_eq!(MpxHeader::parse(&h.serialize()), Err(MpxError::DimensionsOverflow));
    }
}

#[test]
fn header_derived_sizes() {
    let h = header(ColorType::Rgb, 8, FilterType::Paeth, 10, 3, 4);
    assert_eq!(h.channel_count(), 3);
    assert_eq!(h.bytes_per_sample(), 1);
    assert_eq!(h.plane_row_bytes(), 10);
    assert_eq!(h.plane_bytes(), 30);
    assert!(h.use_ycocg());
    assert!(!h.inter_channel_delta());
    assert!(!h.byte_plane_split());
    // YCoCg-R chroma planes hold i16 samples
    assert_eq!(h.channel_bps(0), 1);
    assert_eq!(h.channel_bps(1), 2);
    assert_eq!(h.channel_plane_row_bytes(2), 20);
    assert_eq!(h.channel_plane_bytes(2), 60);
    assert!(h.channel_needs_byte_split(1));
    assert!(!h.channel_needs_byte_split(0));
    let h16 = header(ColorType::GrayA, 16, FilterType::Sub, 4, 4, 1);
    assert!(h16.byte_plane_split());
    assert!(h16.channel_needs_byte_split(0) && h16.channel_needs_byte_split(1));
    assert_eq!(h16.channel_plane_bytes(1), 32);
}

#[test]
fn enums_from_and_to_bytes() {
    for v in 0u8..=3 {
        assert_eq!(ColorType::from_u8(v).unwrap().to_u8(), v);
    }
    assert_eq!(ColorType::from_u8(4), None);
    for v in 0u8..=5 {
        assert_eq!(FilterType::from_u8(v).unwrap().to_u8(), v);
    }
    assert_eq!(FilterType::from_u8(6), None);
    assert_eq!(FilterType::Adaptive.effective(), FilterType::Paeth);
    assert_eq!(FilterType::Up.effective(), FilterType::Up);
    assert_eq!(ColorType::Rgba.channel_count(), 4);
}

// ── Flags chosen by encode_image ─────────────────────────────────────────────

#[test]
fn encode_image_chooses_flags() {
    let rgb = vec![1u8; 2 * 2 * 3];
    let (h, _) = encode_image(2, 2, ColorType::Rgb, 8, FilterType::Paeth, &rgb, true).unwrap();
    assert_eq!(h.flags, mpx::FLAG_YCOCG_R);
    let (h, _) = encode_image(2, 2, ColorType::Rgb, 8, FilterType::Paeth, &rgb, false).unwrap();
    assert_eq!(h.flags, mpx::FLAG_INTER_CHANNEL_DELTA);
    let gray16 = vec![1u8; 2 * 2 * 2];
    let (h, _) = encode_image(2, 2, ColorType::Gray, 16, FilterType::Paeth, &gray16, true).unwrap();
    assert_eq!(h.flags, mpx::FLAG_BYTE_PLANE_SPLIT);
    let graya = vec![1u8; 2 * 2 * 2];
    let (h, _) = encode_image(2, 2, ColorType::GrayA, 8, FilterType::Paeth, &graya, true).unwrap();
    assert_eq!(h.flags, 0);
}

#[test]
fn encode_rejects_wrong_pixel_buffer_size() {
    let px = vec![0u8; 11];
    let r = encode_image(2, 2, ColorType::Rgb, 8, FilterType::Paeth, &px, true);
    assert_eq!(r.err(), Some(MpxError::PixelBufferSize { expected: 12, got: 11 }));
}

#[test]
fn encode_planes_exact_for_tiny_image() {
    // 2x1 RGB, no transform, Sub filter: each plane is [v0, v1 - v0]
    let h = header(ColorType::Rgb, 8, FilterType::Sub, 2, 1, 0);
    let planes = encode(&h, &[10, 20, 30, 15, 27, 29]).unwrap();
    assert_eq!(planes, vec![vec![10, 5], vec![20, 7], vec![30, 255]]);
}

#[test]
fn wrong_buffer_size_is_reported_for_any_depth_and_flags() {
    // bit depths the filter cannot run on still get the size error
    let px = vec![0u8; 5];
    let r = encode_image(2, 2, ColorType::Rgb, 24, FilterType::Paeth, &px, true);
    assert_eq!(r.err(), Some(MpxError::PixelBufferSize { expected: 36, got: 5 }));
    let r = encode_image(2, 2, ColorType::Gray, 4, FilterType::Sub, &px, false);
    assert_eq!(r.err(), Some(MpxError::PixelBufferSize { expected: 0, got: 5 }));
    // and so do headers asking for YCoCg-R on too few channels or 16-bit samples
    let h = header(ColorType::GrayA, 8, FilterType::Paeth, 2, 2, mpx::FLAG_YCOCG_R);
    assert_eq!(encode(&h, &px).err(), Some(MpxError::PixelBufferSize { expected: 8, got: 5 }));
    let h = header(ColorType::Rgb, 16, FilterType::Paeth, 1, 1, mpx::FLAG_YCOCG_R);
    assert_eq!(encode(&h, &px).err(), Some(MpxError::PixelBufferSize { expected: 6, got: 5 }));
}

#[test]
fn encode_images_without_pixels_give_empty_planes() {
    // no columns: every plane is empty, whatever the flags and sample size
    let h = header(ColorType::Rgba, 16, FilterType::Adaptive, 0, 3, mpx::FLAG_YCOCG_R);
    assert_eq!(encode(&h, &[]).unwrap(), vec![Vec::<u8>::new(); 4]);
    // no rows
    let h = header(ColorType::Gray, 8, FilterType::Paeth, 5, 0, 0);
    assert_eq!(encode(&h, &[]).unwrap(), vec![Vec::<u8>::new()]);
    // a buffer for an empty image must itself be empty
    assert_eq!(encode(&h, &[1]).err(), Some(MpxError::PixelBufferSize { expected: 0, got: 1 }));
}

#[test]
fn encode_planes_with_inter_channel_delta() {
    // 1x1 RGB with ICD, no filter: G - R, B - G of the original values
    let h = header(ColorType::Rgb, 8, FilterType::NoFilter, 1, 1, mpx::FLAG_INTER_CHANNEL_DELTA);
    let planes = encode(&h, &[10, 30, 25]).unwrap();
    assert_eq!(planes, vec![vec![10], vec![20], vec![251]]);
}

#[test]
fn encode_planes_with_ycocg() {
    // 1x1 RGB (200, 100, 50) with YCoCg-R, no filter:
    // Co = 150, t = 125, Cg = -25, Y = 125 + (-13) = 112; Co/Cg split hi|lo
    let h = header(ColorType::Rgb, 8, FilterType::NoFilter, 1, 1, mpx::FLAG_YCOCG_R);
    let planes = encode(&h, &[200, 100, 50]).unwrap();
    assert_eq!(planes, vec![vec![112], vec![0, 150], vec![0xFF, 0xE7]]);
}

// ── Layout and transforms ─────────────────────────────────────────────────────

#[test]
fn deinterleave_and_interleave() {
    let px = [1u8, 2, 3, 4, 5, 6];
    let planes = deinterleave_pixels(&px, 2, 3, 1);
    assert_eq!(planes, vec![vec![1, 4], vec![2, 5], vec![3, 6]]);
    assert_eq!(interleave_planes(&planes, 2, 3, 1), px.to_vec());
    // two 16-bit channels, two pixels
    let px16 = [1u8, 2, 3, 4, 5, 6, 7, 8];
    let planes16 = deinterleave_pixels(&px16, 2, 2, 2);
    assert_eq!(planes16, vec![vec![1, 2, 5, 6], vec![3, 4, 7, 8]]);
    assert_eq!(interleave_planes(&planes16, 2, 2, 2), px16.to_vec());
}

#[test]
fn byte_plane_split_and_merge() {
    let plane = vec![1u8, 2, 3, 4, 5, 6];
    let split = split_byte_planes(&plane);
    assert_eq!(split, vec![2, 4, 6, 1, 3, 5]);
    assert_eq!(merge_byte_planes(&split), plane);
}

#[test]
fn ycocg_exact_values_and_inverse() {
    let (y, co, cg) = rgb_to_ycocg(&vec![200, 0, 255], &vec![100, 255, 255], &vec![50, 0, 0]);
    // pixel 0: Y=112, Co=150, Cg=-25; pixel 1: Co=0, t=0, Cg=255, Y=127;
    // pixel 2: Co=255, t=127, Cg=128, Y=191
    assert_eq!(y, vec![112, 127, 191]);
    assert_eq!(co, vec![150, 0, 0, 0, 255, 0]);
    assert_eq!(cg, vec![0xE7, 0xFF, 255, 0, 128, 0]);
    let (r, g, b) = ycocg_to_rgb(&y, &co, &cg);
    assert_eq!(r, vec![200, 0, 255]);
    assert_eq!(g, vec![100, 255, 255]);
    assert_eq!(b, vec![50, 0, 0]);
}

#[test]
fn ycocg_inverse_clamps_corrupt_samples() {
    // Y=0, Co=0, Cg=+600: t = -300, G = 300 → clamped to 255, B = R = -300 → 0
    let (r, g, b) = ycocg_to_rgb(&vec![0], &vec![0, 0], &vec![0x58, 0x02]);
    assert_eq!((r[0], g[0], b[0]), (0, 255, 0));
}

#[test]
fn delta_and_undelta() {
    let prev = vec![10u8, 200, 7];
    let cur = vec![5u8, 100, 9];
    let d = delta(&cur, &prev, 2);
    assert_eq!(d, vec![251, 156, 9]);
    assert_eq!(undelta(&d, &prev, 2), cur);
}

#[test]
fn plane_filter_roundtrip_and_row_order() {
    // 3 rows of 4 bytes, Up filter: row 0 against zeros, then row differences
    let plane = vec![1u8, 2, 3, 4, 5, 5, 5, 5, 0, 0, 0, 9];
    let f = filter_plane(FilterType::Up, &plane, 4, 3, 1);
    assert_eq!(f, vec![1, 2, 3, 4, 4, 3, 2, 1, 251, 251, 251, 4]);
    assert_eq!(unfilter_plane(FilterType::Up, &f, 4, 3, 1), plane);
}

// ── Container and decoder ─────────────────────────────────────────────────────

#[test]
fn container_exact_bytes() {
    let h = header(ColorType::Gray, 8, FilterType::NoFilter, 2, 1, 0);
    let file = encode_container(&h, &vec![vec![7u8, 8, 9]]);
    let mut expected = h.serialize().to_vec();
    expected.extend_from_slice(&[3, 0, 0, 0, 7, 8, 9]);
    assert_eq!(file, expected);
}

#[test]
fn decoder_locates_blocks() {
    let h = header(ColorType::GrayA, 8, FilterType::NoFilter, 2, 1, 0);
    let file = encode_container(&h, &vec![vec![1u8, 2, 3], vec![4u8]]);
    let mut d = Decoder::new(&file).unwrap();
    assert_eq!(d.header(), h);
    assert!(!d.is_complete());
    assert_eq!(d.next_block(&file), Ok((36, 39)));
    assert_eq!(d.accept_plane(vec![5, 6]), Ok(()));
    assert_eq!(d.next_block(&file), Ok((43, 44)));
    assert_eq!(d.accept_plane(vec![7, 8]), Ok(()));
    assert!(d.is_complete());
    let (hh, px) = d.finish();
    assert_eq!(hh, h);
    assert_eq!(px, vec![5, 7, 6, 8]);
}

#[test]
fn decoder_reports_truncated_block_header() {
    let file = valid_header_bytes();
    let mut d = Decoder::new(&file).unwrap();
    assert_eq!(d.next_block(&file), Err(MpxError::BlockHeaderTruncated { channel: 0 }));
    let mut file2 = valid_header_bytes();
    file2.extend_from_slice(&[1, 0]);
    let mut d2 = Decoder::new(&file2).unwrap();
    assert_eq!(d2.next_block(&file2), Err(MpxError::BlockHeaderTruncated { channel: 0 }));
}

#[test]
fn decoder_reports_truncated_block_data() {
    let mut file = valid_header_bytes();
    file.extend_from_slice(&[100, 0, 0, 0, 1, 2, 3]);
    let mut d = Decoder::new(&file).unwrap();
    assert_eq!(d.next_block(&file), Err(MpxError::BlockDataTruncated { channel: 0 }));
}

#[test]
fn decoder_reports_plane_size_mismatch() {
    let h = header(ColorType::Rgb, 8, FilterType::Paeth, 2, 2, 0);
    let file = encode_container(&h, &vec![vec![0u8; 4], vec![0u8; 4], vec![0u8; 4]]);
    let mut d = Decoder::new(&file).unwrap();
    d.next_block(&file).unwrap();
    assert_eq!(d.accept_plane(vec![0u8; 4]), Ok(()));
    d.next_block(&file).unwrap();
    assert_eq!(
        d.accept_plane(vec![0u8; 5]),
        Err(MpxError::PlaneSize { channel: 1, got: 5, expected: 4 })
    );
}

#[test]
fn decoder_ignores_trailing_bytes() {
    let h = header(ColorType::Gray, 8, FilterType::NoFilter, 1, 1, 0);
    let mut file = encode_container(&h, &vec![vec![42u8]]);
    file.extend_from_slice(&[1, 2, 3]);
    let mut d = Decoder::new(&file).unwrap();
    let (s, e) = d.next_block(&file).unwrap();
    d.accept_plane(file[s..e].to_vec()).unwrap();
    assert_eq!(d.finish().1, vec![42]);
}

#[test]
fn adaptive_with_varied_rows_is_not_reversible() {
    // Adaptive picks a filter per row but the decoder undoes Paeth on every
    // row; here Up wins the first row, so the pixels come back different.
    let px: Vec<u8> = vec![228, 249, 172, 10, 66, 79, 120, 211];
    let h = header(ColorType::Gray, 8, FilterType::Adaptive, 4, 2, 0);
    let planes = encode(&h, &px).unwrap();
    let rebuilt = mpx::decode(&h, planes);
    assert_ne!(rebuilt, px);
}
