use mpx::first_difference;
use mpx::samples::{le_bytes_to_u16_samples, u16_samples_to_le_bytes};

#[test]
fn u16_samples_write_low_byte_first() {
    assert_eq!(u16_samples_to_le_bytes(&[0x1234, 0x00ff, 0xff00]), vec![0x34, 0x12, 0xff, 0x00, 0x00, 0xff]);
    assert_eq!(u16_samples_to_le_bytes(&[]), Vec::<u8>::new());
}

#[test]
fn le_bytes_read_as_u16_samples() {
    assert_eq!(le_bytes_to_u16_samples(&[0x34, 0x12, 0xff, 0x00]), vec![0x1234, 0x00ff]);
    // a trailing odd byte is not a sample
    assert_eq!(le_bytes_to_u16_samples(&[1, 2, 3]), vec![0x0201]);
}

#[test]
fn u16_samples_roundtrip_through_bytes() {
    let samples: Vec<u16> = (0..1000u32).map(|i| (i * 7919 % 65536) as u16).collect();
    let bytes = u16_samples_to_le_bytes(&samples);
    assert_eq!(bytes.len(), 2 * samples.len());
    assert_eq!(le_bytes_to_u16_samples(&bytes), samples);
    assert_eq!(u16_samples_to_le_bytes(&le_bytes_to_u16_samples(&bytes)), bytes);
}

#[test]
fn first_difference_finds_the_first_mismatch() {
    assert_eq!(first_difference(&[1, 2, 3, 4], &[1, 2, 9, 8]), Some(2));
    assert_eq!(first_difference(&[5], &[6, 7]), Some(0));
    assert_eq!(first_difference(&[1, 2], &[1, 2, 3]), None);
    assert_eq!(first_difference(&[], &[]), None);
}
