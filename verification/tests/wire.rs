//! Integers on the wire.
use airferry::wire;

#[test]
fn big_endian_integers_read_back() {
    let mut out = Vec::new();
    wire::push_u16(&mut out, 0x0102);
    wire::push_u32(&mut out, 0x0304_0506);
    wire::push_u64(&mut out, 0x0708_090A_0B0C_0D0E);
    wire::push_u128(&mut out, 0x0F10_1112_1314_1516_1718_191A_1B1C_1D1E);
    let expected: Vec<u8> = (1..=30).collect();
    assert_eq!(out, expected);
    assert_eq!(wire::read_u16(&out, 0), 0x0102);
    assert_eq!(wire::read_u32(&out, 2), 0x0304_0506);
    assert_eq!(wire::read_u64(&out, 6), 0x0708_090A_0B0C_0D0E);
    assert_eq!(wire::read_u128(&out, 14), 0x0F10_1112_1314_1516_1718_191A_1B1C_1D1E);
    assert_eq!(wire::read_12(&out, 3)[..], expected[3..15]);
}

#[test]
fn little_endian_integers() {
    let mut out = Vec::new();
    wire::push_u32_le(&mut out, 0x0403_0201);
    wire::push_u64_le(&mut out, 0x0C0B_0A09_0807_0605);
    let expected: Vec<u8> = (1..=12).collect();
    assert_eq!(out, expected);
}

#[test]
fn bytes_are_written_over_a_buffer() {
    let mut buf = [9u8; 6];
    wire::overlay(&mut buf, 2, &[1, 2]);
    assert_eq!(buf, [9, 9, 1, 2, 9, 9]);
    let bytes: Vec<u8> = (0..40).collect();
    assert_eq!(wire::read_32(&bytes, 4)[..], bytes[4..36]);
    assert_eq!(wire::copy_of(&bytes), bytes);
}

#[test]
fn same_bytes_compares_contents() {
    assert!(wire::same_bytes(&[1, 2], &[1, 2]));
    assert!(!wire::same_bytes(&[1, 2], &[1, 3]));
    assert!(!wire::same_bytes(&[1, 2], &[1, 2, 3]));
}
