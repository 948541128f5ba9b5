//! Frames on the wire.
use airferry::qr_protocol::{Error, Frame, FrameHeader, FRAME_HEADER_SIZE};

fn sample_payload(len: usize) -> Vec<u8> {
    (0..len).map(|i| (i & 0xff) as u8).collect()
}

#[test]
fn header_size_is_60() {
    let payload = sample_payload(1024);
    let frame = Frame::build(1, 0, 0, 5, 3, 100, 1024, 42, 99000, &payload);
    let mut buf = Vec::new();
    frame.header.write_bytes(&mut buf);
    assert_eq!(buf.len(), FRAME_HEADER_SIZE);
    assert_eq!(FRAME_HEADER_SIZE, 60);
}

#[test]
fn round_trip_frame() {
    let payload = sample_payload(1024);
    let frame = Frame::build(
        0x1122334455667788,
        0,
        2,
        7,
        4,
        256,
        1024,
        999,
        123456,
        &payload,
    );
    let bytes = frame.to_bytes();
    assert_eq!(bytes.len(), Frame::wire_size(1024));
    let parsed = Frame::from_bytes(&bytes).unwrap();
    assert_eq!(parsed, frame);
}

#[test]
fn rejects_bad_magic() {
    let payload = sample_payload(1024);
    let mut bytes = Frame::build(1, 0, 0, 0, 1, 1, 1024, 0, 0, &payload).to_bytes();
    bytes[0] = 0x00;
    assert!(matches!(
        Frame::from_bytes(&bytes).unwrap_err(),
        Error::BadMagic { .. }
    ));
}

#[test]
fn rejects_payload_corruption() {
    let payload = sample_payload(1024);
    let mut bytes = Frame::build(1, 0, 0, 0, 1, 1, 1024, 0, 0, &payload).to_bytes();
    bytes[FRAME_HEADER_SIZE] ^= 0xFF;
    assert!(matches!(
        Frame::from_bytes(&bytes).unwrap_err(),
        Error::PayloadCrcMismatch
    ));
}

#[test]
fn rejects_footer_corruption() {
    let payload = sample_payload(1024);
    let mut bytes = Frame::build(1, 0, 0, 0, 1, 1, 1024, 0, 0, &payload).to_bytes();
    let last = bytes.len() - 1;
    bytes[last] ^= 0xFF;
    assert!(matches!(
        Frame::from_bytes(&bytes).unwrap_err(),
        Error::FrameCrcMismatch
    ));
}

#[test]
fn rejects_too_short() {
    let err = Frame::from_bytes(&[0u8; 10]).unwrap_err();
    assert!(matches!(err, Error::BufferTooShort { .. }));
}

#[test]
fn rejects_huge_declared_symbol_size_without_overflow() {
    let mut bytes = Frame::build(1, 0, 0, 0, 1, 1, 0, 0, 0, &[]).to_bytes();
    bytes[36..40].copy_from_slice(&u32::MAX.to_be_bytes());
    assert!(matches!(
        Frame::from_bytes(&bytes).unwrap_err(),
        Error::LengthMismatch { .. }
    ));
}

#[test]
fn wire_layout_is_fixed() {
    let frame = Frame::build(0x0102, 1, 2, 3, 4, 5, 4, 6, 7, &[0xAA, 0xBB, 0xCC, 0xDD]);
    let bytes = frame.to_bytes();
    assert_eq!(bytes.len(), 68);
    assert_eq!(bytes[..4], [0x45, 0x54, 1, 1]);
    assert_eq!(bytes[18..20], [1, 2]);
    assert_eq!(bytes[20..40], [0, 0, 0, 2, 0, 0, 0, 3, 0, 0, 0, 4, 0, 0, 0, 5, 0, 0, 0, 4]);
    assert_eq!(bytes[47], 6);
    assert_eq!(bytes[55], 7);
    assert_eq!(bytes[60..64], [0xAA, 0xBB, 0xCC, 0xDD]);
    let header = FrameHeader::read_bytes(&bytes).unwrap();
    assert_eq!(header, frame.header);
}

#[test]
fn every_changed_byte_is_noticed() {
    let bytes = Frame::build(9, 0, 0, 1, 1, 1, 8, 0, 0, &[5; 8]).to_bytes();
    for at in 0..bytes.len() {
        let mut changed = bytes.clone();
        changed[at] ^= 0x04;
        assert!(Frame::from_bytes(&changed).is_err(), "byte {at}");
    }
}

#[test]
fn parsed_frame_serializes_to_the_same_bytes() {
    let bytes = Frame::build(9, 1, 2, 3, 4, 5, 8, 6, 7, &[5; 8]).to_bytes();
    assert_eq!(Frame::from_bytes(&bytes).unwrap().to_bytes(), bytes);
}

#[test]
fn rejections_tell_the_numbers() {
    let bytes = Frame::build(1, 0, 0, 0, 1, 1, 8, 0, 0, &[0; 8]).to_bytes();
    let mut version = bytes.clone();
    version[2] = 9;
    assert!(matches!(Frame::from_bytes(&version), Err(Error::BadVersion(9))));
    assert!(matches!(
        Frame::from_bytes(&bytes[..71]),
        Err(Error::LengthMismatch { expected: 72, actual: 71 })
    ));
    assert!(matches!(
        Frame::from_bytes(&bytes[..63]),
        Err(Error::BufferTooShort { need: 64, have: 63 })
    ));
    let mut magic = bytes.clone();
    magic[1] = 0;
    assert!(matches!(
        Frame::from_bytes(&magic),
        Err(Error::BadMagic { expected: 0x4554, got: 0x4500 })
    ));
}
