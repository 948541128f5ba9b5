//! QR codes.
use airferry::qr_protocol::qr_render::{encode, min_version_for, QR_MAX_BYTES};
use airferry::qr_protocol::{Error, Frame};

#[test]
fn encodes_frame_sized_payload() {
    let data = vec![0u8; 1088];
    let m = encode(&data).unwrap();
    assert_eq!(m.size, 109);
    assert_eq!(m.modules.len(), 109 * 109);
}

#[test]
fn encodes_all_sender_symbol_sizes() {
    let cases: [(usize, usize); 5] = [
        (512, 81),
        (896, 105),
        (1008, 109),
        (1024, 109),
        (1400, 125),
    ];
    for &(sym_size, expected_side) in &cases {
        let frame = Frame::build(
            0u128,
            0,
            1,
            1,
            1,
            10,
            sym_size as u32,
            1,
            1234567,
            &vec![0u8; sym_size],
        );
        let bytes = frame.to_bytes();
        let m = encode(&bytes).unwrap();
        assert_eq!(
            m.size,
            expected_side,
            "symbol_size={} frame ({} wire bytes) expected side {}, got {}",
            sym_size,
            bytes.len(),
            expected_side,
            m.size
        );
        assert_eq!(m.modules.len(), expected_side * expected_side);
    }
}

#[test]
fn picks_minimal_version() {
    assert_eq!(min_version_for(1088), Some(23));
    assert_eq!(min_version_for(576), Some(16));
    assert_eq!(min_version_for(17), Some(1));
    assert_eq!(min_version_for(QR_MAX_BYTES), Some(40));
    assert_eq!(min_version_for(QR_MAX_BYTES + 1), None);
}

#[test]
fn rejects_oversized_payload() {
    let data = vec![0u8; QR_MAX_BYTES + 1];
    assert!(encode(&data).is_err());
}

#[test]
fn deterministic_encoding() {
    let data = vec![42u8; 500];
    let a = encode(&data).unwrap();
    let b = encode(&data).unwrap();
    assert_eq!(a.modules, b.modules);
}

#[test]
fn code_has_its_finder_patterns() {
    let m = encode(b"AirFerry").unwrap();
    assert_eq!(m.size, 21);
    for i in 0..7 {
        assert!(m.get(i, 0) && m.get(i, 6) && m.get(0, i) && m.get(6, i));
        assert!(m.get(20 - i, 0) && m.get(20, i));
        assert!(m.get(i, 20) && m.get(0, 20 - i));
    }
    for i in 0..8 {
        assert!(!m.get(7, i) && !m.get(i, 7));
    }
    assert!(m.get(3, 3));
    assert!(!m.get(1, 1));
}

#[test]
fn digits_are_encoded_as_bytes() {
    assert_eq!(encode(&[b'1'; 17]).unwrap().size, 21);
    assert_eq!(encode(&[b'1'; 18]).unwrap().size, 25);
    assert_eq!(encode(&[b'1'; QR_MAX_BYTES]).unwrap().size, 177);
}

#[test]
fn different_payloads_give_different_codes() {
    let a = encode(&[1; 40]).unwrap();
    let b = encode(&[2; 40]).unwrap();
    assert_eq!(a.size, b.size);
    assert_ne!(a.modules, b.modules);
    assert_eq!(a.clone().modules, a.modules);
}

#[test]
fn oversized_payload_tells_the_capacity() {
    assert!(matches!(
        encode(&vec![0; 3000]),
        Err(Error::BufferTooShort { need: 2953, have: 3000 })
    ));
}
