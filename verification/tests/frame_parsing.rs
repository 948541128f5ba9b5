//! Parsing frames through the engine.
use airferry::qr_protocol;
use airferry::transfer_engine::wasm::SenderSessionWasm;
use airferry::transfer_engine::{qr_protocol_frame_from_bytes, Error, FLAG_DESCRIPTOR_BIT};

#[test]
fn engine_parses_what_a_session_emits() {
    let mut s = SenderSessionWasm::new(&[3; 900], 7, 1, 20, 512, "a.bin", 900, 5, 0).unwrap();
    let mut bytes = s.next_frame().unwrap();
    let frame = qr_protocol_frame_from_bytes(&bytes).unwrap();
    assert_eq!(frame.header.flags, FLAG_DESCRIPTOR_BIT);
    assert_eq!(frame.to_bytes(), bytes);

    bytes[100] ^= 1;
    assert!(matches!(
        qr_protocol_frame_from_bytes(&bytes),
        Err(Error::Protocol(qr_protocol::Error::PayloadCrcMismatch))
    ));
    bytes[100] ^= 1;
    bytes[10] ^= 1;
    assert!(matches!(
        qr_protocol_frame_from_bytes(&bytes),
        Err(Error::Protocol(qr_protocol::Error::FrameCrcMismatch))
    ));
    assert!(matches!(
        qr_protocol_frame_from_bytes(&bytes[..10]),
        Err(Error::Protocol(qr_protocol::Error::BufferTooShort { have: 10, .. }))
    ));
}
