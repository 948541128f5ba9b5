//! Messages of the errors.
use airferry::qr_protocol;
use airferry::raptorq_core;
use airferry::text;
use airferry::transfer_engine::Error;

#[test]
fn protocol_messages() {
    let cases = [
        (
            qr_protocol::Error::BufferTooShort { need: 64, have: 10 },
            "buffer too short: need 64 bytes, have 10",
        ),
        (
            qr_protocol::Error::BadMagic { expected: 0x4554, got: 0x00AF },
            "bad magic: expected 0x4554, got 0x00AF",
        ),
        (qr_protocol::Error::BadVersion(7), "unsupported protocol version 7"),
        (qr_protocol::Error::FrameCrcMismatch, "frame CRC mismatch"),
        (qr_protocol::Error::PayloadCrcMismatch, "payload CRC mismatch"),
        (qr_protocol::Error::BadSymbolSize(99), "unsupported symbol size 99"),
        (
            qr_protocol::Error::LengthMismatch { expected: 1088, actual: 1087 },
            "frame length mismatch: expected 1088 bytes, got 1087",
        ),
        (qr_protocol::Error::Compress("broken".to_string()), "compression error: broken"),
    ];
    for (error, message) in cases {
        assert_eq!(error.message(), message);
    }
}

#[test]
fn codec_messages() {
    let cases = [
        (raptorq_core::Error::EmptyData, "data is empty"),
        (
            raptorq_core::Error::InvalidSymbolSize,
            "symbol size must be 8-byte aligned and between 64 and 65528 bytes",
        ),
        (
            raptorq_core::Error::InvalidObjectMeta("block K out of range"),
            "invalid object metadata: block K out of range",
        ),
        (
            raptorq_core::Error::BlockOutOfRange { sbn: 3, total: 2 },
            "source block 3 out of range (have 2)",
        ),
        (
            raptorq_core::Error::NotDecodable { sbn: 0 },
            "source block 0 is not yet decodable (need more symbols)",
        ),
        (
            raptorq_core::Error::UnknownSymbol { sbn: 1, esi: 20 },
            "symbol (sbn=1, esi=20) does not belong to this object",
        ),
    ];
    for (error, message) in cases {
        assert_eq!(error.message(), message);
    }
}

#[test]
fn engine_messages() {
    let cases = [
        (Error::Raptorq(raptorq_core::Error::EmptyData), "raptorq error: data is empty"),
        (
            Error::Protocol(qr_protocol::Error::FrameCrcMismatch),
            "protocol error: frame CRC mismatch",
        ),
        (Error::NoPayload, "no payload set"),
        (Error::NotInitialized, "session not yet initialized (no metadata received)"),
        (
            Error::SessionMismatch { expected: u128::MAX, got: 10 },
            "session id mismatch: expected 340282366920938463463374607431768211455, got 10",
        ),
        (Error::AlreadyComplete, "object already complete"),
        (
            Error::InvalidRedundancy(51),
            "invalid redundancy percentage: 51 (must be between 5 and 50)",
        ),
        (Error::Compress("x".to_string()), "compression error: x"),
        (
            Error::SymbolIdSpaceExhausted,
            "RaptorQ's 24-bit encoding-symbol id space is exhausted",
        ),
        (Error::InvalidResume("r"), "invalid resume state: r"),
        (Error::InvalidSegment("s"), "invalid large-transfer segment: s"),
    ];
    for (error, message) in cases {
        assert_eq!(error.message(), message);
    }
}

#[test]
fn errors_convert() {
    let e: Error = raptorq_core::Error::EmptyData.into();
    assert!(matches!(e, Error::Raptorq(raptorq_core::Error::EmptyData)));
    let e: Error = qr_protocol::Error::BadVersion(2).into();
    assert!(matches!(e, Error::Protocol(qr_protocol::Error::BadVersion(2))));
}

#[test]
fn numbers_in_text() {
    assert_eq!(text::numbered("n=", 0), "n=0");
    assert_eq!(text::numbered("n=", u64::MAX), "n=18446744073709551615");
    let mut s = String::new();
    text::push_hex4(&mut s, 0xABCD);
    assert_eq!(s, "ABCD");
    assert!(text::same_text("r\u{e4}", "r\u{e4}"));
    assert!(!text::same_text("a", "b"));
}
