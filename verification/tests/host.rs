//! What host bindings share.
use airferry::digest::{crc32, sha256};
use airferry::qr_protocol::compress::{compress_with, DecompressStreamOutcome};
use airferry::qr_protocol::{Error, SessionId};
use airferry::raptorq_core::Config;
use airferry::transfer_engine::host::{
    assemble_trimmed, check_stream, decompress_bytes, id_hi, id_lo, ingest_bytes, join_id,
    StreamMismatch,
};
use airferry::transfer_engine::ingest_status::{pack, INGEST_ERROR};
use airferry::transfer_engine::{FileMeta, ReceiverSession, SenderConfig, SenderSession};

#[test]
fn ids_survive_in_halves() {
    let id = 0x0011_2233_4455_6677_8899_aabb_ccdd_eeff;
    assert_eq!(id_lo(id), 0x8899_aabb_ccdd_eeff);
    assert_eq!(id_hi(id), 0x0011_2233_4455_6677);
    assert_eq!(join_id(id_lo(id), id_hi(id)), id);
}

#[test]
fn status_fields_read_back() {
    for (complete, accepted, streak, received) in
        [(false, false, 0, 0), (true, false, 3, 9), (true, true, 70_000, u32::MAX - 1)]
    {
        let status = pack(complete, accepted, streak, received);
        assert_eq!(status & 1 == 1, complete);
        assert_eq!((status >> 1) & 1 == 1, accepted);
        assert_eq!((status >> 8) & 0xFFFF, streak.min(0xFFFF) as u64);
        assert_eq!((status >> 32) as u32, received);
        assert_ne!(status, INGEST_ERROR);
    }
}

fn sender(data: &[u8]) -> SenderSession {
    SenderSession::new(
        data,
        SessionId(3),
        SenderConfig { codec: Config::new(512).unwrap(), redundancy_pct: 20 },
        FileMeta {
            original_size: data.len() as u64,
            compressed_size: data.len() as u64,
            compressed_size_known: true,
            ..FileMeta::default()
        },
    )
    .unwrap()
}

#[test]
fn frames_as_bytes_tell_their_status() {
    let data: Vec<u8> = (0..1_000).map(|i| (i % 256) as u8).collect();
    let mut s = sender(&data);
    let mut rx = ReceiverSession::new_pending(3);
    assert_eq!(ingest_bytes(&mut rx, b"junk"), INGEST_ERROR);
    assert_eq!(rx.progress().frames_seen, 0);
    assert_eq!(ingest_bytes(&mut rx, &s.next_frame().unwrap().to_bytes()), pack(false, false, 0, 0));
    let first = s.next_frame().unwrap().to_bytes();
    assert_eq!(ingest_bytes(&mut rx, &first), pack(false, true, 0, 1));
    assert_eq!(ingest_bytes(&mut rx, &first), pack(false, false, 0, 1));
    assert!(assemble_trimmed(&rx).is_none());
    let second = s.next_frame().unwrap().to_bytes();
    assert_eq!(ingest_bytes(&mut rx, &second), pack(true, true, 0, 2));
    assert_eq!(assemble_trimmed(&rx).unwrap(), data);

    let mut other = ReceiverSession::new_pending(4);
    assert_eq!(ingest_bytes(&mut other, &first), pack(false, false, 1, 0));
}

#[test]
fn decompression_in_memory_is_capped() {
    let data = vec![9u8; 2_000];
    for tag in [0, 1, 2] {
        let packed = compress_with(&data, tag).unwrap();
        assert_eq!(decompress_bytes(&packed, tag as i32, 2_000).unwrap(), data);
        assert_eq!(decompress_bytes(&packed, tag as i32 + 256, i64::MAX).unwrap(), data);
        assert_eq!(decompress_bytes(&packed, tag as i32 - 512, 2_000).unwrap(), data);
        assert!(decompress_bytes(&packed, tag as i32, 1_999).is_err());
        assert!(decompress_bytes(&packed, tag as i32, 0).is_err());
        assert!(decompress_bytes(&packed, tag as i32, -1).is_err());
    }
    assert!(matches!(decompress_bytes(&[1], -1, 10), Err(Error::Compress(m)) if m.ends_with("255")));
}

#[test]
fn decompressed_streams_are_checked() {
    let data = b"123456789";
    let outcome =
        DecompressStreamOutcome { output_size: 9, crc32: crc32(data), sha256: sha256(data) };
    let hex: String = outcome.sha256.iter().map(|b| format!("{b:02x}")).collect();
    let crc = outcome.crc32 as i64;
    assert_eq!(check_stream(&outcome, 9, crc, true, &hex), Ok(()));
    assert_eq!(check_stream(&outcome, 9, crc, true, &hex.to_uppercase()), Ok(()));
    assert_eq!(check_stream(&outcome, 9, crc - (1 << 32), true, &hex), Ok(()));
    assert_eq!(check_stream(&outcome, 9, 0, false, &hex), Ok(()));
    assert_eq!(check_stream(&outcome, 8, crc, true, &hex), Err(StreamMismatch::Size));
    assert_eq!(check_stream(&outcome, -9, crc, true, &hex), Err(StreamMismatch::Size));
    assert_eq!(check_stream(&outcome, 9, crc + 1, true, &hex), Err(StreamMismatch::Crc));
    assert_eq!(check_stream(&outcome, 9, crc, true, &hex[1..]), Err(StreamMismatch::Sha));
    let wrong = format!("{}0", &hex[..63]);
    let expected = if hex.ends_with('0') { Ok(()) } else { Err(StreamMismatch::Sha) };
    assert_eq!(check_stream(&outcome, 9, crc, true, &wrong), expected);
}
