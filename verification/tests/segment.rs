//! Segments of large transfers.
use airferry::qr_protocol;
use airferry::qr_protocol::SessionId;
use airferry::transfer_engine::{FileMeta, SegmentMeta, SEGMENT_RAW_BYTES};

fn file_meta(original_size: u64, compressed_size: u64) -> FileMeta {
    FileMeta {
        filename: "large.bin".into(),
        original_size,
        crc32: 0,
        compression: qr_protocol::compress::COMPRESSION_NONE,
        compressed_size,
        compressed_size_known: true,
        crc32_known: true,
    }
}

#[test]
fn validates_canonical_final_segment() {
    let root = 7u128;
    let raw = 1234u64;
    let whole = SEGMENT_RAW_BYTES * 2 + raw;
    let segment = SegmentMeta {
        root_session_id: root,
        segment_index: 2,
        segment_count: 3,
        original_offset: SEGMENT_RAW_BYTES * 2,
        root_original_size: whole,
        root_sha256: [8; 32],
        raw_sha256: [9; 32],
    };
    let child = SessionId::derive_segment(root, 2).0;
    assert_eq!(segment.validate(child, &file_meta(whole, raw)), Ok(()));
}

#[test]
fn validates_nonfinal_full_segment() {
    let root = 7u128;
    let whole = SEGMENT_RAW_BYTES * 3;
    let segment = SegmentMeta {
        root_session_id: root,
        segment_index: 1,
        segment_count: 3,
        original_offset: SEGMENT_RAW_BYTES,
        root_original_size: whole,
        root_sha256: [8; 32],
        raw_sha256: [9; 32],
    };
    let child = SessionId::derive_segment(root, 1).0;
    assert_eq!(
        segment.validate(child, &file_meta(whole, SEGMENT_RAW_BYTES)),
        Ok(())
    );
}

#[test]
fn rejects_holes_and_wrong_child_identity() {
    let root = 9u128;
    let whole = SEGMENT_RAW_BYTES + 5;
    let mut segment = SegmentMeta {
        root_session_id: root,
        segment_index: 1,
        segment_count: 2,
        original_offset: SEGMENT_RAW_BYTES,
        root_original_size: whole,
        root_sha256: [2; 32],
        raw_sha256: [1; 32],
    };
    let fm = file_meta(whole, 5);
    assert!(segment
        .validate(SessionId::derive_segment(root, 0).0, &fm)
        .is_err());
    segment.original_offset += 1;
    assert!(segment
        .validate(SessionId::derive_segment(root, 1).0, &fm)
        .is_err());
}

#[test]
fn segment_rejections_tell_the_reason() {
    let root = 9u128;
    let whole = SEGMENT_RAW_BYTES + 5;
    let good = SegmentMeta {
        root_session_id: root,
        segment_index: 1,
        segment_count: 2,
        original_offset: SEGMENT_RAW_BYTES,
        root_original_size: whole,
        root_sha256: [2; 32],
        raw_sha256: [1; 32],
    };
    let child = SessionId::derive_segment(root, 1).0;
    let fm = file_meta(whole, 5);
    assert_eq!(good.validate(child, &fm), Ok(()));

    let mut s = good.clone();
    s.segment_count = 0;
    assert_eq!(s.validate(child, &fm), Err("segment count out of range"));

    let mut s = good.clone();
    s.segment_count = 131_073;
    assert_eq!(s.validate(child, &fm), Err("segment count out of range"));

    let mut s = good.clone();
    s.segment_index = 2;
    assert_eq!(s.validate(child, &fm), Err("segment index out of range"));

    let mut s = good.clone();
    s.root_original_size = 0;
    assert_eq!(s.validate(child, &fm), Err("root compressed size must be non-zero"));

    let mut s = good.clone();
    s.root_original_size = u64::MAX;
    assert_eq!(s.validate(child, &fm), Err("segment count exceeds protocol budget"));

    let mut s = good.clone();
    s.segment_count = 3;
    assert_eq!(
        s.validate(child, &fm),
        Err("segment count inconsistent with compressed root size")
    );

    let mut s = good.clone();
    s.original_offset += 1;
    assert_eq!(s.validate(child, &fm), Err("segment offset is not canonical"));

    assert_eq!(
        good.validate(child, &file_meta(whole, 0)),
        Err("segment compressed size missing or empty")
    );
    assert_eq!(
        good.validate(child, &file_meta(whole, 6)),
        Err("segment compressed length exceeds canonical compressed range")
    );
    assert_eq!(good.validate(child ^ 1, &fm), Err("segment child session id mismatch"));
}
