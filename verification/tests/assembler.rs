//! Joining segments.
use airferry::qr_protocol;
use airferry::transfer_engine::assembler::same_segment;
use airferry::transfer_engine::{
    Error, FileMeta, SegmentMeta, TransferAssembler, SEGMENT_RAW_BYTES,
};
use sha2::{Digest, Sha256};

fn file_meta(name: &str, compressed_size: u64, original_size: u64) -> FileMeta {
    FileMeta {
        filename: name.into(),
        original_size,
        crc32: 0,
        compression: qr_protocol::compress::COMPRESSION_NONE,
        compressed_size,
        compressed_size_known: true,
        crc32_known: false,
    }
}

fn seg_meta(
    root: u128,
    idx: u32,
    count: u32,
    root_compressed_size: u64,
    root_sha256: [u8; 32],
    bytes: &[u8],
) -> SegmentMeta {
    let digest = Sha256::digest(bytes);
    let mut raw_sha256 = [0u8; 32];
    raw_sha256.copy_from_slice(&digest);
    SegmentMeta {
        root_session_id: root,
        segment_index: idx,
        segment_count: count,
        original_offset: u64::from(idx) * SEGMENT_RAW_BYTES,
        root_original_size: root_compressed_size,
        root_sha256,
        raw_sha256,
    }
}

#[test]
fn assembles_multiple_segments_in_order() {
    let root = 0xabcdu128;
    let seg0 = vec![7u8; SEGMENT_RAW_BYTES as usize];
    let seg1 = vec![9u8; 5 * 1024];
    let root_compressed_size = SEGMENT_RAW_BYTES + 5 * 1024;
    let mut root_stream = seg0.clone();
    root_stream.extend_from_slice(&seg1);
    let root_sha: [u8; 32] = Sha256::digest(&root_stream).into();
    let s0 = seg_meta(root, 0, 2, root_compressed_size, root_sha, &seg0);
    let s1 = seg_meta(root, 1, 2, root_compressed_size, root_sha, &seg1);

    let mut a = TransferAssembler::new(
        &s0,
        &file_meta("big.bin", seg0.len() as u64, root_compressed_size),
    )
    .unwrap();
    assert_eq!(a.total_segments(), 2);
    assert!(!a.is_complete());

    assert!(a
        .add_segment(
            &s1,
            &file_meta("big.bin", seg1.len() as u64, root_compressed_size),
            seg1.clone()
        )
        .unwrap());
    assert!(!a.is_complete());
    assert!(a
        .add_segment(
            &s0,
            &file_meta("big.bin", seg0.len() as u64, root_compressed_size),
            seg0.clone()
        )
        .unwrap());
    assert!(a.is_complete());

    let full = a.reassemble().unwrap();
    assert_eq!(full, root_stream);
}

#[test]
fn rejects_duplicate_segment() {
    let root = 1u128;
    let data = vec![3u8; 512];
    let root_size = 512;
    let root_sha = Sha256::digest(&data).into();
    let s0 = seg_meta(root, 0, 1, root_size, root_sha, &data);
    let mut a = TransferAssembler::new(&s0, &file_meta("f.bin", root_size, root_size)).unwrap();
    assert!(a
        .add_segment(
            &s0,
            &file_meta("f.bin", data.len() as u64, root_size),
            data.clone()
        )
        .unwrap());
    assert!(!a
        .add_segment(
            &s0,
            &file_meta("f.bin", data.len() as u64, root_size),
            data.clone()
        )
        .unwrap());
    assert_eq!(a.received_segments(), 1);
}

#[test]
fn rejects_tampered_sha256() {
    let root = 2u128;
    let data = vec![5u8; 1024];
    let root_size = 1024;
    let root_sha = Sha256::digest(&data).into();
    let mut s0 = seg_meta(root, 0, 1, root_size, root_sha, &data);
    s0.raw_sha256[0] ^= 0xff;
    let mut a = TransferAssembler::new(&s0, &file_meta("t.bin", root_size, root_size)).unwrap();
    assert!(a
        .add_segment(
            &s0,
            &file_meta("t.bin", data.len() as u64, root_size),
            data.clone()
        )
        .is_err());
    assert_eq!(a.received_segments(), 0);
}

#[test]
fn rejects_wrong_root_id() {
    let data = vec![1u8; 64];
    let root_sha = Sha256::digest(&data).into();
    let s0 = seg_meta(0xAAAAu128, 0, 1, 64, root_sha, &data);
    let mut a = TransferAssembler::new(&s0, &file_meta("x.bin", 64, 64)).unwrap();
    let wrong = seg_meta(0xBBBBu128, 0, 1, 64, root_sha, &data);
    assert!(a
        .add_segment(
            &wrong,
            &file_meta("x.bin", data.len() as u64, 64),
            data.clone()
        )
        .is_err());
}

#[test]
fn rejects_mixed_root_digest_and_wrong_final_digest() {
    let root = 3u128;
    let data = vec![6u8; 1_024];
    let correct_root_sha = Sha256::digest(&data).into();
    let first = seg_meta(root, 0, 1, data.len() as u64, correct_root_sha, &data);
    let mut assembler = TransferAssembler::new(
        &first,
        &file_meta("root.bin", data.len() as u64, data.len() as u64),
    )
    .unwrap();

    let mut mixed = first.clone();
    mixed.root_sha256[0] ^= 0xff;
    assert!(assembler
        .add_segment(
            &mixed,
            &file_meta("root.bin", data.len() as u64, data.len() as u64),
            data.clone()
        )
        .is_err());

    let mut wrong = first.clone();
    wrong.root_sha256 = [0x77; 32];
    let mut wrong_assembler = TransferAssembler::new(
        &wrong,
        &file_meta("root.bin", data.len() as u64, data.len() as u64),
    )
    .unwrap();
    assert!(wrong_assembler
        .add_segment(
            &wrong,
            &file_meta("root.bin", data.len() as u64, data.len() as u64),
            data
        )
        .unwrap());
    assert!(wrong_assembler.reassemble().is_some());
}

#[test]
fn rejects_assembler_when_count_inconsistent() {
    let data = vec![1u8; 64];
    let bad = SegmentMeta {
        root_session_id: 1u128,
        segment_index: 0,
        segment_count: 3,
        original_offset: 0,
        root_original_size: 64,
        root_sha256: Sha256::digest(&data).into(),
        raw_sha256: Sha256::digest(&data).into(),
    };
    assert!(TransferAssembler::new(&bad, &file_meta("y.bin", 64, 64)).is_err());
}

fn reason(r: Result<bool, Error>) -> &'static str {
    match r {
        Err(Error::InvalidSegment(reason)) => reason,
        _ => panic!("accepted"),
    }
}

#[test]
fn segment_refusals_tell_the_reason() {
    let data = vec![4u8; 300];
    let sha: [u8; 32] = Sha256::digest(&data).into();
    let good = seg_meta(5, 0, 1, 300, sha, &data);
    let fm = file_meta("n.bin", 300, 300);
    let mut a = TransferAssembler::new(&good, &fm).unwrap();

    let mut s = good.clone();
    s.root_session_id = 6;
    assert_eq!(
        reason(a.add_segment(&s, &fm, data.clone())),
        "segment root id does not match assembler"
    );
    let mut s = good.clone();
    s.segment_count = 2;
    assert_eq!(
        reason(a.add_segment(&s, &fm, data.clone())),
        "segment count does not match assembler"
    );
    let mut s = good.clone();
    s.root_sha256[3] ^= 1;
    assert_eq!(
        reason(a.add_segment(&s, &fm, data.clone())),
        "segment root sha256 does not match assembler"
    );
    assert_eq!(
        reason(a.add_segment(&good, &file_meta("o.bin", 300, 300), data.clone())),
        "segment filename does not match assembler"
    );
    assert_eq!(reason(a.add_segment(&good, &fm, vec![4u8; 299])), "segment length mismatch");
    assert_eq!(reason(a.add_segment(&good, &fm, vec![5u8; 300])), "segment sha256 mismatch");
    assert!(a.add_segment(&good, &fm, data.clone()).unwrap());
    assert_eq!(a.received_segments(), 1);
    assert!(a.has_segment(0) && !a.has_segment(1));
    assert_eq!(a.filename(), "n.bin");
    assert_eq!(a.root_session_id(), 5);
    assert_eq!((a.root_original_size(), a.root_compressed_size()), (300, 300));
}

#[test]
fn ranges_are_those_of_received_segments() {
    let first = vec![7u8; SEGMENT_RAW_BYTES as usize];
    let tail = vec![9u8; 100];
    let size = SEGMENT_RAW_BYTES + 100;
    let s0 = seg_meta(1, 0, 2, size, [0; 32], &first);
    let s1 = seg_meta(1, 1, 2, size, [0; 32], &tail);
    let mut a = TransferAssembler::new(&s0, &file_meta("r", first.len() as u64, size)).unwrap();
    assert!(a.segment_ranges().is_empty());
    assert!(a.reassemble().is_none());
    a.add_segment(&s1, &file_meta("r", 100, size), tail).unwrap();
    assert_eq!(a.segment_ranges(), vec![(1, SEGMENT_RAW_BYTES, 100, s1.raw_sha256)]);
}

#[test]
fn assembler_start_is_checked() {
    let data = vec![1u8; 10];
    let mut s = seg_meta(1, 0, 1, 10, [0; 32], &data);
    assert_eq!(TransferAssembler::check_start(&s, &file_meta("f", 10, 10)), Ok(()));
    s.root_original_size = 0;
    assert_eq!(
        TransferAssembler::check_start(&s, &file_meta("f", 10, 10)),
        Err("segment compressed root size is empty")
    );
    s.segment_count = 0;
    assert_eq!(
        TransferAssembler::check_start(&s, &file_meta("f", 10, 10)),
        Err("segment count out of range")
    );
}

#[test]
fn same_segments_are_the_same() {
    let a = seg_meta(1, 0, 1, 10, [0; 32], &[1; 10]);
    let mut b = a.clone();
    assert!(same_segment(&a, &b));
    b.raw_sha256[31] ^= 1;
    assert!(!same_segment(&a, &b));
}
