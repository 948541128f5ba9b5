//! Segmented transfers from end to end.
use airferry::qr_protocol;
use airferry::qr_protocol::{Frame, SessionId};
use airferry::raptorq_core::Config;
use airferry::transfer_engine::{
    FileMeta, ReceiverSession, SegmentMeta, SenderConfig, SenderSession, TransferAssembler,
    SEGMENT_RAW_BYTES,
};
use sha2::{Digest, Sha256};

fn pseudo_random(n: usize) -> Vec<u8> {
    (0..n)
        .map(|i| ((i * 1103515245 + 12345) & 0xff) as u8)
        .collect()
}

fn split_root(root: &[u8], root_session_id: u128) -> Vec<SegmentMeta> {
    let root_sha256: [u8; 32] = Sha256::digest(root).into();
    let count = if root.is_empty() {
        1
    } else {
        (root.len() as u64).div_ceil(SEGMENT_RAW_BYTES) as u32
    };
    (0..count)
        .map(|i| {
            let start = (i as usize) * SEGMENT_RAW_BYTES as usize;
            let end = (start + SEGMENT_RAW_BYTES as usize).min(root.len());
            let raw = &root[start..end];
            let digest = Sha256::digest(raw);
            let mut raw_sha256 = [0u8; 32];
            raw_sha256.copy_from_slice(&digest);
            SegmentMeta {
                root_session_id,
                segment_index: i,
                segment_count: count,
                original_offset: (i as u64) * SEGMENT_RAW_BYTES,
                root_original_size: root.len() as u64,
                root_sha256,
                raw_sha256,
            }
        })
        .collect()
}

fn recover_segment(
    root_session_id: u128,
    seg: &SegmentMeta,
    segment_bytes: &[u8],
    root_original_size: u64,
    redundancy: u8,
    drop_every: u32,
) -> Vec<u8> {
    recover_segment_with(
        root_session_id,
        seg,
        segment_bytes,
        root_original_size,
        redundancy,
        drop_every,
        qr_protocol::compress::COMPRESSION_NONE,
    )
}

fn recover_segment_with(
    root_session_id: u128,
    seg: &SegmentMeta,
    segment_bytes: &[u8],
    root_original_size: u64,
    redundancy: u8,
    drop_every: u32,
    compression: u8,
) -> Vec<u8> {
    let child = SessionId::derive_segment(root_session_id, seg.segment_index);
    let fm = FileMeta {
        filename: "big.bin".into(),
        original_size: root_original_size,
        crc32: 0,
        compression,
        compressed_size: segment_bytes.len() as u64,
        compressed_size_known: true,
        crc32_known: false,
    };
    let mut sender = SenderSession::new_segment(
        segment_bytes,
        child,
        SenderConfig {
            codec: Config::new(65_528).expect("large test symbol"),
            redundancy_pct: redundancy,
        },
        fm,
        seg.clone(),
    )
    .expect("segment sender");

    let total_k = sender.total_k();
    let batch = (total_k as usize) * 3 + 64;
    let mut rx: Option<ReceiverSession> = None;
    let mut emitted = 0u32;
    for _ in 0..batch {
        if rx.as_ref().is_some_and(|r| r.is_complete()) {
            break;
        }
        let f = sender.next_frame().unwrap();
        emitted += 1;
        if drop_every > 0 && emitted % drop_every == 0 {
            continue;
        }
        let bytes = f.to_bytes();
        let parsed = Frame::from_bytes(&bytes).unwrap();
        if rx.is_none() {
            rx = Some(ReceiverSession::from_first_frame(&parsed));
        }
        let _ = rx.as_mut().unwrap().ingest(parsed);
    }
    let rx = rx.expect("receiver never created");
    assert!(
        rx.is_complete(),
        "segment {} failed to recover",
        seg.segment_index
    );
    assert_eq!(
        rx.segment_meta().map(|s| s.segment_index),
        Some(seg.segment_index),
        "receiver must expose descriptor-v5 segment meta"
    );
    let raw = rx.assemble_raw().expect("assemble raw segment bytes");
    let size = rx.file_meta().compressed_size as usize;
    let size = size.min(raw.len());
    raw[..size].to_vec()
}

fn segmented_cycle(root: &[u8], redundancy: u8, drop_every: u32) -> Vec<u8> {
    let root_session_id = SessionId::derive("big", root.len() as u64, 0, &[]).0;
    let segments = split_root(root, root_session_id);

    let mut assembler = {
        let first = &segments[0];
        let fm = FileMeta {
            filename: "big.bin".into(),
            original_size: root.len() as u64,
            crc32: 0,
            compression: qr_protocol::compress::COMPRESSION_NONE,
            compressed_size: first_compressed_len(root, first),
            compressed_size_known: true,
            crc32_known: false,
        };
        TransferAssembler::new(first, &fm).expect("assembler from first segment")
    };

    for (i, seg) in segments.iter().enumerate() {
        let start = i * SEGMENT_RAW_BYTES as usize;
        let end = (start + SEGMENT_RAW_BYTES as usize).min(root.len());
        let recovered = recover_segment(
            root_session_id,
            seg,
            &root[start..end],
            root.len() as u64,
            redundancy,
            drop_every,
        );
        let fm = FileMeta {
            filename: "big.bin".into(),
            original_size: root.len() as u64,
            crc32: 0,
            compression: qr_protocol::compress::COMPRESSION_NONE,
            compressed_size: recovered.len() as u64,
            compressed_size_known: true,
            crc32_known: false,
        };
        let stored = assembler
            .add_segment(seg, &fm, recovered)
            .expect("assembler add segment");
        assert!(stored, "segment {i} should be newly stored");
    }

    assert!(assembler.is_complete());
    assert_eq!(assembler.received_segments(), segments.len() as u32);
    assembler
        .reassemble()
        .expect("reassemble compressed stream")
}

fn first_compressed_len(root: &[u8], first: &SegmentMeta) -> u64 {
    let remaining = (root.len() as u64).saturating_sub(first.original_offset);
    remaining.min(SEGMENT_RAW_BYTES)
}

#[test]
fn segmented_transfer_reassembles_multi_segment_file() {
    let root = pseudo_random(SEGMENT_RAW_BYTES as usize + 4096);
    let out = segmented_cycle(&root, 15, 0);
    assert_eq!(
        out, root,
        "reassembled compressed stream must match original"
    );
}

/// Join `stream`, with the last segment recovered from frames of which one in
/// seven is lost, and the others as they are. The last one arrives first.
fn join_lossy_tail(stream: &[u8], original_size: u64, compression: u8) -> Vec<u8> {
    let root_session_id = SessionId::derive("big", original_size, 0, &[]).0;
    let segments = split_root(stream, root_session_id);
    let meta = |len: usize| FileMeta {
        filename: "big.bin".into(),
        original_size,
        crc32: 0,
        compression,
        compressed_size: len as u64,
        compressed_size_known: true,
        crc32_known: false,
    };
    let last = segments.len() - 1;
    let mut assembler = TransferAssembler::new(&segments[last], &meta(1)).unwrap();
    for i in (0..segments.len()).rev() {
        let start = i * SEGMENT_RAW_BYTES as usize;
        let end = (start + SEGMENT_RAW_BYTES as usize).min(stream.len());
        let bytes = if i == last {
            recover_segment_with(
                root_session_id,
                &segments[i],
                &stream[start..end],
                original_size,
                30,
                7,
                compression,
            )
        } else {
            stream[start..end].to_vec()
        };
        assert!(!assembler.is_complete());
        assert_eq!(assembler.reassemble(), None);
        let fm = meta(bytes.len());
        assert!(assembler.add_segment(&segments[i], &fm, bytes.clone()).unwrap());
        assert!(!assembler.add_segment(&segments[i], &fm, bytes).unwrap());
    }
    assert_eq!(assembler.received_segments(), segments.len() as u32);
    assembler.reassemble().unwrap()
}

#[test]
fn segments_join_after_frame_loss_in_the_last_one() {
    let root = pseudo_random(SEGMENT_RAW_BYTES as usize + 700_000);
    let out = join_lossy_tail(
        &root,
        root.len() as u64,
        qr_protocol::compress::COMPRESSION_NONE,
    );
    assert_eq!(out, root);
}

#[test]
fn a_compressed_stream_of_several_segments_decompresses_once() {
    let mut state = 0x2545F4914F6CDD1Du64;
    let original: Vec<u8> = (0..SEGMENT_RAW_BYTES as usize + 4096)
        .map(|_| {
            state ^= state << 13;
            state ^= state >> 7;
            state ^= state << 17;
            (state >> 24) as u8
        })
        .collect();
    let stream = qr_protocol::compress::compress(&original, 1).unwrap();
    assert!(stream.len() > SEGMENT_RAW_BYTES as usize);
    let tag = qr_protocol::compress::COMPRESSION_ZSTD;
    let joined = join_lossy_tail(&stream, original.len() as u64, tag);
    assert_eq!(joined, stream);
    let out =
        qr_protocol::compress::decompress_with_limit(&joined, tag, original.len() + 1).unwrap();
    assert_eq!(out, original);
}

#[test]
fn segmented_single_segment_file() {
    let root = pseudo_random(1234);
    let out = segmented_cycle(&root, 10, 0);
    assert_eq!(out, root);
}

#[test]
fn segmented_single_segment_survives_frame_loss() {
    let root = pseudo_random(700_000);
    let out = segmented_cycle(&root, 30, 7);
    assert_eq!(out, root);
}

#[test]
fn segmented_single_segment_with_compression_reassembles() {
    let original = pseudo_random(400_000);
    let stream = qr_protocol::compress::compress(&original, 1).unwrap();
    let root_session_id = SessionId::derive("big", original.len() as u64, 0, &[]).0;
    let segments = split_root(&stream, root_session_id);
    assert_eq!(segments.len(), 1);
    let recovered = recover_segment_with(
        root_session_id,
        &segments[0],
        &stream,
        original.len() as u64,
        15,
        0,
        qr_protocol::compress::COMPRESSION_ZSTD,
    );
    let fm = FileMeta {
        filename: "big.bin".into(),
        original_size: original.len() as u64,
        crc32: 0,
        compression: qr_protocol::compress::COMPRESSION_ZSTD,
        compressed_size: recovered.len() as u64,
        compressed_size_known: true,
        crc32_known: false,
    };
    let mut assembler = TransferAssembler::new(&segments[0], &fm).unwrap();
    assert!(assembler.add_segment(&segments[0], &fm, recovered).unwrap());
    let joined = assembler.reassemble().unwrap();
    assert_eq!(joined, stream);
    let out = qr_protocol::compress::decompress_with_limit(
        &joined,
        qr_protocol::compress::COMPRESSION_ZSTD,
        original.len() + 1,
    )
    .unwrap();
    assert_eq!(out, original);
}
