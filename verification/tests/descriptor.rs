//! Session descriptors.
use airferry::qr_protocol;
use airferry::qr_protocol::{Frame, SessionId};
use airferry::raptorq_core::{Config, ObjectMeta};
use airferry::transfer_engine::descriptor::{
    build_frame, build_payload, build_segment_payload, parse_payload, sum_symbols,
    DESC_FIXED_OVERHEAD, DESC_LEGACY_V4, DESC_V3_VERSION, DESC_VERSION,
};
use airferry::transfer_engine::{
    Error, FileMeta, ReceiverSession, SegmentMeta, SenderConfig, SenderSession,
};

fn build_real_v2_payload(meta: &ObjectMeta, file_meta: &FileMeta) -> Vec<u8> {
    let mut full = build_payload(meta, file_meta).unwrap();
    let blocks_len = meta.blocks.len() * 16;
    let fn_len = file_meta.filename.len();
    let v2_body_end = DESC_FIXED_OVERHEAD + blocks_len + 1 + fn_len + 8 + 4;
    full[1] = 2;
    for b in &mut full[v2_body_end..] {
        *b = 0;
    }
    full
}

#[test]
fn descriptor_roundtrip_v3() {
    let data: Vec<u8> = (0..50_000).map(|i| (i & 0xff) as u8).collect();
    let sender = SenderSession::new(
        &data,
        SessionId::zero(),
        SenderConfig::default(),
        FileMeta {
            filename: "test文档.pdf".to_string(),
            original_size: 50_000,
            crc32: 0xDEADBEEF,
            compression: qr_protocol::compress::COMPRESSION_NONE,
            compressed_size: 50_000,
            compressed_size_known: true,
            crc32_known: true,
        },
    )
    .unwrap();
    let meta = sender.meta().clone();
    let file_meta = sender.file_meta().clone();
    let payload = build_payload(&meta, &file_meta).unwrap();
    assert_eq!(payload.len(), 1024);
    let info = parse_payload(&payload).unwrap();
    assert_eq!(info.meta, meta);
    assert_eq!(info.file_meta.filename, "test文档.pdf");
    assert_eq!(info.file_meta.original_size, 50_000);
    assert_eq!(info.file_meta.crc32, 0xDEADBEEF);
    assert_eq!(
        info.file_meta.compression,
        qr_protocol::compress::COMPRESSION_NONE
    );
    assert_eq!(info.file_meta.compressed_size, 50_000);
    assert!(info.file_meta.crc32_known);
}

#[test]
fn descriptor_roundtrip_v3_compressed() {
    let data: Vec<u8> = (0..50_000).map(|i| (i & 0xff) as u8).collect();
    let sender = SenderSession::new(
        &data,
        SessionId::zero(),
        SenderConfig::default(),
        FileMeta {
            filename: "doc.json".to_string(),
            original_size: 50_000,
            crc32: 0xCAFEBABE,
            compression: qr_protocol::compress::COMPRESSION_ZSTD,
            compressed_size: 18_000,
            compressed_size_known: true,
            crc32_known: true,
        },
    )
    .unwrap();
    let meta = sender.meta().clone();
    let file_meta = sender.file_meta().clone();
    let payload = build_payload(&meta, &file_meta).unwrap();
    assert_eq!(payload[1], DESC_V3_VERSION);
    let info = parse_payload(&payload).unwrap();
    assert_eq!(info.segment, None);
    assert_eq!(
        info.file_meta.compression,
        qr_protocol::compress::COMPRESSION_ZSTD
    );
    assert_eq!(info.file_meta.compressed_size, 18_000);
    assert_eq!(info.file_meta.original_size, 50_000);
    assert_eq!(info.file_meta.crc32, 0xCAFEBABE);
    assert!(info.file_meta.crc32_known);
}

#[test]
fn descriptor_roundtrip_v5_binds_root_sha256() {
    let data = vec![0x5au8; 4_096];
    let sender = SenderSession::new(
        &data,
        SessionId::zero(),
        SenderConfig::default(),
        FileMeta {
            filename: "large.bin".to_string(),
            original_size: data.len() as u64,
            crc32: 0x12345678,
            compression: qr_protocol::compress::COMPRESSION_NONE,
            compressed_size: data.len() as u64,
            compressed_size_known: true,
            crc32_known: true,
        },
    )
    .unwrap();
    let segment = SegmentMeta {
        root_session_id: 0x1234,
        segment_index: 0,
        segment_count: 1,
        original_offset: 0,
        root_original_size: data.len() as u64,
        root_sha256: [0xa5; 32],
        raw_sha256: [0x5a; 32],
    };
    let payload = build_segment_payload(sender.meta(), sender.file_meta(), &segment).unwrap();
    assert_eq!(payload[1], DESC_VERSION);
    let parsed = parse_payload(&payload).unwrap();
    assert_eq!(parsed.segment, Some(segment));
}

#[test]
fn descriptor_filename_truncation_preserves_utf8() {
    let data = vec![7u8; 1_024];
    let sender = SenderSession::new(
        &data,
        SessionId::zero(),
        SenderConfig::default(),
        FileMeta {
            filename: "😀".repeat(100),
            original_size: data.len() as u64,
            ..FileMeta::default()
        },
    )
    .unwrap();
    let payload = build_payload(sender.meta(), sender.file_meta()).unwrap();
    let parsed = parse_payload(&payload).expect("truncated name remains valid UTF-8");
    assert_eq!(parsed.file_meta.filename.len(), 252);
}

#[test]
fn rejects_unknown_descriptor_version() {
    let data = vec![9u8; 1_024];
    let sender = SenderSession::new(
        &data,
        SessionId::zero(),
        SenderConfig::default(),
        FileMeta::default(),
    )
    .unwrap();
    let mut payload = build_payload(sender.meta(), sender.file_meta()).unwrap();
    payload[1] = DESC_VERSION + 1;
    assert!(parse_payload(&payload).is_none());
}

#[test]
fn rejects_legacy_v4_descriptor() {
    let data = vec![0x5au8; 4_096];
    let sender = SenderSession::new(
        &data,
        SessionId::zero(),
        SenderConfig::default(),
        FileMeta {
            filename: "legacy.bin".to_string(),
            original_size: data.len() as u64,
            ..FileMeta::default()
        },
    )
    .unwrap();
    let segment = SegmentMeta {
        root_session_id: 0x1234,
        segment_index: 0,
        segment_count: 1,
        original_offset: 0,
        root_original_size: data.len() as u64,
        root_sha256: [0xa5; 32],
        raw_sha256: [0x5a; 32],
    };
    let mut payload =
        build_segment_payload(sender.meta(), sender.file_meta(), &segment).unwrap();
    assert_eq!(payload[1], DESC_VERSION);
    payload[1] = DESC_LEGACY_V4;
    assert!(
        parse_payload(&payload).is_none(),
        "legacy v4 descriptor must be rejected, not silently mis-parsed"
    );
    let mut plain = build_payload(sender.meta(), sender.file_meta()).unwrap();
    assert_eq!(plain[1], DESC_V3_VERSION);
    plain[1] = DESC_LEGACY_V4;
    assert!(parse_payload(&plain).is_none());
}

#[test]
fn real_v2_descriptor_is_not_misread_as_empty_v3() {
    let data: Vec<u8> = (0..50_000).map(|i| (i & 0xff) as u8).collect();
    let sender = SenderSession::new(
        &data,
        SessionId::zero(),
        SenderConfig::default(),
        FileMeta::default(),
    )
    .unwrap();
    let meta = sender.meta().clone();
    let v2 = build_real_v2_payload(
        &meta,
        &FileMeta {
            filename: "legacy.bin".to_string(),
            original_size: 1_234,
            crc32: 0x11223344,
            compression: qr_protocol::compress::COMPRESSION_NONE,
            compressed_size: 1_234,
            compressed_size_known: true,
            crc32_known: true,
        },
    );

    let info = parse_payload(&v2).unwrap();
    assert_eq!(info.file_meta.filename, "legacy.bin");
    assert_eq!(info.file_meta.original_size, 1_234);
    assert_eq!(info.file_meta.crc32, 0x11223344);
    assert_eq!(
        info.file_meta.compression,
        qr_protocol::compress::COMPRESSION_NONE
    );
    assert_eq!(
        info.file_meta.compressed_size, 1_234,
        "v2 descriptor must fall back to compressed_size == original_size, not 0"
    );
}

#[test]
fn padded_v1_descriptor_does_not_parse_padding_as_v2() {
    let data = vec![7u8; 8_000];
    let sender = SenderSession::new(
        &data,
        SessionId::zero(),
        SenderConfig::default(),
        FileMeta {
            filename: "must-not-appear.txt".into(),
            original_size: data.len() as u64,
            crc32: 123,
            compression: qr_protocol::compress::COMPRESSION_NONE,
            compressed_size: data.len() as u64,
            compressed_size_known: true,
            crc32_known: true,
        },
    )
    .unwrap();
    let mut payload = build_payload(sender.meta(), sender.file_meta()).unwrap();
    let v1_end = DESC_FIXED_OVERHEAD + sender.meta().blocks.len() * 16;
    payload[1] = 1;
    payload[v1_end..].fill(0);

    let parsed = parse_payload(&payload).unwrap();
    assert_eq!(parsed.file_meta, FileMeta::default());
}

#[test]
fn receiver_recovers_from_real_v2_descriptor_not_empty() {

    let data: Vec<u8> = (0..40_000).map(|i| (i & 0xff) as u8).collect();
    let probe = SenderSession::new(
        &data,
        SessionId::zero(),
        SenderConfig {
            codec: Config::default(),
            redundancy_pct: 20,
        },
        FileMeta::default(),
    )
    .unwrap();
    let meta = probe.meta().clone();
    let padded_len = meta.transfer_length;
    let fm = FileMeta {
        filename: "legacy.bin".to_string(),
        original_size: data.len() as u64,
        crc32: 0,
        compression: qr_protocol::compress::COMPRESSION_NONE,
        compressed_size: padded_len,
        compressed_size_known: true,
        crc32_known: false,
    };
    let mut sender = SenderSession::new(
        &data,
        SessionId::zero(),
        SenderConfig {
            codec: Config::default(),
            redundancy_pct: 20,
        },
        fm,
    )
    .unwrap();
    sender.set_descriptor_interval(8);

    let first = sender.next_frame().unwrap();
    let mut rx =
        ReceiverSession::from_first_frame(&Frame::from_bytes(&first.to_bytes()).unwrap());
    let mut guard = 0;
    while !rx.is_complete() {
        let f = sender.next_frame().unwrap();
        let parsed = Frame::from_bytes(&f.to_bytes()).unwrap();
        let _ = rx.ingest(parsed);
        guard += 1;
        assert!(guard < 400_000, "v2 receiver did not recover");
    }
    let out = rx.assemble().expect("must assemble");
    assert_eq!(
        &out[..data.len()],
        &data[..],
        "v2 descriptor must not truncate the recovered payload to empty"
    );
}

#[test]
fn rejects_non_descriptor() {
    assert!(parse_payload(&[0u8; 1024]).is_none());
}

fn small_meta() -> ObjectMeta {
    SenderSession::new(
        &[3u8; 600],
        SessionId::zero(),
        SenderConfig { codec: Config::new(512).unwrap(), redundancy_pct: 10 },
        FileMeta::default(),
    )
    .unwrap()
    .meta()
    .clone()
}

#[test]
fn descriptor_layout_is_fixed() {
    let meta = small_meta();
    let file = FileMeta {
        filename: "ab".to_string(),
        original_size: 0x0102,
        crc32: 0x0304_0506,
        compression: 1,
        compressed_size: 600,
        compressed_size_known: true,
        crc32_known: true,
    };
    let p = build_payload(&meta, &file).unwrap();
    assert_eq!(p.len(), 512);
    assert_eq!(p[..4], [0xD5, 3, 0, 1]);
    assert_eq!(p[4..12], 1024u64.to_be_bytes());
    assert_eq!(p[12..16], 512u32.to_be_bytes());
    assert_eq!(p[16..28], meta.oti_bytes);
    assert_eq!(p[28..44], [0, 0, 0, 0, 0, 0, 0, 2, 0, 0, 0, 0, 0, 0, 4, 0]);
    assert_eq!(p[44..47], [2, b'a', b'b']);
    assert_eq!(p[47..55], 0x0102u64.to_be_bytes());
    assert_eq!(p[55..59], [3, 4, 5, 6]);
    assert_eq!(p[59], 1);
    assert_eq!(p[60..68], 600u64.to_be_bytes());
    assert!(p[68..].iter().all(|&b| b == 0));
}

#[test]
fn truncated_descriptors_are_refused() {
    let meta = small_meta();
    let p = build_payload(&meta, &FileMeta::default()).unwrap();
    assert!(parse_payload(&p[..66]).is_some());
    for n in 0..66 {
        assert!(parse_payload(&p[..n]).is_none(), "{n} bytes");
    }
    let mut bad_name = p.clone();
    bad_name[44] = 1;
    bad_name[45] = 0xFF;
    assert!(parse_payload(&bad_name).is_none());
}

#[test]
fn descriptor_that_does_not_fit_tells_the_sizes() {
    let mut meta = small_meta();
    meta.symbol_size = 64;
    assert!(matches!(
        build_payload(&meta, &FileMeta::default()),
        Err(Error::Protocol(qr_protocol::Error::BufferTooShort { need: 66, have: 64 }))
    ));
}

#[test]
fn long_names_are_cut_to_a_prefix() {
    let meta = small_meta();
    let mut file = FileMeta::default();
    file.filename = "abc".repeat(200);
    let info = parse_payload(&build_payload(&meta, &file).unwrap()).unwrap();
    assert_eq!(info.file_meta.filename.len(), 255);
    assert!(file.filename.starts_with(&info.file_meta.filename));
    assert!(info.file_meta.compressed_size_known && info.file_meta.crc32_known);
    assert!(!info.file_meta.same(&file));
    assert!(file.same(&file.clone()));
}

#[test]
fn descriptor_frames_carry_the_totals() {
    let meta = small_meta();
    let f = build_frame(&meta, &FileMeta::default(), 77, 5, 6).unwrap();
    assert_eq!(f.header.session_id, 77);
    assert_eq!(f.header.flags, 1);
    assert_eq!((f.header.sbn, f.header.esi), (0, 0));
    assert_eq!((f.header.total_blocks, f.header.total_symbols), (1, 2));
    assert_eq!((f.header.symbol_size, f.header.frame_index), (512, 5));
    assert_eq!(f.header.timestamp_ms, 6);
    assert_eq!(f.payload, build_payload(&meta, &FileMeta::default()).unwrap());
    assert_eq!(sum_symbols(&meta.blocks), 2);
}
