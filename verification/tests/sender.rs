//! Sender sessions.
use airferry::qr_protocol;
use airferry::qr_protocol::{Frame, SessionId};
use airferry::raptorq_core;
use airferry::raptorq_core::{Config, ObjectMeta, SourceBlockMeta};
use airferry::transfer_engine::descriptor::parse_payload;
use airferry::transfer_engine::sender::{build_source_plan, can_encode, repair_symbol_id};
use airferry::transfer_engine::{
    Error, FileMeta, ReceiverSession, SegmentMeta, SenderConfig, SenderSession,
};

fn payload(n: usize) -> Vec<u8> {
    (0..n).map(|i| (i & 0xff) as u8).collect()
}

fn test_file_meta() -> FileMeta {
    FileMeta {
        filename: "test.bin".to_string(),
        original_size: 0,
        crc32: 0,
        compression: qr_protocol::compress::COMPRESSION_NONE,
        compressed_size: 0,
        compressed_size_known: true,
        crc32_known: false,
    }
}

#[test]
fn produces_frames_in_sequence() {
    let data = payload(50_000);
    let mut s = SenderSession::new(
        &data,
        SessionId::derive("f", 50_000, 0, &[]),
        SenderConfig::default(),
        test_file_meta(),
    )
    .unwrap();
    let f0 = s.next_frame().unwrap();
    assert_eq!(f0.header.session_id, s.session_id());
    assert_eq!(f0.payload.len(), 1024);
    assert_eq!((f0.header.sbn, f0.header.esi), (0, 0));
    let f1 = s.next_frame().unwrap();
    assert_eq!(f1.header.frame_index, 2);
}

#[test]
fn rejects_session_when_v3_descriptor_does_not_fit_symbol() {
    let data = payload(64);
    let result = SenderSession::new(
        &data,
        SessionId::zero(),
        SenderConfig {
            codec: Config::new(64).unwrap(),
            redundancy_pct: 25,
        },
        test_file_meta(),
    );
    assert!(matches!(
        result,
        Err(Error::Protocol(qr_protocol::Error::BufferTooShort { .. }))
    ));
}

#[test]
fn emits_frames_indefinitely() {
    let data = payload(2048);
    let mut s = SenderSession::new(
        &data,
        SessionId::zero(),
        SenderConfig::default(),
        test_file_meta(),
    )
    .unwrap();
    let n = s.total_k() as usize * 3 + 500;
    for _ in 0..n {
        let _ = s.next_frame().unwrap();
    }
}

#[test]
fn no_duplicate_data_frames() {
    let data = payload(20_000);
    let mut s = SenderSession::new(
        &data,
        SessionId::zero(),
        SenderConfig::default(),
        test_file_meta(),
    )
    .unwrap();
    let total_k = s.total_k();
    let mut seen = std::collections::HashSet::new();
    let mut repair_seen = false;
    let n = (total_k as usize) * 5 + 500;
    for _ in 0..n {
        let f = s.next_frame().unwrap();
        if f.header.flags & qr_protocol::frame::FLAG_DESCRIPTOR != 0 {
            continue;
        }
        let k = s.meta().blocks[f.header.sbn as usize].num_source_symbols;
        if f.header.esi >= k {
            repair_seen = true;
        }
        let id = (f.header.sbn, f.header.esi);
        assert!(seen.insert(id), "duplicate data frame id emitted: {id:?}");
    }
    assert!(
        repair_seen,
        "repair symbols (esi >= K) must be emitted after the source pass"
    );
}

#[test]
fn source_symbols_interleaved_across_blocks() {
    let meta = ObjectMeta {
        transfer_length: 3 * 10 * 1024,
        symbol_size: 1024,
        oti_bytes: [0u8; 12],
        blocks: vec![
            SourceBlockMeta {
                sbn: 0,
                num_source_symbols: 10,
                block_length: 10 * 1024,
            },
            SourceBlockMeta {
                sbn: 1,
                num_source_symbols: 10,
                block_length: 10 * 1024,
            },
            SourceBlockMeta {
                sbn: 2,
                num_source_symbols: 10,
                block_length: 10 * 1024,
            },
        ],
    };
    let plan = build_source_plan(&meta);

    let source_plan: Vec<(u32, u32)> = plan;

    let first_round = &source_plan[..3];
    let sbns: std::collections::HashSet<u32> =
        first_round.iter().map(|(sbn, _)| *sbn).collect();
    assert_eq!(
        sbns.len(),
        3,
        "first round should cover all 3 blocks once, got {:?}",
        first_round
    );
    assert!(
        first_round.iter().all(|(_, esi)| *esi == 0),
        "first round should all be esi=0"
    );

    let consecutive_same = first_round.windows(2).all(|w| w[0].0 == w[1].0);
    assert!(
        !consecutive_same,
        "plan is block-major, not interleaved: {:?}",
        first_round
    );
}

#[test]
fn repair_round_robin_multiblock_unique_and_fair() {
    let blocks = vec![
        SourceBlockMeta {
            sbn: 0,
            num_source_symbols: 5,
            block_length: 5 * 1024,
        },
        SourceBlockMeta {
            sbn: 1,
            num_source_symbols: 8,
            block_length: 8 * 1024,
        },
        SourceBlockMeta {
            sbn: 2,
            num_source_symbols: 3,
            block_length: 3 * 1024,
        },
    ];
    let mut seen = std::collections::HashSet::new();
    let mut per_block = [0u32; 3];
    for cursor in 0..3000u64 {
        let (sbn, esi) = repair_symbol_id(&blocks, cursor).unwrap();
        let k = blocks[sbn as usize].num_source_symbols;
        assert!(
            esi >= k,
            "esi {esi} below K {k} for block {sbn} (must be a repair symbol)"
        );
        assert!(seen.insert((sbn, esi)), "duplicate repair id ({sbn},{esi})");
        per_block[sbn as usize] += 1;
    }
    assert_eq!(
        per_block,
        [1000, 1000, 1000],
        "repair not round-robin: {per_block:?}"
    );
}

#[test]
fn repair_id_stops_at_rfc_24_bit_boundary() {
    let blocks = vec![SourceBlockMeta {
        sbn: 0,
        num_source_symbols: 5,
        block_length: 5 * 1024,
    }];
    assert!(repair_symbol_id(&blocks, (1 << 24) - 5 - 1).is_some());
    assert!(repair_symbol_id(&blocks, (1 << 24) - 5).is_none());
}

#[test]
fn default_descriptor_interval_is_efficient() {
    let data = payload(50_000);
    let s = SenderSession::new(
        &data,
        SessionId::zero(),
        SenderConfig::default(),
        test_file_meta(),
    )
    .unwrap();
    assert!(
        s.descriptor_interval() >= 16,
        "descriptor interval too low: {}",
        s.descriptor_interval()
    );
}

#[test]
fn default_descriptor_rotates_across_multi_qr_slots() {
    let data = payload(50_000);
    for slots in [2usize, 4usize] {
        let mut sender = SenderSession::new(
            &data,
            SessionId::zero(),
            SenderConfig::default(),
            test_file_meta(),
        )
        .unwrap();
        let mut seen = vec![false; slots];
        for frame_index in 0..(sender.descriptor_interval() as usize * slots) {
            let frame = sender.next_frame().unwrap();
            if frame.header.flags & qr_protocol::frame::FLAG_DESCRIPTOR != 0 {
                seen[frame_index % slots] = true;
            }
        }
        assert!(
            seen.iter().all(|&slot| slot),
            "descriptor did not visit every {slots}-QR slot: {seen:?}"
        );
    }
}

#[test]
fn repair_only_recovery() {
    let data = payload(40_000);
    let sid = SessionId::derive("repair", data.len() as u64, 0, &[]);
    let probe =
        SenderSession::new(&data, sid, SenderConfig::default(), test_file_meta()).unwrap();
    let meta = probe.meta().clone();
    let mut fm = test_file_meta();
    fm.compressed_size = meta.transfer_length;
    fm.compressed_size_known = true;
    let mut sender = SenderSession::new(&data, sid, SenderConfig::default(), fm).unwrap();

    let mut rx = ReceiverSession::new_confirmed(sid.into(), meta.clone()).unwrap();
    let mut guard = 0;
    while !rx.is_complete() {
        let frame = sender.next_frame().unwrap();
        guard += 1;
        assert!(guard < 200_000, "did not recover from a repair-only stream");
        if frame.header.flags & qr_protocol::frame::FLAG_DESCRIPTOR != 0 {
            continue;
        }
        let k = meta.blocks[frame.header.sbn as usize].num_source_symbols;
        if frame.header.esi < k {
            continue;
        }
        let parsed = Frame::from_bytes(&frame.to_bytes()).unwrap();
        let _ = rx.ingest(parsed);
    }
    let out = rx.assemble().unwrap();
    assert_eq!(
        &out[..data.len()],
        &data[..],
        "repair-only recovery payload mismatch"
    );
}

fn session(data: &[u8], symbol_size: u32) -> SenderSession {
    SenderSession::new(
        data,
        SessionId(42),
        SenderConfig { codec: Config::new(symbol_size).unwrap(), redundancy_pct: 25 },
        test_file_meta(),
    )
    .unwrap()
}

#[test]
fn source_plan_lists_every_symbol_once() {
    let sizes = [3u32, 1, 4];
    let meta = ObjectMeta {
        transfer_length: 8 * 64,
        symbol_size: 64,
        oti_bytes: [0; 12],
        blocks: sizes
            .iter()
            .enumerate()
            .map(|(i, &k)| SourceBlockMeta {
                sbn: i as u32,
                num_source_symbols: k,
                block_length: k as u64 * 64,
            })
            .collect(),
    };
    assert_eq!(
        build_source_plan(&meta),
        vec![(0, 0), (1, 0), (2, 0), (0, 1), (2, 1), (0, 2), (2, 2), (2, 3)]
    );
    assert_eq!(repair_symbol_id(&meta.blocks, 0), Some((0, 3)));
    assert_eq!(repair_symbol_id(&meta.blocks, 1), Some((1, 1)));
    assert_eq!(repair_symbol_id(&meta.blocks, 5), Some((2, 5)));
}

#[test]
fn frames_at_given_times_are_exact() {
    let data = payload(700);
    let mut s = session(&data, 512);
    s.set_descriptor_interval(3);
    assert_eq!(s.descriptor_interval(), 3);
    let d = s.next_frame_at(100, 101, 102).unwrap();
    assert_eq!(d.header.flags, 1);
    assert_eq!((d.header.frame_index, d.header.timestamp_ms), (1, 101));
    let a = s.next_frame_at(0, 201, 202).unwrap();
    assert_eq!((a.header.flags, a.header.sbn, a.header.esi), (0, 0, 0));
    assert_eq!((a.header.frame_index, a.header.timestamp_ms), (2, 201));
    assert_eq!(a.payload[..], data[..512]);
    let b = s.next_frame_at(0, 301, 302).unwrap();
    assert_eq!((b.header.flags, b.header.esi), (0, 1));
    assert_eq!(b.payload[..188], data[512..]);
    assert!(b.payload[188..].iter().all(|&x| x == 0));
    let d = s.next_frame_at(0, 401, 402).unwrap();
    assert_eq!((d.header.flags, d.header.frame_index), (1, 4));
    let r = s.next_frame_at(0, 501, 502).unwrap();
    assert_eq!((r.header.flags, r.header.esi, r.header.frame_index), (0, 2, 5));
    for f in [&a, &b, &d, &r] {
        assert_eq!(Frame::from_bytes(&f.to_bytes()).unwrap(), *f);
        assert_eq!((f.header.session_id, f.header.symbol_size), (42, 512));
        assert_eq!((f.header.total_blocks, f.header.total_symbols), (1, 2));
    }
    let stats = s.stats_at(1_100);
    assert_eq!((stats.frames, stats.bytes, stats.elapsed_ms), (5, 5 * 512, 1_000));
    assert_eq!(stats.window_rates(502), (400, 5, 2_560));
}

#[test]
fn interval_is_at_least_one() {
    let mut s = session(&payload(100), 512);
    s.set_descriptor_interval(0);
    assert_eq!(s.descriptor_interval(), 1);
    for _ in 0..3 {
        assert_eq!(s.next_frame().unwrap().header.flags, 1);
    }
}

#[test]
fn new_session_errors() {
    let config = |pct| SenderConfig { codec: Config::default(), redundancy_pct: pct };
    for pct in [4u8, 51] {
        assert!(matches!(
            SenderSession::new(&[1], SessionId(1), config(pct), test_file_meta()),
            Err(Error::InvalidRedundancy(p)) if p == pct
        ));
    }
    assert!(matches!(
        SenderSession::new(&[], SessionId(1), config(5), test_file_meta()),
        Err(Error::Raptorq(raptorq_core::Error::EmptyData))
    ));
    assert!(config(50).validate().is_ok());
}

#[test]
fn segment_sessions_are_checked() {
    let data = payload(500);
    let mut file = test_file_meta();
    file.compressed_size = 500;
    let segment = SegmentMeta {
        root_session_id: 9,
        segment_index: 0,
        segment_count: 1,
        original_offset: 0,
        root_original_size: 500,
        root_sha256: [1; 32],
        raw_sha256: [2; 32],
    };
    let child = SessionId::derive_segment(9, 0);
    let config = SenderConfig::default();
    let mut ok =
        SenderSession::new_segment(&data, child, config, file.clone(), segment.clone()).unwrap();
    assert_eq!(ok.segment_meta(), Some(&segment));
    let first = ok.next_frame().unwrap();
    assert_eq!(first.payload[1], 5);
    let info = parse_payload(&first.payload).unwrap();
    assert_eq!(info.segment, Some(segment.clone()));
    assert_eq!(ok.num_blocks(), 1);

    let mut short = file.clone();
    short.compressed_size = 499;
    match SenderSession::new_segment(&data, child, config, short, segment.clone()) {
        Err(Error::InvalidSegment(reason)) => {
            assert_eq!(reason, "segment compressed size does not match payload")
        }
        _ => panic!("accepted"),
    }
    match SenderSession::new_segment(&data, SessionId(1), config, file, segment) {
        Err(Error::InvalidSegment(reason)) => {
            assert_eq!(reason, "segment child session id mismatch")
        }
        _ => panic!("accepted"),
    }
}

#[test]
fn payloads_that_can_be_cut_into_blocks() {
    let config = |t| SenderConfig { codec: Config::new(t).unwrap(), redundancy_pct: 20 };
    let most = 255 * 56_403;
    assert!(can_encode(0, config(64)));
    assert!(can_encode(most * 64, config(64)));
    assert!(!can_encode(most * 64 + 1, config(64)));
    assert!(can_encode(most * 64 + 1, config(72)));
    assert!(!can_encode(usize::MAX, config(64)));
    assert!(session(&payload(700), 512).has_room(1_000));
}

#[test]
fn an_invalid_segment_is_refused_whatever_its_size() {
    let data = payload(700);
    let config = SenderConfig { codec: Config::default(), redundancy_pct: 20 };
    let segment = SegmentMeta {
        root_session_id: 9,
        segment_index: 0,
        segment_count: 0,
        original_offset: 0,
        root_original_size: 700,
        root_sha256: [0; 32],
        raw_sha256: [0; 32],
    };
    let file = FileMeta { compressed_size: 700, compressed_size_known: true, ..test_file_meta() };
    assert!(matches!(
        SenderSession::new_segment(&data, SessionId(1), config, file, segment),
        Err(Error::InvalidSegment("segment count out of range"))
    ));
}

#[test]
fn a_run_of_frames_follows_the_plan() {
    let mut s = session(&payload(5_000), 512);
    s.set_descriptor_interval(5);
    let plan = build_source_plan(s.meta());
    let mut ids = Vec::new();
    for k in 0..60u64 {
        let f = s.next_frame().unwrap();
        assert_eq!(f.header.frame_index, k + 1);
        assert_eq!(f.header.flags & 1 != 0, k % 5 == 0);
        assert_eq!(f.header.session_id, s.session_id());
        assert_eq!(f.header.total_blocks as usize, s.num_blocks());
        assert_eq!(f.header.total_symbols, s.total_k());
        assert_eq!(f.payload.len(), 512);
        if f.header.flags & 1 == 0 {
            ids.push((f.header.sbn, f.header.esi));
        }
    }
    assert_eq!(ids[..plan.len()], plan[..]);
    for (n, &(sbn, esi)) in ids.iter().enumerate().skip(plan.len()) {
        assert!(esi >= s.meta().blocks[sbn as usize].num_source_symbols);
        assert!(!ids[..n].contains(&(sbn, esi)));
    }
}
