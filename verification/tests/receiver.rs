//! Receiver sessions.
use airferry::qr_protocol;
use airferry::qr_protocol::{Frame, SessionId, FLAG_DESCRIPTOR};
use airferry::raptorq_core::Config;
use airferry::transfer_engine::descriptor;
use airferry::transfer_engine::receiver::model::{
    PRE_META_CACHE_BYTES_BUDGET, PRE_META_CACHE_BYTES_PER_ENTRY, PRE_META_SYMBOL_CACHE_MAX,
};
use airferry::transfer_engine::receiver::pre_meta_cache_max;
use airferry::transfer_engine::{ReceiverSession, ResumeState, SenderConfig, SenderSession};
use std::collections::HashSet;

fn payload(n: usize) -> Vec<u8> {
    (0..n).map(|i| (i & 0xff) as u8).collect()
}

fn run_roundtrip(data: &[u8], redundancy: u8, drop_every: u32) {
    let sid = SessionId::derive("file", data.len() as u64, 0, &[]);
    let sender = SenderSession::new(
        data,
        sid,
        SenderConfig {
            codec: Config::default(),
            redundancy_pct: redundancy,
        },
        descriptor::FileMeta::default(),
    )
    .unwrap();
    let meta = sender.meta().clone();
    let mut fm = sender.file_meta().clone();
    fm.compressed_size = meta.transfer_length;
    fm.compressed_size_known = true;
    let mut sender = SenderSession::new(
        data,
        sid,
        SenderConfig {
            codec: Config::default(),
            redundancy_pct: redundancy,
        },
        fm,
    )
    .unwrap();

    let mut rx = ReceiverSession::new_confirmed(sid.into(), meta).unwrap();
    let total = sender.total_k();
    let frames_needed = (total + total * redundancy as u32 / 100 + 10) as usize;
    let mut emitted = 0u32;
    let mut ingested = 0u32;
    for _ in 0..(frames_needed * 3) {
        if rx.is_complete() {
            break;
        }
        let frame = sender.next_frame().unwrap();
        emitted += 1;
        if emitted % drop_every == 0 {
            continue;
        }
        let bytes = frame.to_bytes();
        let parsed = Frame::from_bytes(&bytes).unwrap();
        rx.ingest(parsed).unwrap();
        ingested += 1;
    }
    assert!(
        rx.is_complete(),
        "failed to recover: emitted={emitted} ingested={ingested} total_k={total}"
    );
    let out = rx.assemble().unwrap();
    assert!(
        out.len() >= data.len(),
        "assembled too short: out={} data={}",
        out.len(),
        data.len()
    );
    assert_eq!(&out[..data.len()], data, "payload bytes must match");
    assert!(
        out[data.len()..].iter().all(|&b| b == 0),
        "trailing pad must be zero"
    );
}

#[test]
fn roundtrip_small_nodrop() {
    let data = payload(50_000);
    run_roundtrip(&data, 10, 1000);
}

#[test]
fn roundtrip_with_20pct_loss() {
    let data = payload(30_000);
    run_roundtrip(&data, 50, 5);
}

#[test]
fn from_first_frame_recovers_multiblock_late_descriptor() {
    let data = payload(120_000);
    let sid = SessionId::derive("late", data.len() as u64, 0, &[]);
    let probe = SenderSession::new(
        &data,
        sid,
        SenderConfig {
            codec: Config::default(),
            redundancy_pct: 20,
        },
        descriptor::FileMeta::default(),
    )
    .unwrap();
    let padded_len = probe.meta().transfer_length;
    let fm = descriptor::FileMeta {
        filename: String::new(),
        original_size: data.len() as u64,
        crc32: 0,
        compression: qr_protocol::compress::COMPRESSION_NONE,
        compressed_size: padded_len,
        compressed_size_known: true,
        crc32_known: false,
    };
    let mut sender = SenderSession::new(
        &data,
        sid,
        SenderConfig {
            codec: Config::default(),
            redundancy_pct: 20,
        },
        fm,
    )
    .unwrap();
    sender.set_descriptor_interval(8);

    let mut frames: Vec<Frame> = Vec::new();
    for _ in 0..(sender.total_k() as usize * 2 + 32) {
        frames.push(sender.next_frame().unwrap());
    }

    let mut rx = ReceiverSession::from_first_frame(&frames[0]);
    for f in frames {
        let parsed = Frame::from_bytes(&f.to_bytes()).unwrap();
        let _ = rx.ingest(parsed);
        if rx.is_complete() {
            break;
        }
    }
    assert!(rx.is_complete(), "late-descriptor receiver must recover");
    let out = rx.assemble().unwrap();
    assert_eq!(&out[..data.len()], data);
}

#[test]
fn rejects_unparseable_descriptor_payload() {
    let sid = SessionId::derive("bad-desc", 100, 0, &[]).into();
    let mut rx = ReceiverSession::new_pending(sid);
    let payload = vec![0u8; 1024];
    let f = Frame::build(sid, FLAG_DESCRIPTOR, 0, 0, 1, 1, 1024, 0, 0, &payload);
    let _ = rx.ingest(f).unwrap();
    assert!(!rx.is_meta_confirmed());
    assert!(rx.progress().frames_corrupt >= 1);
}

#[test]
fn rejects_tampered_descriptor_without_panic() {
    let data = payload(20_000);
    let sid = SessionId::derive("evil", data.len() as u64, 0, &[]);
    let sender = SenderSession::new(
        &data,
        sid,
        SenderConfig::default(),
        descriptor::FileMeta::default(),
    )
    .unwrap();
    let meta = sender.meta().clone();
    let mut desc = descriptor::build_frame(
        &meta,
        &descriptor::FileMeta::default(),
        sid.into(),
        1,
        0,
    )
    .unwrap();
    desc.payload[12..16].copy_from_slice(&999u32.to_be_bytes());

    let mut rx = ReceiverSession::new_pending(sid.into());
    let _ = rx.ingest(desc);
    assert!(
        !rx.is_meta_confirmed(),
        "tampered descriptor must be rejected"
    );
    assert!(
        rx.progress().frames_corrupt >= 1,
        "rejected descriptor counts as corrupt"
    );
}

#[test]
fn first_valid_descriptor_is_immutable() {
    let data = payload(20_000);
    let sid = SessionId::derive("immutable", data.len() as u64, 0, &[]);
    let sender = SenderSession::new(
        &data,
        sid,
        SenderConfig::default(),
        descriptor::FileMeta::default(),
    )
    .unwrap();
    let meta = sender.meta().clone();
    let first_meta = descriptor::FileMeta {
        filename: "first.bin".into(),
        original_size: data.len() as u64,
        compressed_size: data.len() as u64,
        compressed_size_known: true,
        ..Default::default()
    };
    let mut changed_meta = first_meta.clone();
    changed_meta.filename = "changed.exe".into();

    let mut rx = ReceiverSession::new_pending(sid.into());
    rx.ingest(descriptor::build_frame(&meta, &first_meta, sid.into(), 1, 0).unwrap())
        .unwrap();
    let corrupt_before = rx.progress().frames_corrupt;
    rx.ingest(descriptor::build_frame(&meta, &changed_meta, sid.into(), 2, 0).unwrap())
        .unwrap();

    assert_eq!(rx.file_meta().filename, "first.bin");
    assert!(rx.progress().frames_corrupt > corrupt_before);
}

#[test]
fn pre_meta_symbol_cache_is_bounded() {
    let sid = SessionId::derive("cache-cap", 1, 0, &[]).into();
    let mut rx = ReceiverSession::new_pending(sid);
    let symbol_size: u32 = 64;
    let payload = vec![0u8; symbol_size as usize];
    let cap = pre_meta_cache_max(symbol_size);
    assert!(cap >= PRE_META_SYMBOL_CACHE_MAX);
    for i in 0..cap {
        let f = Frame::build(sid, 0, 0, i as u32, 1, 1, symbol_size, 1, 0, &payload);
        let _ = rx.ingest(f).unwrap();
    }
    assert_eq!(rx.cached_symbols(), cap);
    assert_eq!(rx.progress().received_symbols as usize, cap);
    let corrupt_before = rx.progress().frames_corrupt;
    let overflow = Frame::build(sid, 0, 0, cap as u32, 1, 1, symbol_size, 1, 0, &payload);
    let _ = rx.ingest(overflow).unwrap();
    assert_eq!(rx.cached_symbols(), cap);
    assert!(rx.progress().frames_corrupt > corrupt_before);
    let dup = Frame::build(sid, 0, 0, 0, 1, 1, symbol_size, 1, 0, &payload);
    let dup_before = rx.progress().frames_duplicate;
    let _ = rx.ingest(dup).unwrap();
    assert_eq!(rx.cached_symbols(), cap);
    assert!(rx.progress().frames_duplicate > dup_before);
}

#[test]
fn pre_meta_cache_max_scales_with_symbol_size() {
    assert!(pre_meta_cache_max(1400) > PRE_META_SYMBOL_CACHE_MAX);
    assert_eq!(
        pre_meta_cache_max(64),
        usize::try_from(PRE_META_CACHE_BYTES_BUDGET)
            .unwrap()
            .div_ceil(64)
    );
    assert_eq!(pre_meta_cache_max(0), PRE_META_SYMBOL_CACHE_MAX);
}

#[test]
fn pre_meta_cache_max_charges_per_entry_overhead_for_tiny_symbols() {
    let budget = usize::try_from(PRE_META_CACHE_BYTES_BUDGET).unwrap();
    assert_eq!(
        pre_meta_cache_max(1),
        budget.div_ceil(PRE_META_CACHE_BYTES_PER_ENTRY)
    );
    assert_eq!(pre_meta_cache_max(1), pre_meta_cache_max(64));
    assert!(pre_meta_cache_max(1) < budget);
    assert!(pre_meta_cache_max(1) >= PRE_META_SYMBOL_CACHE_MAX);
}

#[test]
fn pre_meta_cache_max_does_not_rebloat_for_large_symbols() {
    let budget = usize::try_from(PRE_META_CACHE_BYTES_BUDGET).unwrap();
    let cap_large = pre_meta_cache_max(65_528);
    assert_eq!(cap_large, budget.div_ceil(65_528));
    assert!(cap_large < PRE_META_SYMBOL_CACHE_MAX);
    let worst_case_bytes = cap_large * 65_528;
    assert!(
        worst_case_bytes <= budget * 2,
        "large-symbol cache worst-case RAM {} exceeds 2× budget {}",
        worst_case_bytes,
        budget
    );
}

#[test]
fn restore_ignores_received_esi_without_replayable_payload() {
    let data = payload(20_000);
    let sid = SessionId::derive("resume-honest", data.len() as u64, 0, &[]);
    let mut sender = SenderSession::new(
        &data,
        sid,
        SenderConfig::default(),
        descriptor::FileMeta::default(),
    )
    .unwrap();
    let meta = sender.meta().clone();
    let mut claimed = vec![HashSet::new(); meta.blocks.len()];
    claimed[0].insert(0);
    let state = ResumeState {
        session_id: sid.into(),
        meta,
        received: claimed,
        symbols: Vec::new(),
    };

    let mut restored = ReceiverSession::restore(state).unwrap();
    assert_eq!(restored.progress().received_symbols, 0);

    let first_data = loop {
        let frame = sender.next_frame().unwrap();
        if frame.header.flags & qr_protocol::frame::FLAG_DESCRIPTOR == 0 {
            break frame;
        }
    };
    restored.ingest(first_data).unwrap();
    assert_eq!(restored.progress().received_symbols, 1);
    assert_eq!(restored.progress().frames_duplicate, 0);
}

#[test]
fn drops_hostile_esi_frame_without_panic() {
    let data = payload(20_000);
    let sid = SessionId::derive("e", data.len() as u64, 0, &[]);
    let meta = SenderSession::new(
        &data,
        sid,
        SenderConfig::default(),
        descriptor::FileMeta::default(),
    )
    .unwrap()
    .meta()
    .clone();
    let mut rx = ReceiverSession::new_confirmed(sid.into(), meta.clone()).unwrap();

    let payload_bytes = vec![0u8; meta.symbol_size as usize];
    let f = Frame::build(
        sid.into(),
        0,
        0,
        1u32 << 24,
        meta.blocks.len() as u32,
        1,
        meta.symbol_size,
        1,
        0,
        &payload_bytes,
    );
    let _ = rx.ingest(f);
    assert_eq!(
        rx.progress().received_symbols,
        0,
        "hostile ESI must not be accepted"
    );
    assert!(rx.progress().frames_corrupt >= 1);
}
