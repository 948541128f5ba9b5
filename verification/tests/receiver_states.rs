//! Single steps of a receiver session.
use airferry::qr_protocol::compress;
use airferry::qr_protocol::{Frame, SessionId};
use airferry::raptorq_core;
use airferry::raptorq_core::{Config, ObjectMeta};
use airferry::transfer_engine::descriptor::{build_frame, parse_payload};
use airferry::transfer_engine::receiver::{accepts_descriptor, derive_meta_from_totals};
use airferry::transfer_engine::{
    Error, FileMeta, Progress, ReceiverSession, ResumeState, SenderConfig, SenderSession,
};

fn bytes(n: usize) -> Vec<u8> {
    (0..n).map(|i| (i * 7 % 251) as u8).collect()
}

fn file(original: u64, compressed: u64, compression: u8) -> FileMeta {
    FileMeta {
        filename: "f.bin".to_string(),
        original_size: original,
        crc32: 1,
        compression,
        compressed_size: compressed,
        compressed_size_known: true,
        crc32_known: true,
    }
}

fn sender(payload: &[u8], file: FileMeta) -> SenderSession {
    SenderSession::new(
        payload,
        SessionId(5),
        SenderConfig { codec: Config::new(512).unwrap(), redundancy_pct: 20 },
        file,
    )
    .unwrap()
}

fn complete(s: &mut SenderSession) -> ReceiverSession {
    let mut rx = ReceiverSession::new_pending(5);
    while !rx.is_complete() {
        rx.ingest(s.next_frame().unwrap()).unwrap();
    }
    rx
}

#[test]
fn frames_of_another_session_only_count() {
    let data = bytes(900);
    let mut s = sender(&data, file(900, 900, 0));
    let mut rx = ReceiverSession::new_pending(6);
    for n in 1..=3 {
        assert!(matches!(
            rx.ingest(s.next_frame().unwrap()),
            Err(Error::SessionMismatch { expected: 6, got: 5 })
        ));
        let p = rx.progress();
        assert_eq!(p.session_mismatch_streak, n);
        assert_eq!(Progress { session_mismatch_streak: 0, ..p }, Progress::default());
    }
    let own = Frame::build(6, 0, 0, 0, 1, 1, 8, 1, 0, &[0; 8]);
    assert!(!rx.ingest(own).unwrap());
    assert_eq!(rx.progress().session_mismatch_streak, 0);
}

#[test]
fn progress_follows_the_symbols() {
    let data = bytes(2_000);
    let mut s = sender(&data, file(2_000, 2_000, 0));
    let mut rx = ReceiverSession::new_pending(5);
    assert_eq!((rx.total_symbols(), rx.is_meta_confirmed()), (0, false));
    rx.ingest(s.next_frame().unwrap()).unwrap();
    assert_eq!((rx.total_symbols(), rx.is_meta_confirmed()), (4, true));
    let first = s.next_frame().unwrap();
    let again = first.clone();
    assert!(!rx.ingest(first).unwrap());
    let once = rx.progress();
    assert_eq!((once.received_symbols, once.decoded_symbols), (1, 1));
    assert_eq!((once.frames_seen, once.symbol_size), (2, 512));
    assert!(!rx.ingest(again).unwrap());
    let twice = rx.progress();
    assert_eq!(
        twice,
        Progress { frames_seen: 3, frames_duplicate: 1, ..once },
        "a repeated frame only counts"
    );
    for _ in 0..2 {
        assert!(!rx.ingest(s.next_frame().unwrap()).unwrap());
    }
    assert!(rx.ingest(s.next_frame().unwrap()).unwrap());
    let done = rx.progress_snapshot();
    assert_eq!((done.decoded_symbols, done.decoded_blocks, done.total_blocks), (4, 1, 1));
    assert!(done.is_complete() && done.meta_confirmed);
    assert_eq!(rx.assemble_raw().unwrap().len(), 2_048);
    assert_eq!(rx.assemble().unwrap(), data);
    assert_eq!(rx.session_id(), 5);
    assert!(rx.segment_meta().is_none());
}

#[test]
fn early_symbols_are_replayed_by_the_descriptor() {
    let data = bytes(2_000);
    let mut s = sender(&data, file(2_000, 2_000, 0));
    let descriptor = s.next_frame().unwrap();
    let mut rx = ReceiverSession::new_pending(5);
    for _ in 0..3 {
        rx.ingest(s.next_frame().unwrap()).unwrap();
    }
    rx.ingest(Frame::build(5, 0, 9, 0, 1, 4, 512, 0, 0, &[0; 512])).unwrap();
    assert_eq!((rx.cached_symbols(), rx.progress().received_symbols), (4, 4));
    assert_eq!((rx.progress().decoded_symbols, rx.progress().total_symbols), (0, 0));
    assert!(rx.save_state().is_none());
    rx.ingest(descriptor).unwrap();
    let p = rx.progress();
    assert_eq!((rx.cached_symbols(), p.received_symbols, p.decoded_symbols), (0, 3, 3));
    assert_eq!(p.frames_corrupt, 1);
    assert!(rx.ingest(s.next_frame().unwrap()).unwrap());
    assert_eq!(rx.assemble().unwrap(), data);
}

#[test]
fn impossible_symbols_are_discarded() {
    let data = bytes(2_000);
    let s = sender(&data, file(2_000, 2_000, 0));
    let mut rx = ReceiverSession::new(5, s.meta().clone()).unwrap();
    for (i, f) in [
        Frame::build(5, 0, 1, 0, 1, 4, 512, 0, 0, &[0; 512]),
        Frame::build(5, 0, 0, 1 << 24, 1, 4, 512, 0, 0, &[0; 512]),
        Frame::build(5, 0, 0, 0, 1, 4, 504, 0, 0, &[0; 504]),
    ]
    .into_iter()
    .enumerate()
    {
        assert!(!rx.ingest(f).unwrap());
        assert_eq!(rx.progress().frames_corrupt, i as u64 + 1);
    }
    assert_eq!(rx.progress().received_symbols, 0);
}

#[test]
fn descriptors_are_accepted_within_the_budget() {
    let data = bytes(2_000);
    let s = sender(&data, file(2_000, 2_000, 0));
    let accepted = |meta: &ObjectMeta, f: FileMeta| {
        let frame = build_frame(meta, &f, 5, 1, 0).unwrap();
        accepts_descriptor(&frame.header, &parse_payload(&frame.payload).unwrap())
    };
    assert!(accepted(s.meta(), file(2_000, 2_000, 0)));
    assert!(accepted(s.meta(), file(256 * 1024 * 1024, 2_000, 1)));
    assert!(!accepted(s.meta(), file(256 * 1024 * 1024 + 1, 2_000, 1)));
    assert!(!accepted(s.meta(), file(2_000, 2_000, 3)));
    assert!(!accepted(s.meta(), file(2_000, 2_049, 0)));
    assert!(!accepted(s.meta(), file(0, 2_000, 1)));
    assert!(accepted(s.meta(), file(0, 2_000, 0)));
    let frame = build_frame(s.meta(), &file(2_000, 2_000, 0), 5, 1, 0).unwrap();
    let info = parse_payload(&frame.payload).unwrap();
    for change in 0..3 {
        let mut h = frame.header;
        match change {
            0 => h.symbol_size = 504,
            1 => h.total_blocks = 2,
            _ => h.total_symbols = 5,
        }
        assert!(!accepts_descriptor(&h, &info));
    }
}

#[test]
fn descriptor_must_match_known_metadata() {
    let a = sender(&bytes(2_000), file(2_000, 2_000, 0));
    let b = sender(&bytes(3_000), file(3_000, 3_000, 0));
    let mut rx = ReceiverSession::new_confirmed(5, a.meta().clone()).unwrap();
    let other = build_frame(b.meta(), &file(3_000, 3_000, 0), 5, 1, 0).unwrap();
    rx.ingest(other).unwrap();
    assert_eq!(rx.progress().frames_corrupt, 1);
    assert_eq!(*rx.file_meta(), FileMeta::default());
    let own = build_frame(a.meta(), &file(2_000, 2_000, 0), 5, 1, 0).unwrap();
    rx.ingest(own.clone()).unwrap();
    rx.ingest(own).unwrap();
    assert_eq!(rx.progress().frames_corrupt, 1);
    assert_eq!(rx.file_meta().original_size, 2_000);
    match ReceiverSession::new(5, ObjectMeta { symbol_size: 0, ..a.meta().clone() }) {
        Err(Error::Raptorq(raptorq_core::Error::InvalidObjectMeta(reason))) => {
            assert_eq!(reason, "symbol_size out of range")
        }
        _ => panic!("accepted"),
    }
}

#[test]
fn compressed_files_come_back() {
    let original = bytes(9_000);
    for tag in [compress::COMPRESSION_ZSTD, compress::COMPRESSION_XZ] {
        let packed = compress::compress_with(&original, tag).unwrap();
        let mut s = sender(&packed, file(9_000, packed.len() as u64, tag));
        let mut rx = complete(&mut s);
        assert_eq!(rx.assemble_result().unwrap().unwrap(), original);
        assert!(rx.last_assemble_error().is_none());
    }
}

fn failure(rx: &mut ReceiverSession) -> String {
    let message = match rx.assemble_result() {
        Err(Error::Compress(m)) => m,
        _ => panic!("assembled"),
    };
    assert_eq!(rx.last_assemble_error(), Some(message.as_str()));
    assert!(rx.assemble().is_none());
    message
}

#[test]
fn assembly_failures_are_told_and_kept() {
    let original = bytes(9_000);
    let packed = compress::compress_with(&original, 1).unwrap();
    let len = packed.len() as u64;

    let mut rx = complete(&mut sender(&packed, file(9_001, len, 1)));
    assert_eq!(failure(&mut rx), "decompressed size mismatch: expected 9001, got 9000");

    let mut rx = complete(&mut sender(&packed, file(8_999, len, 1)));
    assert_eq!(
        failure(&mut rx),
        "compression error: decompressed output exceeds expected size"
    );

    let mut rx = complete(&mut sender(&original, file(9_000, 9_000, 1)));
    assert!(failure(&mut rx).starts_with("compression error: "));

    let mut pending = ReceiverSession::new_pending(5);
    assert!(matches!(pending.assemble_result(), Ok(None)));
    assert!(pending.assemble_raw().is_none());
}

#[test]
fn saved_state_restores_to_a_waiting_session() {
    let data = bytes(2_000);
    let mut s = sender(&data, file(2_000, 2_000, 0));
    let mut rx = ReceiverSession::new_pending(5);
    for _ in 0..3 {
        rx.ingest(s.next_frame().unwrap()).unwrap();
    }
    let state = rx.save_state().unwrap();
    assert!(state.symbols.is_empty());
    assert!(state.received.iter().all(|ids| ids.is_empty()));
    assert_eq!((state.session_id, state.received.len()), (5, 1));
    assert_eq!(state.validate(), Ok(()));
    let again = ReceiverSession::restore(state).unwrap();
    assert_eq!(again.progress().received_symbols, 0);
    assert_eq!(again.progress().total_symbols, 4);
    assert!(again.is_meta_confirmed());
}

#[test]
fn stored_symbols_are_replayed_on_restore() {
    let data = bytes(2_000);
    let mut s = sender(&data, file(2_000, 2_000, 0));
    let meta = s.meta().clone();
    let mut symbols = Vec::new();
    while symbols.len() < 4 {
        let f = s.next_frame().unwrap();
        if f.header.flags == 0 {
            symbols.push((f.header.sbn, f.header.esi, f.payload));
        }
    }
    symbols.push(symbols[0].clone());
    let state = ResumeState { session_id: 5, meta, received: Vec::new(), symbols };
    let rx = ReceiverSession::restore(state.clone()).unwrap();
    assert!(rx.is_complete());
    assert_eq!(rx.progress().received_symbols, 4);
    assert_eq!(rx.assemble_raw().unwrap()[..2_000], data[..]);
    let mut bad = state;
    bad.symbols[0].0 = 7;
    match ReceiverSession::restore(bad) {
        Err(Error::InvalidResume(reason)) => {
            assert_eq!(reason, "stored resume symbol coordinate out of range")
        }
        _ => panic!("restored"),
    }
}

#[test]
fn guessed_metadata_splits_evenly() {
    let m = derive_meta_from_totals(3, 10, 512);
    assert_eq!((m.transfer_length, m.symbol_size), (5_120, 512));
    let sizes: Vec<(u32, u32, u64)> =
        m.blocks.iter().map(|b| (b.sbn, b.num_source_symbols, b.block_length)).collect();
    assert_eq!(sizes, vec![(0, 4, 2_048), (1, 3, 1_536), (2, 3, 1_536)]);
    let oti = m.oti();
    assert_eq!((oti.transfer_length, oti.symbol_size, oti.source_blocks), (5_120, 512, 1));
    assert_eq!(derive_meta_from_totals(0, 2, 64).blocks.len(), 1);
}

#[test]
fn later_descriptors_and_symbols_only_count() {
    let data = bytes(900);
    let mut s = sender(&data, file(900, 900, 0));
    let first = s.next_frame().unwrap();
    let symbol = s.next_frame().unwrap();
    let mut rx = ReceiverSession::new_pending(5);
    rx.ingest(first.clone()).unwrap();
    let p = rx.progress();
    rx.ingest(first).unwrap();
    assert_eq!(rx.progress(), Progress { frames_seen: 2, ..p });
    let other = sender(&data, file(899, 900, 0)).next_frame().unwrap();
    rx.ingest(other).unwrap();
    assert_eq!(rx.progress(), Progress { frames_seen: 3, frames_corrupt: 1, ..p });
    assert_eq!(rx.file_meta().original_size, 900);

    rx.ingest(symbol.clone()).unwrap();
    rx.ingest(symbol.clone()).unwrap();
    let p = rx.progress();
    assert_eq!((p.received_symbols, p.frames_duplicate, p.frames_corrupt), (1, 1, 1));
    let mut short = symbol;
    short.payload.pop();
    rx.ingest(short).unwrap();
    assert_eq!(rx.progress().frames_corrupt, 2);
}
