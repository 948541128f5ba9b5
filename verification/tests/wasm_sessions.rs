//! The sessions as a browser drives them.
use airferry::digest::sha256;
use airferry::qr_protocol::qr_render::encode;
use airferry::qr_protocol::{Frame, SessionId};
use airferry::transfer_engine::ingest_status::{pack, INGEST_ERROR};
use airferry::transfer_engine::wasm::{
    encode_qr, ReceiverSessionWasm, SenderSessionWasm, Tick, QR_SCRATCH_BYTES,
};

fn data(n: usize) -> Vec<u8> {
    (0..n).map(|i| (i * 13 % 256) as u8).collect()
}

fn sender(payload: &[u8], symbol_size: u32) -> SenderSessionWasm {
    match SenderSessionWasm::new(payload, 7, 1, 20, symbol_size, "a.bin", 900, 5, 0) {
        Ok(s) => s,
        Err(m) => panic!("{m}"),
    }
}

fn modules(bytes: &[u8]) -> Vec<u8> {
    encode(bytes).unwrap().modules.iter().map(|&d| d as u8).collect()
}

#[test]
fn frames_cross_from_sender_to_receiver() {
    let payload = data(900);
    let mut s = sender(&payload, 512);
    assert_eq!((s.session_id_lo(), s.session_id_hi()), (7, 1));
    assert_eq!((s.total_symbols(), s.num_blocks()), (2, 1));
    assert_eq!((s.segment_index(), s.segment_count(), s.is_segmented()), (0, 1, false));
    let first = s.next_frame().unwrap();
    let mut rx = ReceiverSessionWasm::from_descriptor(&first).unwrap_or_else(|m| panic!("{m}"));
    assert!(rx.meta_confirmed() && !rx.is_complete());
    assert_eq!((rx.session_id_lo(), rx.session_id_hi()), (7, 1));
    assert_eq!(rx.file_name(), "a.bin");
    assert_eq!((rx.original_size(), rx.compressed_size(), rx.compression()), (900, 900, 0));
    assert_eq!((rx.crc32(), rx.crc32_known(), rx.compressed_size_known()), (5, true, true));
    assert_eq!((rx.is_segmented(), rx.segment_index(), rx.segment_count()), (false, 0, 1));
    assert_eq!((rx.root_original_size(), rx.original_offset()), (0, 0));
    assert_eq!((rx.root_session_id_lo(), rx.root_session_id_hi()), (0, 0));
    assert!(rx.raw_sha256().is_empty() && rx.root_sha256().is_empty());
    assert!(rx.assemble_raw().is_empty());
    assert_eq!(rx.ingest(&[1, 2, 3]), INGEST_ERROR);
    assert_eq!(rx.ingest(&s.next_frame().unwrap()), pack(false, true, 0, 1));
    assert_eq!(rx.ingest(&s.next_frame().unwrap()), pack(true, true, 0, 2));
    assert_eq!(rx.assemble_raw(), payload);
    assert_eq!(rx.progress().decoded_symbols, 2);
    assert_eq!(s.stats().frames, 3);
}

#[test]
fn receivers_start_only_with_a_descriptor() {
    let mut s = sender(&data(900), 512);
    let descriptor = s.next_frame().unwrap();
    let symbol = s.next_frame().unwrap();
    let refused = |bytes: &[u8]| match ReceiverSessionWasm::from_descriptor(bytes) {
        Ok(_) => panic!("accepted"),
        Err(m) => m,
    };
    assert_eq!(refused(&[]), "protocol error: buffer too short: need 64 bytes, have 0");
    assert_eq!(
        refused(&symbol),
        "from_descriptor: frame is not a descriptor (FLAG_DESCRIPTOR clear)"
    );
    let parsed = Frame::from_bytes(&descriptor).unwrap();
    let h = parsed.header;
    let hostile = Frame::build(
        h.session_id, 1, 0, 0, h.total_blocks, h.total_symbols + 1, h.symbol_size, 1, 0,
        &parsed.payload,
    );
    assert_eq!(
        refused(&hostile.to_bytes()),
        "from_descriptor: descriptor rejected (corrupt/hostile payload); meta not confirmed"
    );
    let mut plain = ReceiverSessionWasm::new(7, 1);
    assert!(!plain.meta_confirmed());
    assert_eq!(plain.ingest(&symbol), pack(false, true, 0, 1));
}

#[test]
fn sender_arguments_are_checked() {
    let refused = |pct: u8, size: u32, payload: &[u8]| {
        match SenderSessionWasm::new(payload, 0, 0, pct, size, "n", 1, 0, 0) {
            Ok(_) => panic!("accepted"),
            Err(m) => m,
        }
    };
    assert_eq!(
        refused(20, 63, &[1]),
        "symbol size must be 8-byte aligned and between 64 and 65528 bytes"
    );
    assert_eq!(
        refused(60, 512, &[1]),
        "invalid redundancy percentage: 60 (must be between 5 and 50)"
    );
    assert_eq!(refused(20, 512, &[]), "raptorq error: data is empty");
    assert_eq!(
        refused(20, 64, &[1]),
        "protocol error: buffer too short: need 66 bytes, have 64"
    );
}

fn segment(root_sha: &[u8], raw_sha: &[u8], offset: u64) -> Result<SenderSessionWasm, String> {
    SenderSessionWasm::new_segment(
        &[9u8; 300], 0xAB, 0xCD, 0, 1, offset, 300, root_sha, raw_sha, 20, 512, "s.bin", 400, 8, 1,
    )
}

#[test]
fn segment_sessions_carry_their_place() {
    let root = sha256(b"root");
    let raw = sha256(&[9u8; 300]);
    let mut s = segment(&root, &raw, 0).unwrap_or_else(|m| panic!("{m}"));
    assert_eq!((s.is_segmented(), s.segment_index(), s.segment_count()), (true, 0, 1));
    let id = (0xCDu128 << 64) | 0xAB;
    let child = SessionId::derive_segment(id, 0).0;
    assert_eq!((s.session_id_lo(), s.session_id_hi()), (child as u64, (child >> 64) as u64));
    let rx = ReceiverSessionWasm::from_descriptor(&s.next_frame().unwrap())
        .unwrap_or_else(|m| panic!("{m}"));
    assert!(rx.is_segmented());
    assert_eq!((rx.root_session_id_lo(), rx.root_session_id_hi()), (0xAB, 0xCD));
    assert_eq!((rx.root_original_size(), rx.original_offset()), (300, 0));
    assert_eq!((rx.root_sha256(), rx.raw_sha256()), (root.to_vec(), raw.to_vec()));
    assert_eq!((rx.segment_index(), rx.segment_count()), (0, 1));

    let refused = |r: Result<SenderSessionWasm, String>| match r {
        Ok(_) => panic!("accepted"),
        Err(m) => m,
    };
    assert_eq!(
        refused(segment(&root[..31], &raw, 0)),
        "root_sha256 and raw_sha256 must be exactly 32 bytes"
    );
    assert_eq!(
        refused(segment(&root, &raw, 1)),
        "invalid large-transfer segment: segment offset is not canonical"
    );
}

#[test]
fn one_code_at_a_time() {
    let tick = Tick { started_at: 10, now: 20, sampled_at: 30 };
    let mut a = sender(&data(900), 512);
    let mut b = sender(&data(900), 512);
    let mut side = [0u32; 2];
    let grid = a.next_qr_at(tick, &mut side).unwrap();
    assert_eq!(side, [81, 0]);
    assert_eq!(grid.len(), 81 * 81);
    let mut buf = vec![7u8; 81 * 81 + 2];
    let mut side = [0u32; 1];
    assert_eq!(b.next_qr_into_at(tick, &mut buf, &mut side).unwrap(), 81 * 81);
    assert_eq!(buf[..81 * 81], grid[..]);
    assert_eq!(buf[81 * 81..], [7, 7]);
    assert_eq!(side, [81]);

    assert_eq!(a.next_qr_at(tick, &mut []).unwrap_err(), "out_side buffer empty");
    assert_eq!(a.stats().frames, 1);
    assert_eq!(b.next_qr_into_at(tick, &mut buf, &mut []).unwrap_err(), "out_side buffer empty");
    assert_eq!(
        b.next_qr_into_at(tick, &mut buf[..10], &mut side).unwrap_err(),
        "out_modules too small: need 6561, have 10"
    );
    assert_eq!(b.stats().frames, 2);
    assert_eq!(a.next_qr(&mut side).unwrap().len(), 81 * 81);
    assert_eq!(b.next_qr_into(&mut buf, &mut side).unwrap(), 81 * 81);
}

#[test]
fn codes_of_bytes() {
    let mut side = [0u32];
    let bytes = data(300);
    assert_eq!(encode_qr(&bytes, &mut side).unwrap(), modules(&bytes));
    assert_eq!(side[0] as usize, encode(&bytes).unwrap().size);
    assert_eq!(encode_qr(&bytes, &mut []).unwrap_err(), "out_side buffer empty");
    assert_eq!(
        encode_qr(&[0; 2954], &mut side).unwrap_err(),
        "qr encode failed: BufferTooShort { need: 2953, have: 2954 }"
    );
}

#[test]
fn several_codes_at_a_time() {
    let n = 81 * 81;
    let mut s = sender(&data(900), 512);
    let out = s.next_qr_multi(2).unwrap();
    assert_eq!(out.len(), 4 + 2 * (4 + n));
    assert_eq!(out[..8], [2, 0, 0, 0, 81, 0, 0, 0]);
    assert_eq!(out[8 + n..12 + n], [81, 0, 0, 0]);
    assert!(out[8..8 + n].iter().all(|&m| m <= 1));
    assert_ne!(out[8..8 + n], out[12 + n..]);
    assert_eq!(s.next_qr_multi(0).unwrap(), vec![0, 0, 0, 0]);
    assert_eq!(s.next_qr_multi(100).unwrap()[..4], [8, 0, 0, 0]);
    assert_eq!(s.stats().frames, 10);

    let mut buf = vec![5u8; 4 + 2 * (4 + n) + 1];
    assert_eq!(s.next_qr_multi_into(2, &mut buf).unwrap() as usize, buf.len() - 1);
    assert_eq!(buf[..8], [2, 0, 0, 0, 81, 0, 0, 0]);
    assert_eq!(buf[buf.len() - 1], 5);
    let mut small = vec![5u8; 4 + (4 + n) + 10];
    assert_eq!(
        s.next_qr_multi_into(2, &mut small).unwrap_err(),
        format!("out_buf overflow at matrix 1: need {} at pos {}, have {}", n + 4, n + 8, n + 18)
    );
    assert_eq!(small[..8], [5, 5, 5, 5, 81, 0, 0, 0]);
    assert!(small[8 + n..].iter().all(|&b| b == 5));
    assert_eq!(
        s.next_qr_multi_into(2, &mut [0; 3]).unwrap_err(),
        "out_buf too small for count slot"
    );
    assert_eq!(s.stats().frames, 14);
}

#[test]
fn codes_in_the_scratch_buffer() {
    let n = 81 * 81;
    let mut s = sender(&data(900), 512);
    assert_eq!(s.qr_scratch_view(), vec![0u8; QR_SCRATCH_BYTES]);
    assert_eq!(s.next_qr_scratch(0).unwrap() as usize, 4 + 4 + n);
    assert_eq!(s.qr_scratch_view()[..8], [1, 0, 0, 0, 81, 0, 0, 0]);
    assert_eq!(s.next_qr_scratch(9).unwrap() as usize, 4 + 4 * (4 + n));
    assert_eq!(s.qr_scratch_view()[..8], [4, 0, 0, 0, 81, 0, 0, 0]);
    assert_eq!(s.stats().frames, 5);

    let mut large = sender(&data(3_000), 2_896);
    assert_eq!(
        large.next_qr_scratch(1).unwrap_err(),
        "qr encode failed: BufferTooShort { need: 2953, have: 2960 }"
    );
    assert_eq!(large.next_qr_multi(2).unwrap(), vec![0, 0, 0, 0]);
    assert_eq!(large.stats().frames, 2);
    let mut widest = sender(&data(3_000), 2_888);
    assert_eq!(widest.next_qr_scratch(4).unwrap() as usize, QR_SCRATCH_BYTES);
}

fn tick(now: u64) -> Tick {
    Tick { started_at: 1_000, now, sampled_at: now }
}

#[test]
fn batches_at_given_times_are_exact() {
    let n = 81 * 81;
    let ticks = [tick(1_001), tick(1_002)];
    let mut one = sender(&data(900), 512);
    let first = one.next_frame_at(ticks[0]).unwrap();
    let second = one.next_frame_at(ticks[1]).unwrap();
    let mut want = vec![2, 0, 0, 0, 81, 0, 0, 0];
    want.extend(modules(&first));
    want.extend([81, 0, 0, 0]);
    want.extend(modules(&second));
    assert_eq!(want.len(), 4 + 2 * (4 + n));

    let mut s = sender(&data(900), 512);
    assert_eq!(s.next_qr_multi_at(&ticks).unwrap(), want);

    let mut s = sender(&data(900), 512);
    let mut buf = vec![9u8; want.len() + 2];
    assert_eq!(s.next_qr_multi_into_at(&ticks, &mut buf).unwrap() as usize, want.len());
    assert_eq!(buf[..want.len()], want);
    assert_eq!(buf[want.len()..], [9, 9]);

    let mut s = sender(&data(900), 512);
    assert_eq!(s.next_qr_scratch_at(&ticks).unwrap() as usize, want.len());
    assert_eq!(s.qr_scratch_view()[..want.len()], want);
    let stats = s.stats_at(1_500);
    assert_eq!((stats.frames, stats.bytes, stats.elapsed_ms), (2, 1_024, 500));
    let rate = stats.frame_rate_at(1_002);
    assert_eq!((rate.amount, rate.per_ms), (2, 1));
}

#[test]
fn fresh_sessions_have_room() {
    let s = sender(&data(900), 512);
    assert!(s.has_room(0));
    assert!(s.has_room(8));
    let r = ReceiverSessionWasm::new(1, 2);
    assert!(r.has_room((2 << 64) | 1));
    assert!(r.has_room(7));
}
