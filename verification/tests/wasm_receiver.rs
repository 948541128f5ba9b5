//! The receiver as a browser drives it.
use airferry::qr_protocol::compress::COMPRESSION_NONE;
use airferry::qr_protocol::{Frame, SessionId, FLAG_DESCRIPTOR};
use airferry::raptorq_core::Config;
use airferry::transfer_engine::ingest_status;
use airferry::transfer_engine::{FileMeta, ReceiverSession, SenderConfig, SenderSession};

fn pseudo_random(n: usize) -> Vec<u8> {
    (0..n)
        .map(|i| ((i * 1103515245 + 12345) & 0xff) as u8)
        .collect()
}

fn build_sender(
    data: &[u8],
    filename: &str,
    crc32: u32,
    redundancy: u8,
) -> (SenderSession, SessionId) {
    let sid = SessionId::derive(filename, data.len() as u64, 0, &[]);
    let probe = SenderSession::new(
        data,
        sid,
        SenderConfig {
            codec: Config::default(),
            redundancy_pct: redundancy,
        },
        FileMeta::default(),
    )
    .unwrap();
    let padded_len = probe.meta().transfer_length;
    let fm = FileMeta {
        filename: filename.to_string(),
        original_size: data.len() as u64,
        crc32,
        compression: COMPRESSION_NONE,
        compressed_size: padded_len,
        compressed_size_known: true,
        crc32_known: true,
    };
    let sender = SenderSession::new(
        data,
        sid,
        SenderConfig {
            codec: Config::default(),
            redundancy_pct: redundancy,
        },
        fm,
    )
    .unwrap();
    (sender, sid)
}

fn first_descriptor_bytes(sender: &mut SenderSession) -> Vec<u8> {
    loop {
        let f = sender.next_frame().unwrap();
        if f.header.flags & FLAG_DESCRIPTOR != 0 {
            return f.to_bytes();
        }
    }
}

#[test]
fn descriptor_first_confirms_meta_and_locks_session_id() {
    let data = pseudo_random(2000);
    let (mut sender, sid) = build_sender(&data, "hello.bin", 0x11223344, 10);
    let desc_bytes = first_descriptor_bytes(&mut sender);

    let frame = Frame::from_bytes(&desc_bytes).unwrap();
    assert_ne!(frame.header.flags & FLAG_DESCRIPTOR, 0);
    let mut rx = ReceiverSession::new_pending(frame.header.session_id);
    assert!(!rx.is_meta_confirmed());
    let _ = rx.ingest(frame);
    assert!(rx.is_meta_confirmed());
    assert_eq!(rx.session_id(), sid.0);
    assert_eq!(rx.file_meta().filename, "hello.bin");
    assert_eq!(rx.file_meta().original_size, data.len() as u64);
    assert_eq!(rx.file_meta().crc32, 0x11223344);
    assert!(rx.file_meta().crc32_known);
}

#[test]
fn from_descriptor_rejects_corrupt_frame_without_panic() {
    let data = pseudo_random(500);
    let (mut sender, _sid) = build_sender(&data, "f.bin", 0, 10);
    let mut desc_bytes = first_descriptor_bytes(&mut sender);
    desc_bytes[70] ^= 0xFF;
    let res = Frame::from_bytes(&desc_bytes);
    assert!(res.is_err(), "corrupted frame must be rejected");
}

#[test]
fn from_descriptor_rejects_data_frame_as_initial_descriptor() {
    let data = pseudo_random(500);
    let (mut sender, _sid) = build_sender(&data, "f.bin", 0, 10);
    let mut data_frame: Option<Vec<u8>> = None;
    for _ in 0..100 {
        let f = sender.next_frame().unwrap();
        if f.header.flags & FLAG_DESCRIPTOR == 0 {
            data_frame = Some(f.to_bytes());
            break;
        }
    }
    let data_frame = data_frame.expect("sender produced a data frame");
    let frame = Frame::from_bytes(&data_frame).unwrap();
    assert_eq!(frame.header.flags & FLAG_DESCRIPTOR, 0);
}

#[test]
fn packed_status_matches_golden_layout() {
    assert_eq!(ingest_status::pack(false, false, 0, 0), 0);
    assert_eq!(ingest_status::pack(true, false, 0, 0), 1);
    assert_eq!(ingest_status::pack(false, true, 0, 0), 1 << 1);
    assert_eq!(ingest_status::pack(false, false, 0x1234, 0), 0x1234u64 << 8);
    assert_eq!(
        ingest_status::pack(false, false, 0x1FFFF, 0),
        0xFFFFu64 << 8
    );
    assert_eq!(
        ingest_status::pack(false, false, 0, 0x5678),
        0x5678u64 << 32
    );
    assert_eq!(
        ingest_status::pack(true, true, 0x1234, 0x5678),
        0b11 | (0x1234u64 << 8) | (0x5678u64 << 32)
    );
    assert_eq!(ingest_status::INGEST_ERROR, 0xFFFF_FFFFu64 << 32);
}

#[test]
fn assemble_raw_recovers_original_bytes_uncompressed() {
    let data = pseudo_random(40_000);
    let (mut sender, sid) = build_sender(&data, "a.bin", 0, 20);
    sender.set_descriptor_interval(8);

    let total_k = sender.total_k();
    let batch = (total_k as usize) * 3 + 32;
    let mut frames: Vec<Vec<u8>> = Vec::new();
    for i in 0..batch {
        let f = sender.next_frame().unwrap();
        if i % 5 == 0 {
            continue;
        }
        frames.push(f.to_bytes());
    }
    for i in (1..frames.len()).rev() {
        let j = (i as u32).wrapping_mul(2654435761) as usize % (i + 1);
        frames.swap(i, j);
    }
    for extra in frames.iter().take(5).cloned().collect::<Vec<_>>() {
        frames.push(extra);
    }

    let mut rx = ReceiverSession::new_pending(sid.0);
    for bytes in &frames {
        if let Ok(f) = Frame::from_bytes(bytes) {
            let _ = rx.ingest(f);
            if rx.is_complete() {
                break;
            }
        }
    }
    assert!(
        rx.is_complete(),
        "receiver must recover despite loss/dup/reorder"
    );
    let mut raw = rx.assemble_raw().expect("complete -> Some");
    let fm = rx.file_meta();
    assert!(fm.compressed_size_known);
    let len = usize::try_from(fm.compressed_size).unwrap();
    assert!(len <= raw.len());
    raw.truncate(len);
    assert_eq!(&raw[..data.len()], &data[..], "recovered bytes must match");
}

#[test]
fn assemble_raw_trimmed_length_equals_compressed_size() {
    let data = pseudo_random(300);
    let (mut sender, sid) = build_sender(&data, "tiny.bin", 0, 10);
    sender.set_descriptor_interval(4);

    let mut rx = ReceiverSession::new_pending(sid.0);
    for _ in 0..200 {
        let f = sender.next_frame().unwrap();
        let _ = rx.ingest(f);
        if rx.is_complete() {
            break;
        }
    }
    assert!(rx.is_complete());
    let raw = rx.assemble_raw().unwrap();
    let fm = rx.file_meta();
    assert!(raw.len() >= fm.compressed_size as usize);
    let trimmed = &raw[..fm.compressed_size as usize];
    assert_eq!(&trimmed[..data.len()], &data[..]);
}
