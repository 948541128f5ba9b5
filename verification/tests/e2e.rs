//! Sender to receiver over a channel that drops, repeats and reorders.
use airferry::qr_protocol;
use airferry::qr_protocol::{Frame, SessionId};
use airferry::raptorq_core::Config;
use airferry::transfer_engine::{
    FileMeta, Progress, ReceiverSession, SenderConfig, SenderSession,
};

fn pseudo_random(n: usize) -> Vec<u8> {
    (0..n)
        .map(|i| ((i * 1103515245 + 12345) & 0xff) as u8)
        .collect()
}

fn decoded_fraction(p: &Progress) -> f64 {
    if p.total_symbols == 0 {
        return 0.0;
    }
    p.decoded_symbols as f64 / p.total_symbols as f64
}

fn cycle(data: &[u8], redundancy: u8, drop_every: u32, dup_some: bool, shuffle: bool) {
    let sid = SessionId::derive("file", data.len() as u64, 0, &[]);
    let probe = SenderSession::new(
        data,
        sid,
        SenderConfig {
            codec: Config::default(),
            redundancy_pct: redundancy,
        },
        FileMeta::default(),
    )
    .unwrap();
    let padded_len = probe.meta().transfer_length;
    let fm = FileMeta {
        filename: String::new(),
        original_size: data.len() as u64,
        crc32: 0,
        compression: qr_protocol::compress::COMPRESSION_NONE,
        compressed_size: padded_len,
        compressed_size_known: true,
        crc32_known: false,
    };
    let mut sender = SenderSession::new(
        data,
        sid,
        SenderConfig {
            codec: Config::default(),
            redundancy_pct: redundancy,
        },
        fm,
    )
    .unwrap();
    sender.set_descriptor_interval(8);

    let total_k = sender.total_k();
    let batch = (total_k as usize) * 3 + 64;
    let mut frames: Vec<Frame> = Vec::new();
    for i in 0..batch {
        let f = sender.next_frame().unwrap();
        if drop_every > 0 && (i as u32) % drop_every == 0 {
            continue;
        }
        frames.push(f);
    }
    if dup_some {
        let extra = frames.iter().take(7).cloned().collect::<Vec<_>>();
        frames.extend(extra);
    }
    if shuffle {
        for i in (1..frames.len()).rev() {
            let j = (i as u32).wrapping_mul(2654435761) as usize % (i + 1);
            frames.swap(i, j);
        }
    }

    let mut rx: Option<ReceiverSession> = None;
    for f in frames {
        let bytes = f.to_bytes();
        let parsed = match Frame::from_bytes(&bytes) {
            Ok(p) => p,
            Err(_) => continue,
        };
        if rx.is_none() {
            rx = Some(ReceiverSession::from_first_frame(&parsed));
        }
        let _ = rx.as_mut().unwrap().ingest(parsed);
        if rx.as_ref().unwrap().is_complete() {
            break;
        }
    }

    let mut rx = rx.expect("receiver never created");
    assert!(rx.is_complete(), "failed to recover object");
    let out = rx.assemble().unwrap();
    assert!(out.len() >= data.len());
    assert_eq!(&out[..data.len()], data, "recovered payload must match");
    let p = rx.progress();
    assert!(decoded_fraction(&p) >= 1.0);
}

#[test]
fn e2e_multiblock_no_loss() {
    let data = pseudo_random(120_000);
    cycle(&data, 10, 0, false, false);
}

#[test]
fn e2e_multiblock_20pct_loss_dup_shuffle() {
    let data = pseudo_random(90_000);
    cycle(&data, 40, 5, true, true);
}

#[test]
fn e2e_tiny_file() {
    let data = pseudo_random(100);
    cycle(&data, 10, 0, false, false);
}

#[test]
fn e2e_post_completion_frames_do_not_grow_state() {
    let data = pseudo_random(60_000);
    let sid = SessionId::derive("post-complete", data.len() as u64, 0, &[]);
    let probe = SenderSession::new(
        &data,
        sid,
        SenderConfig::default(),
        FileMeta::default(),
    )
    .unwrap();
    let padded_len = probe.meta().transfer_length;
    let fm = FileMeta {
        filename: String::new(),
        original_size: data.len() as u64,
        crc32: 0,
        compression: qr_protocol::compress::COMPRESSION_NONE,
        compressed_size: padded_len,
        compressed_size_known: true,
        crc32_known: false,
    };
    let mut sender = SenderSession::new(&data, sid, SenderConfig::default(), fm).unwrap();
    sender.set_descriptor_interval(8);

    let mut rx = None;
    let total_k = sender.total_k();
    for _ in 0..(total_k as usize * 3 + 64) {
        let f = sender.next_frame().unwrap();
        let parsed = Frame::from_bytes(&f.to_bytes()).unwrap();
        if rx.is_none() {
            rx = Some(ReceiverSession::from_first_frame(&parsed));
        }
        rx.as_mut().unwrap().ingest(parsed).unwrap();
        if rx.as_ref().unwrap().is_complete() {
            break;
        }
    }
    let mut rx = rx.expect("receiver never created");
    assert!(rx.is_complete(), "failed to recover object");
    let done = rx.progress();
    assert_eq!(done.received_symbols, done.total_symbols);

    let extra: usize = 5_000;
    let mut fed_data_frames = 0usize;
    for _ in 0..(extra * 2) {
        if fed_data_frames == extra {
            break;
        }
        let f = sender.next_frame().unwrap();
        if f.header.flags & qr_protocol::frame::FLAG_DESCRIPTOR != 0 {
            continue;
        }
        let parsed = Frame::from_bytes(&f.to_bytes()).unwrap();
        rx.ingest(parsed).expect("post-completion ingest must not error");
        fed_data_frames += 1;
    }
    assert_eq!(fed_data_frames, extra);

    let after = rx.progress();
    assert_eq!(
        after.received_symbols, done.received_symbols,
        "received_symbols must not grow past completion"
    );
    assert_eq!(
        after.received_symbols, after.total_symbols,
        "progress must stay clamped at total_symbols"
    );
    assert_eq!(after.frames_duplicate, done.frames_duplicate + extra as u64);
    assert!(rx.is_complete());
    let out = rx.assemble().unwrap();
    assert!(out.len() >= data.len());
    assert_eq!(&out[..data.len()], data);
}
