//! Statistics and progress.
use airferry::transfer_engine::progress::{STATS_MAX_SAMPLES, STATS_WINDOW_MS};
use airferry::transfer_engine::progress::Rate;
use airferry::transfer_engine::time::now_ms;
use airferry::transfer_engine::{Progress, Stats};

fn per_second(rate: Rate) -> f64 {
    if rate.per_ms == 0 {
        return 0.0;
    }
    rate.amount as f64 * 1000.0 / rate.per_ms as f64
}

#[test]
fn sliding_window_is_bounded() {
    let mut s = Stats::default();
    for i in 0..10_000u64 {
        s.push_sample_at(i * 10, 1);
    }
    assert!(s.window_len() <= STATS_MAX_SAMPLES);
    assert!(s.window_len() <= (STATS_WINDOW_MS / 10 + 2) as usize);
}

#[test]
fn fps_and_throughput() {
    let mut s = Stats::default();
    s.frames = 300;
    s.bytes = 300 * 1024;
    s.elapsed_ms = 10_000;
    assert!((per_second(s.frame_rate_at(now_ms())) - 30.0).abs() < 0.01);
    assert!((per_second(s.byte_rate_at(now_ms())) - 30.0 * 1024.0).abs() < 0.5);
}

#[test]
fn sliding_window_recovers_after_stall() {
    let mut s = Stats::default();
    let symbol_bytes: u64 = 1024;
    for i in 0..1800u64 {
        s.push_sample_at(i * 1000 / 30, symbol_bytes);
    }
    for i in 0..120u64 {
        s.push_sample_at(70_000 + i * 1000 / 60, symbol_bytes);
    }
    s.elapsed_ms = 72_000;
    s.frames = 1920;
    s.bytes = 1920 * symbol_bytes;

    let fps = per_second(s.frame_rate_at(72_000));
    let bps = per_second(s.byte_rate_at(72_000));
    assert!((fps - 60.0).abs() < 2.0, "window fps {fps} != ~60");
    assert!(
        (bps - 60.0 * symbol_bytes as f64).abs() < 2.0 * symbol_bytes as f64,
        "window bps {bps} != ~60 KiB/s"
    );
    assert!(fps > 40.0);
}

#[test]
fn only_the_live_window_must_be_countable() {
    let mut s = Stats::default();
    s.push_sample_at(0, u64::MAX);
    s.push_sample_at(9_000, 5);
    assert!(s.rates_fit(9_000));
    assert_eq!(s.window_rates(9_000), (0, 1, 5));
    assert!(!s.rates_fit(100));
    assert!(Stats::default().rates_fit(0));
}

#[test]
fn window_rates_are_exact() {
    let mut s = Stats::default();
    s.record_sent_at(1_000, 10);
    s.record_sent_at(1_500, 20);
    s.record_sent_at(2_000, 30);
    assert_eq!((s.bytes, s.frames), (60, 3));
    assert_eq!(s.window_rates(2_000), (1_000, 3, 60));
    assert_eq!(s.window_rates(4_200), (500, 2, 50));
    assert_eq!(s.window_rates(9_000), (0, 0, 0));
    assert_eq!(s.frame_rate_at(2_000), Rate { amount: 3, per_ms: 1_000 });
    s.set_elapsed(7_000);
    assert_eq!(s.frame_rate_at(9_000), Rate { amount: 3, per_ms: 7_000 });
    assert_eq!(s.byte_rate_at(9_000), Rate { amount: 60, per_ms: 7_000 });
}

#[test]
fn duplicate_frames_count_as_frames_only() {
    let mut s = Stats::default();
    s.record_received_at(100, 64, true);
    s.record_received_at(200, 64, false);
    assert_eq!((s.bytes, s.frames), (64, 2));
    assert_eq!(s.window_rates(200), (100, 2, 64));
}

#[test]
fn old_samples_leave_but_two_stay() {
    let mut s = Stats::default();
    s.push_sample_at(0, 1);
    s.push_sample_at(10, 1);
    s.push_sample_at(100_000, 1);
    assert_eq!(s.window_len(), 2);
}

#[test]
fn the_clock_readers_count_once() {
    let mut s = Stats::default();
    s.record_sent(5);
    s.record_received(7, true);
    s.finalize();
    assert_eq!((s.bytes, s.frames, s.window_len()), (12, 2, 2));
    assert!(now_ms() > 0);
}

#[test]
fn progress_is_complete_when_every_block_is() {
    let mut p = Progress::default();
    assert!(!p.is_complete());
    p.total_blocks = 4;
    p.decoded_blocks = 2;
    assert!(!p.is_complete());
    p.decoded_blocks = 4;
    assert!(p.is_complete());
}
