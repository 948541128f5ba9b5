//! Compression and its limits.
use airferry::digest::sha256;
use airferry::qr_protocol::compress::{
    compress, compress_with, decompress, decompress_with, decompress_with_limit,
    is_known_compression_tag, read_capped, stream_mode, xz_compress, xz_decompress, StreamMode,
    StreamSink, COMPRESSION_NONE, COMPRESSION_XZ, COMPRESSION_ZSTD, DEFAULT_LEVEL,
};
use airferry::qr_protocol::Error;

#[test]
fn zstd_round_trip() {
    let data: Vec<u8> = (0..40_000).map(|i| (i & 0xff) as u8).collect();
    let c = compress(&data, DEFAULT_LEVEL).unwrap();
    let d = decompress(&c).unwrap();
    assert_eq!(d, data);
}

#[test]
fn zstd_compressed_data_shrinks_for_repetitive_input() {
    let data = vec![0xABu8; 10_000];
    let c = compress(&data, DEFAULT_LEVEL).unwrap();
    assert!(c.len() < data.len());
}

#[test]
fn xz_round_trip() {
    let data: Vec<u8> = (0..10_000).map(|i| (i & 0xff) as u8).collect();
    let compressed = xz_compress(&data).unwrap();
    let decompressed = xz_decompress(&compressed).unwrap();
    assert_eq!(decompressed, data);
}

#[test]
fn xz_compresses_repetitive_input_aggressively() {
    let data = vec![0xABu8; 10_000];
    let compressed = xz_compress(&data).unwrap();
    assert!(compressed.len() < data.len() / 10);
}

#[test]
fn compress_with_and_decompress_with_dispatch() {
    let data: Vec<u8> = (0..8_000).map(|i| (i & 0xff) as u8).collect();

    let z = compress_with(&data, COMPRESSION_ZSTD).unwrap();
    assert_eq!(decompress_with(&z, COMPRESSION_ZSTD).unwrap(), data);

    let x = compress_with(&data, COMPRESSION_XZ).unwrap();
    assert_eq!(decompress_with(&x, COMPRESSION_XZ).unwrap(), data);

    assert_eq!(compress_with(&data, COMPRESSION_NONE).unwrap(), data);
    assert_eq!(decompress_with(&data, COMPRESSION_NONE).unwrap(), data);
}

#[test]
fn unknown_compression_tag_is_identity() {
    let data = vec![1u8, 2, 3, 4];
    assert_eq!(compress_with(&data, 99).unwrap(), data);
    assert_eq!(decompress_with(&data, 99).unwrap(), data);
}

#[test]
fn unknown_compression_tag_rejected_on_limited_decompress() {
    let data = vec![1u8, 2, 3, 4];
    assert!(decompress_with_limit(&data, 99, 1024).is_err());
    assert_eq!(
        decompress_with_limit(&[], 99, 1024).unwrap(),
        Vec::<u8>::new()
    );
}

#[test]
fn decompress_with_limit_rejects_bomb() {
    let data = vec![0u8; 1_000_000];
    let z = compress(&data, DEFAULT_LEVEL).unwrap();
    assert!(z.len() < 10_000, "should compress tiny");
    assert!(decompress_with_limit(&z, COMPRESSION_ZSTD, 1000).is_err());
    assert_eq!(
        decompress_with_limit(&z, COMPRESSION_ZSTD, data.len()).unwrap(),
        data
    );

    let x = xz_compress(&data).unwrap();
    assert!(decompress_with_limit(&x, COMPRESSION_XZ, 1000).is_err());
    assert_eq!(
        decompress_with_limit(&x, COMPRESSION_XZ, data.len()).unwrap(),
        data
    );
}

fn oversized_window_frame() -> Vec<u8> {
    let mut f = Vec::new();
    f.extend_from_slice(&[0x28, 0xB5, 0x2F, 0xFD]);
    f.push(0x00);
    f.push(0x88);
    f.extend_from_slice(&[0x21, 0x00, 0x00]);
    f.extend_from_slice(b"ABCD");
    f
}

#[test]
fn decompress_with_limit_rejects_oversized_zstd_window() {
    let frame = oversized_window_frame();
    assert_eq!(
        zstd::decode_all(&frame[..]).unwrap(),
        b"ABCD".to_vec(),
        "test frame must be a valid zstd stream"
    );
    assert!(
        decompress_with_limit(&frame, COMPRESSION_ZSTD, 1024).is_err(),
        "oversized zstd window must be rejected"
    );
}

#[test]
fn clamped_zstd_decoder_accepts_legitimate_streams() {
    for (level, len) in [(1, 1 << 20), (3, 300_000), (DEFAULT_LEVEL, 40_000)] {
        let data: Vec<u8> = (0..len).map(|i| (i * 31 & 0xff) as u8).collect();
        let z = compress(&data, level).unwrap();
        assert_eq!(
            decompress_with_limit(&z, COMPRESSION_ZSTD, data.len()).unwrap(),
            data,
            "level {level} / {len} bytes must survive the window clamp"
        );
        assert_eq!(decompress(&z).unwrap(), data);
    }
}

fn message(e: Error) -> String {
    match e {
        Error::Compress(m) => m,
        other => panic!("{other:?}"),
    }
}

#[test]
fn limits_are_exact() {
    let data: Vec<u8> = (0..5_000).map(|i| (i * 7 % 251) as u8).collect();
    for tag in [COMPRESSION_NONE, COMPRESSION_ZSTD, COMPRESSION_XZ] {
        let stream = compress_with(&data, tag).unwrap();
        assert_eq!(decompress_with_limit(&stream, tag, data.len()).unwrap(), data);
        assert_eq!(decompress_with_limit(&stream, tag, usize::MAX).unwrap(), data);
        let refused = decompress_with_limit(&stream, tag, data.len() - 1).unwrap_err();
        let expected = if tag == COMPRESSION_NONE {
            "payload exceeds size limit"
        } else {
            "decompressed output exceeds expected size"
        };
        assert_eq!(message(refused), expected);
    }
    assert_eq!(
        message(decompress_with_limit(&[1], 99, 10).unwrap_err()),
        "unknown compression algorithm tag 99"
    );
}

#[test]
fn broken_streams_are_errors() {
    assert!(decompress(b"not a zstd stream").is_err());
    assert!(xz_decompress(b"not an xz stream").is_err());
    assert!(decompress_with_limit(b"junk", COMPRESSION_ZSTD, 10).is_err());
    assert!(decompress_with_limit(b"junk", COMPRESSION_XZ, 10).is_err());
}

#[test]
fn tags_are_known() {
    assert!(is_known_compression_tag(0) && is_known_compression_tag(1));
    assert!(is_known_compression_tag(2) && !is_known_compression_tag(3));
}

#[test]
fn capped_reads() {
    assert_eq!(read_capped(Ok(vec![1, 2]), 2).unwrap(), vec![1, 2]);
    assert_eq!(
        message(read_capped(Ok(vec![1, 2]), 1).unwrap_err()),
        "decompressed output exceeds expected size"
    );
    assert_eq!(message(read_capped(Err("bad".to_string()), 1).unwrap_err()), "bad");
}

#[test]
fn stream_modes() {
    assert_eq!(stream_mode(COMPRESSION_ZSTD, false).unwrap(), StreamMode::Zstd);
    assert_eq!(stream_mode(COMPRESSION_XZ, false).unwrap(), StreamMode::Xz);
    assert_eq!(stream_mode(COMPRESSION_NONE, false).unwrap(), StreamMode::Copy);
    assert_eq!(stream_mode(77, true).unwrap(), StreamMode::Copy);
    assert_eq!(
        message(stream_mode(77, false).unwrap_err()),
        "unknown compression algorithm tag 77"
    );
}

#[test]
fn sink_digests_what_stays_under_the_cap() {
    let mut sink = StreamSink::new(9);
    assert_eq!(sink.read_limit(), 10);
    assert!(sink.absorb(b"12345"));
    assert!(sink.absorb(b"6789"));
    let outcome = match sink.finish() {
        Ok(outcome) => outcome,
        Err(e) => panic!("{e:?}"),
    };
    assert_eq!(outcome.output_size, 9);
    assert_eq!(outcome.crc32, 0xCBF4_3926);
    assert_eq!(outcome.sha256, sha256(b"123456789"));

    let mut sink = StreamSink::new(8);
    assert!(sink.absorb(b"12345"));
    assert!(!sink.absorb(b"6789"));
    match sink.finish() {
        Ok(_) => panic!("went past the cap"),
        Err(e) => assert_eq!(message(e), "decompressed output exceeds expected size"),
    }
    assert_eq!(StreamSink::new(u64::MAX).read_limit(), u64::MAX);
}
