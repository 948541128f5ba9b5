//! Padding to whole symbols.
use airferry::qr_protocol::chunker::pad_to_symbols;
use airferry::raptorq_core::Config;

#[test]
fn pads_to_whole_symbol() {
    let cfg = Config::default();
    let padded = pad_to_symbols(&[0u8; 1500], cfg);
    assert_eq!(padded.len(), 2048);
}

#[test]
fn no_pad_when_aligned() {
    let cfg = Config::default();
    let padded = pad_to_symbols(&[0u8; 2048], cfg);
    assert_eq!(padded.len(), 2048);
}

#[test]
fn padding_is_zero_and_behind_the_data() {
    let data: Vec<u8> = (0..1500).map(|i| (i % 250 + 1) as u8).collect();
    let padded = pad_to_symbols(&data, Config::default());
    assert_eq!(padded[..1500], data[..]);
    assert!(padded[1500..].iter().all(|&b| b == 0));
    assert!(pad_to_symbols(&[], Config::default()).is_empty());
}
