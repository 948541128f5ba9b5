//! Codec configuration.
use airferry::raptorq_core::{Config, MAX_SYMBOL_SIZE};

#[test]
fn default_is_1024() {
    assert_eq!(Config::default().symbol_size(), 1024);
}

#[test]
fn config_rejects_zero_symbol_size() {
    assert!(Config::new(0).is_err());
}

#[test]
fn rejects_huge_symbol_size() {
    assert!(Config::new(0x1_0000).is_err());
    assert!(Config::new(1024).is_ok());
}

#[test]
fn rejects_unaligned_and_overflowing_sizes() {
    assert!(Config::new(63).is_err());
    assert!(Config::new(65).is_err());
    assert!(Config::new(1900).is_err());
    assert!(Config::new(MAX_SYMBOL_SIZE).is_ok());
    assert!(Config::new(MAX_SYMBOL_SIZE + 1).is_err());
}

#[test]
fn packet_size_adds_the_payload_id() {
    assert_eq!(Config::new(64).unwrap().mtu().unwrap(), 68);
    assert_eq!(Config::new(MAX_SYMBOL_SIZE).unwrap().mtu().unwrap(), 65_532);
}
