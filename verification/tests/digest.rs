//! Checksums and digests.
use airferry::digest::{crc32, sha256, ShaHasher};
use airferry::transfer_engine::wasm::Sha256Wasm;

fn hex(bytes: &[u8]) -> String {
    bytes.iter().map(|b| format!("{b:02x}")).collect()
}

#[test]
fn crc32_check_value() {
    assert_eq!(crc32(b"123456789"), 0xCBF4_3926);
    assert_eq!(crc32(b""), 0);
}

#[test]
fn crc32_notices_every_changed_byte() {
    let data: Vec<u8> = (0..64).collect();
    let crc = crc32(&data);
    for at in 0..data.len() {
        let mut changed = data.clone();
        changed[at] ^= 0x10;
        assert_ne!(crc32(&changed), crc, "byte {at}");
    }
}

#[test]
fn sha256_vectors() {
    assert_eq!(
        hex(&sha256(b"abc")),
        "ba7816bf8f01cfea414140de5dae2223b00361a396177a9cb410ff61f20015ad"
    );
    assert_eq!(
        hex(&sha256(b"")),
        "e3b0c44298fc1c149afbf4c8996fb92427ae41e4649b934ca495991b7852b855"
    );
}

#[test]
fn hasher_takes_chunks_and_tells_midway() {
    let mut h = ShaHasher::new();
    h.update(b"a");
    assert_eq!(h.digest_so_far(), sha256(b"a"));
    h.update(b"bc");
    assert_eq!(h.digest_so_far(), sha256(b"abc"));
    assert_eq!(h.finalize(), sha256(b"abc"));
}

#[test]
fn browser_hasher_matches_one_shot() {
    let mut h = Sha256Wasm::new();
    h.update(b"ab");
    assert_eq!(h.digest(), sha256(b"ab").to_vec());
    h.update(b"c");
    assert_eq!(h.digest(), sha256(b"abc").to_vec());
}
