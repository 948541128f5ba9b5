//! Session ids.
use airferry::qr_protocol::session::content_fingerprint;
use airferry::qr_protocol::SessionId;

#[test]
fn deterministic() {
    let a = SessionId::derive("file.bin", 1000, 555, &[1, 2, 3]);
    let b = SessionId::derive("file.bin", 1000, 555, &[1, 2, 3]);
    assert_eq!(a, b);
}

#[test]
fn differs_on_size() {
    let a = SessionId::derive("file.bin", 1000, 555, &[1, 2, 3]);
    let b = SessionId::derive("file.bin", 1001, 555, &[1, 2, 3]);
    assert_ne!(a, b);
}

#[test]
fn fingerprint_stable() {
    let a = content_fingerprint(&[1, 2, 3], &[9, 9]);
    let b = content_fingerprint(&[1, 2, 3], &[9, 9]);
    assert_eq!(a, b);
    let c = content_fingerprint(&[1, 2, 4], &[9, 9]);
    assert_ne!(a, c);
}

#[test]
fn segment_ids_are_deterministic_and_domain_separated() {
    let root = 0x00112233445566778899aabbccddeeffu128;
    let a = SessionId::derive_segment(root, 7);
    assert_eq!(a, SessionId::derive_segment(root, 7));
    assert_ne!(a, SessionId::derive_segment(root, 8));
    assert_ne!(a.0, root);
}

#[test]
fn derivations_have_fixed_values() {
    assert_eq!(
        SessionId::derive("file.bin", 1000, 555, &[1, 2, 3]).0,
        0xa2e953e409e5410c6a5cc9ba6b4dbfcf
    );
    assert_eq!(
        SessionId::derive_segment(0x00112233445566778899aabbccddeeff, 7).0,
        0xbfe6b9a6f37b3c39d0ea2da1623c7b6f
    );
    assert_eq!(
        content_fingerprint(&[1, 2, 3], &[9, 9]),
        vec![0x3d, 0x0c, 0x46, 0x4f, 0xbf, 0xbc, 0x3a, 0x0f]
    );
    assert_eq!(SessionId::zero().0, 0);
    let raw: u128 = SessionId(17).into();
    assert_eq!(raw, 17);
}

#[test]
fn segments_of_one_transfer_have_their_own_ids() {
    let root = 42u128;
    let indices = [0u32, 1, 2, 255, 256, 257, 65_535, 65_536, 131_071, u32::MAX];
    for (n, &i) in indices.iter().enumerate() {
        for &j in &indices[n + 1..] {
            assert_ne!(SessionId::derive_segment(root, i), SessionId::derive_segment(root, j));
        }
    }
}
