//! Tests of the page codec: round trips at the boundary sizes, pass-through
//! without compression, and refusal of encrypted pages.
use bonsaidb::codec::{Compression, TreeVault};
use bonsaidb::error::Error;

fn page(len: usize) -> Vec<u8> {
    (0..len).map(|i| (i % 251) as u8).collect()
}

#[test]
fn codec_round_trip_at_boundary_sizes() {
    let vault = TreeVault { compression: Some(Compression::Lz4) };
    for len in [0usize, 127, 128, 4096, 1 << 20] {
        let payload = page(len);
        let stored = vault.encrypt(&payload);
        let restored = vault.decrypt(&stored).expect("an encoded page must decode");
        assert_eq!(restored, payload);
    }
}

#[test]
fn small_pages_are_never_compressed() {
    let vault = TreeVault { compression: Some(Compression::Lz4) };
    let payload = page(127);
    assert_eq!(vault.encrypt(&payload), payload);
    let payload = page(128);
    let stored = vault.encrypt(&payload);
    assert_eq!(&stored[0..4], &[b't', b'r', b'v', 1]);
}

#[test]
fn without_compression_pages_pass_through() {
    let vault = TreeVault { compression: None };
    let payload = page(4096);
    assert_eq!(vault.encrypt(&payload), payload);
    assert_eq!(vault.decrypt(&payload).unwrap(), payload);
}

#[test]
fn decoding_an_encrypted_page_fails_without_encryption() {
    let vault = TreeVault { compression: Some(Compression::Lz4) };
    let mut stored = vec![b't', b'r', b'v', 0x80 | 1];
    stored.extend_from_slice(&page(64));
    assert!(matches!(vault.decrypt(&stored), Err(Error::EncryptionDisabled)));
}

#[test]
fn unknown_compression_flags_pass_the_body_through() {
    let vault = TreeVault { compression: Some(Compression::Lz4) };
    let mut stored = vec![b't', b'r', b'v', 0];
    stored.extend_from_slice(b"raw-body");
    assert_eq!(vault.decrypt(&stored).unwrap(), b"raw-body".to_vec());
}

#[test]
fn a_corrupt_compressed_body_is_an_error() {
    let vault = TreeVault { compression: Some(Compression::Lz4) };
    // A declared uncompressed size with a garbage block.
    let stored = vec![b't', b'r', b'v', 1, 16, 0, 0, 0, 255, 255, 255];
    assert!(matches!(vault.decrypt(&stored), Err(Error::Database(_))));
}

#[test]
fn new_if_needed_only_builds_a_codec_with_compression() {
    assert!(TreeVault::new_if_needed(None).is_none());
    let vault = TreeVault::new_if_needed(Some(Compression::Lz4)).unwrap();
    assert!(matches!(vault.compression, Some(Compression::Lz4)));
}

#[test]
fn compression_flag_values() {
    assert_eq!(Compression::from_u8(1), Some(Compression::Lz4));
    assert_eq!(Compression::from_u8(0), None);
    assert_eq!(Compression::from_u8(2), None);
}
