use silex::compression::{compress, decompress};
use silex::digest::{commit_hash, hash_content};

#[test]
fn content_hash_is_blake3_hex() {
    assert_eq!(
        hash_content(b""),
        "af1349b9f5f9a1a6a0404dea36dcc9499bcb25c9adc112b7cc9a93cae41f3262"
    );
    assert_eq!(hash_content(b"hello world"), blake3::hash(b"hello world").to_hex().to_string());
    assert_ne!(hash_content(b"hello world"), hex_of(b"hello world"));
}

fn hex_of(data: &[u8]) -> String {
    data.iter().map(|b| format!("{:02x}", b)).collect()
}

#[test]
fn commit_hash_covers_all_fields() {
    let h = commit_hash("abc", "Saigo", "init", "2026-01-01T00:00:00+00:00");
    let expected = blake3::hash("abcSaigoinit2026-01-01T00:00:00+00:00".as_bytes()).to_hex().to_string();
    assert_eq!(h, expected);
    assert_eq!(h.len(), 64);
    assert_ne!(h, commit_hash("", "Saigo", "init", "2026-01-01T00:00:00+00:00"));
}

#[test]
fn decompress_gives_back_what_compress_stored() {
    let data = b"some blob content, some blob content, some blob content".to_vec();
    let stored = compress(&data);
    assert_ne!(stored, data);
    assert_eq!(decompress(&stored), data);
}

#[test]
fn compress_empty_content() {
    let stored = compress(&[]);
    assert!(!stored.is_empty());
    assert_eq!(decompress(&stored), Vec::<u8>::new());
}

#[test]
fn decompress_keeps_raw_content() {
    let raw = b"not a zlib stream".to_vec();
    assert_eq!(decompress(&raw), raw);
}
