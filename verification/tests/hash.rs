use blake2::digest::consts::U10;
use blake2::digest::Digest;
use merch::compute_hash;

#[test]
fn fingerprint_is_twenty_lowercase_hex_digits() {
    let h = compute_hash(b"some content");
    assert_eq!(h.len(), 20);
    assert!(h.iter().all(|b| (b'0'..=b'9').contains(b) || (b'a'..=b'f').contains(b)));
}

#[test]
fn fingerprint_is_deterministic_and_content_sensitive() {
    assert_eq!(compute_hash(b"abc"), compute_hash(b"abc"));
    assert_ne!(compute_hash(b"abc"), compute_hash(b"abd"));
    assert_ne!(compute_hash(b""), compute_hash(b"\n"));
}

#[test]
fn fingerprint_is_not_the_input() {
    assert_ne!(compute_hash(b"0123456789abcdef0123"), b"0123456789abcdef0123".to_vec());
}

#[test]
fn fingerprint_matches_the_reference_hasher() {
    for input in [&b""[..], b"a", b"hello world\n", b"\x00\xff\x10"] {
        let mut hasher = blake2::Blake2b::<U10>::new();
        hasher.update(input);
        let expected = hex::encode(hasher.finalize());
        assert_eq!(compute_hash(input), expected.into_bytes());
    }
}
