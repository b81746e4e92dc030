use dazone::key::FixedKey;

#[test]
fn long_input_is_truncated_to_its_first_eight_bytes() {
    let a = FixedKey::from_bytes(b"10.0.0.1:8080");
    let b = FixedKey::from_bytes(b"10.0.0.1");
    assert_eq!(a, b);
    assert_eq!(a.as_bytes(), b"10.0.0.1");
}

#[test]
fn short_input_is_zero_padded() {
    let k = FixedKey::from_bytes(b"abc");
    assert_eq!(k.as_bytes(), &[b'a', b'b', b'c', 0, 0, 0, 0, 0]);
}

#[test]
fn empty_input_gives_all_zero_key() {
    let k = FixedKey::from_bytes(b"");
    assert_eq!(k.bytes, [0u8; 8]);
}

#[test]
fn keys_differing_within_prefix_differ() {
    assert_ne!(FixedKey::from_bytes(b"10.0.0.1"), FixedKey::from_bytes(b"10.0.0.2"));
    assert_eq!(FixedKey::prefix("10.0.0.2"), FixedKey::from_bytes(b"10.0.0.2"));
}
