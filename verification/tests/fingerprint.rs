use context::fingerprint::hash;

#[test]
fn fingerprint_of_known_content() {
    assert_eq!(hash(b""), "e3b0c44");
    assert_eq!(hash(b"abc"), "ba7816b");
    assert_eq!(hash(b"hello world"), "b94d27b");
}

#[test]
fn fingerprint_is_the_same_for_the_same_bytes() {
    let first = hash(b"fn main() {}");
    let second = hash(&b"fn main() {}".to_vec());
    assert_eq!(first, second);
    assert_eq!(first.chars().count(), 7);
    assert!(first.chars().all(|c| c.is_ascii_digit() || ('a'..='f').contains(&c)));
}

#[test]
fn fingerprint_changes_with_one_byte() {
    assert_ne!(hash(b"fn main() {}"), hash(b"fn main() {;"));
    assert_ne!(hash(b"a"), hash(b"b"));
    assert_ne!(hash(&[0u8]), hash(&[]));
}
