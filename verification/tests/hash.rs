use pipeline::hash::{content_hash, ContentHasher};

#[test]
fn content_hash_of_known_input_is_stable() {
    let h = content_hash(b"hello world");
    assert_ne!(h, 0);
    assert_eq!(h, content_hash(b"hello world"));
    assert_eq!(h, xxhash_rust::xxh3::xxh3_128(b"hello world"));
}

#[test]
fn different_content_gives_a_different_content_hash() {
    assert_ne!(content_hash(b"content A"), content_hash(b"content B"));
}

#[test]
fn hashing_in_chunks_equals_hashing_whole() {
    let data: Vec<u8> = (0..5000u32).map(|i| (i * 7 % 251) as u8).collect();
    let mut h = ContentHasher::new();
    for chunk in data.chunks(333) {
        h.update(chunk);
    }
    assert_eq!(h.digest(), content_hash(&data));
    assert_eq!(h.digest(), xxhash_rust::xxh3::xxh3_128(&data));
    assert_eq!(ContentHasher::new().digest(), xxhash_rust::xxh3::xxh3_128(b""));
}
