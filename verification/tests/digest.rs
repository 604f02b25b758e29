use dumbsync::digest::{content_digest, digest_chunks, entry_for, ContentHasher};

#[test]
fn digest_of_empty_content() {
    let e = entry_for("empty".to_string(), b"");
    assert_eq!(e.digest, "af1349b9f5f9a1a6a0404dea36dcc9499bcb25c9adc112b7cc9a93cae41f3262");
    assert_eq!(e.path, "empty");
}

#[test]
fn digest_is_64_lowercase_hex_digits() {
    let e = entry_for("f".to_string(), b"some content");
    assert_eq!(e.digest.len(), 64);
    assert!(e.digest.chars().all(|c| "0123456789abcdef".contains(c)));
}

#[test]
fn digest_depends_on_content_alone() {
    let a = entry_for("a".to_string(), b"same");
    let b = entry_for("b".to_string(), b"same");
    let c = entry_for("a".to_string(), b"other");
    assert_eq!(a.digest, b.digest);
    assert_ne!(a.digest, c.digest);
}

#[test]
fn content_digest_of_a_known_input() {
    assert_eq!(
        content_digest(b"abc"),
        "6437b3ac38465133ffb63b75273a8db548c558465d79db03fd359c6cd5bd9d85"
    );
}

#[test]
fn digest_chunks_ignores_how_the_content_is_cut() {
    let whole = content_digest(b"hello world");
    assert_eq!(digest_chunks(&vec![b"hello ".to_vec(), b"world".to_vec()]), whole);
    assert_eq!(digest_chunks(&vec![Vec::new(), b"hello world".to_vec(), Vec::new()]), whole);
    assert_eq!(digest_chunks(&Vec::new()), content_digest(b""));
}

#[test]
fn content_hasher_takes_the_content_piece_by_piece() {
    let mut hasher = ContentHasher::new();
    assert_eq!(hasher.finish(), content_digest(b""));
    hasher.update(b"ab");
    assert_eq!(hasher.finish(), content_digest(b"ab"));
    hasher.update(b"c");
    assert_eq!(hasher.finish(), content_digest(b"abc"));
}
