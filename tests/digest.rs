use duplicate_checker::{digest_hex, DigestStream, CHUNK_LEN};

const EMPTY_SHA256: &str = "E3B0C44298FC1C149AFBF4C8996FB92427AE41E4649B934CA495991B7852B855";

#[test]
fn empty_content_has_the_zero_length_digest() {
    assert_eq!(digest_hex(&[]), EMPTY_SHA256);
    let stream = DigestStream::new();
    assert_eq!(stream.finish_hex(), Some(EMPTY_SHA256.to_string()));
}

#[test]
fn known_digest_of_abc() {
    assert_eq!(
        digest_hex(b"abc"),
        "BA7816BF8F01CFEA414140DE5DAE2223B00361A396177A9CB410FF61F20015AD"
    );
}

#[test]
fn digest_does_not_depend_on_chunking() {
    let data: Vec<u8> = (0..(3 * CHUNK_LEN + 17)).map(|i| (i % 251) as u8).collect();
    let whole = digest_hex(&data);
    let mut stream = DigestStream::new();
    for piece in data.chunks(7) {
        stream.update(piece);
    }
    assert_eq!(stream.finish_hex(), Some(whole.clone()));
    let mut single = DigestStream::new();
    single.update(&data);
    assert_eq!(single.finish_hex(), Some(whole));
}

#[test]
fn equal_content_equal_digest_and_different_content_different_digest() {
    let a = digest_hex(b"AAAAAAAAAA");
    let b = digest_hex(b"AAAAAAAAAA");
    let c = digest_hex(b"AAAAAAAAAB");
    assert_eq!(a, b);
    assert_ne!(a, c);
    assert_eq!(a.len(), 64);
    assert!(a.chars().all(|ch| ch.is_ascii_digit() || ('A'..='F').contains(&ch)));
}
