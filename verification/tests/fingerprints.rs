use dupe_detect::digest::{fingerprint_of_chunks, hex_fingerprint, sha256_digest, Sha256Stream};

fn chunks(parts: &[&str]) -> Vec<Vec<u8>> {
    parts.iter().map(|p| p.as_bytes().to_vec()).collect()
}

const HELLO_FINGERPRINT: &str = "2CF24DBA5FB0A30E26E83B2AC5B9E29E1B161E5C1FA7425E73043362938B9824";
const EMPTY_FINGERPRINT: &str = "E3B0C44298FC1C149AFBF4C8996FB92427AE41E4649B934CA495991B7852B855";

#[test]
fn fingerprint_known_value() {
    let fp = fingerprint_of_chunks(&chunks(&["hello"]));
    assert_eq!(fp, HELLO_FINGERPRINT);
}

#[test]
fn fingerprint_empty_content() {
    let fp = fingerprint_of_chunks(&chunks(&[]));
    assert_eq!(fp, EMPTY_FINGERPRINT);
    let fp_one_empty_chunk = fingerprint_of_chunks(&chunks(&[""]));
    assert_eq!(fp_one_empty_chunk, EMPTY_FINGERPRINT);
}

#[test]
fn fingerprint_independent_of_chunking() {
    let whole = fingerprint_of_chunks(&chunks(&["hello"]));
    let split = fingerprint_of_chunks(&chunks(&["he", "llo"]));
    let fine = fingerprint_of_chunks(&chunks(&["h", "e", "l", "l", "o"]));
    let with_empty = fingerprint_of_chunks(&chunks(&["", "hel", "", "lo"]));
    assert_eq!(whole, split);
    assert_eq!(whole, fine);
    assert_eq!(whole, with_empty);
}

#[test]
fn fingerprint_differs_for_different_content() {
    let a = fingerprint_of_chunks(&chunks(&["hello"]));
    let b = fingerprint_of_chunks(&chunks(&["world"]));
    assert_ne!(a, b);
}

#[test]
fn digest_is_32_bytes() {
    let digest = sha256_digest(&chunks(&["hello"]));
    assert_eq!(digest.len(), 32);
}

#[test]
fn stream_matches_chunked_digest() {
    let mut stream = Sha256Stream::new();
    stream.update("hel".as_bytes());
    stream.update("".as_bytes());
    stream.update("lo".as_bytes());
    let digest = stream.finish();
    assert_eq!(hex_fingerprint(&digest), HELLO_FINGERPRINT);
}

#[test]
fn hex_encoding_known_value() {
    let bytes: Vec<u8> = vec![0xde, 0xad, 0xbe, 0xef];
    assert_eq!(hex_fingerprint(&bytes), "DEADBEEF");
    let low: Vec<u8> = vec![0x00, 0x0a, 0x10];
    assert_eq!(hex_fingerprint(&low), "000A10");
}
