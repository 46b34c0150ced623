use lazy_storage::hashing::{blake2_128, blake2_256, keccak_256, sha2_256};

fn hex(bytes: &[u8]) -> String {
    let mut s = String::new();
    for b in bytes {
        s.push_str(&format!("{:02x}", b));
    }
    s
}

#[test]
fn sha2_256_matches_known_digest() {
    let mut output = [0u8; 32];
    sha2_256(b"abc", &mut output);
    assert_eq!(
        hex(&output),
        "ba7816bf8f01cfea414140de5dae2223b00361a396177a9cb410ff61f20015ad",
    );
}

#[test]
fn keccak_256_matches_known_digest() {
    let mut output = [0u8; 32];
    keccak_256(b"", &mut output);
    assert_eq!(
        hex(&output),
        "c5d2460186f7233c927e7db2dcc703c0e500b653ca82273b7bfad8045d85a470",
    );
}

#[test]
fn blake2_256_matches_known_digest() {
    let mut output = [0u8; 32];
    blake2_256(b"", &mut output);
    assert_eq!(
        hex(&output),
        "0e5751c026e543b2e8ab2eb06099daa1d1e5df47778f7787faab45cdf12fe3a8",
    );
}

#[test]
fn blake2_128_matches_known_digest() {
    let mut output = [0u8; 16];
    blake2_128(b"", &mut output);
    assert_eq!(hex(&output), "cae66941d9efbd404e4d88758ea67670");
}

#[test]
fn digests_depend_on_input() {
    let mut a = [0u8; 32];
    let mut b = [0u8; 32];
    sha2_256(b"abc", &mut a);
    sha2_256(b"abd", &mut b);
    assert_ne!(a, b);
    keccak_256(b"abc", &mut a);
    keccak_256(b"abd", &mut b);
    assert_ne!(a, b);
    blake2_256(b"abc", &mut a);
    blake2_256(b"abd", &mut b);
    assert_ne!(a, b);
}
