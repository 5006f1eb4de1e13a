use nailgun::digest::{empty_digest, Digest, Fingerprint};

fn hex(bytes: &[u8]) -> String {
    let mut out = String::new();
    for b in bytes {
        out.push_str(&format!("{:02x}", b));
    }
    out
}

#[test]
fn empty_digest_is_the_hash_of_nothing() {
    let d = empty_digest();
    assert_eq!(
        hex(&d.0 .0),
        "e3b0c44298fc1c149afbf4c8996fb92427ae41e4649b934ca495991b7852b855"
    );
    assert_eq!(d.1, 0);
}

#[test]
fn of_bytes_hashes_and_counts() {
    let d = Digest::of_bytes(b"abc");
    assert_eq!(
        hex(&d.0 .0),
        "ba7816bf8f01cfea414140de5dae2223b00361a396177a9cb410ff61f20015ad"
    );
    assert_eq!(d.1, 3);
}

#[test]
fn of_bytes_does_not_hand_its_input_back() {
    let input = [7u8; 32];
    let d = Digest::of_bytes(&input);
    assert_ne!(d.0 .0, input);
    assert_eq!(d.1, 32);
}

#[test]
fn of_bytes_is_a_function_of_the_bytes() {
    assert_eq!(Digest::of_bytes(b"same"), Digest::of_bytes(b"same"));
    assert_ne!(Digest::of_bytes(b"same"), Digest::of_bytes(b"other"));
    assert_eq!(Digest::of_bytes(b""), empty_digest());
}

#[test]
fn same_as_compares_hash_and_length() {
    let a = Digest::of_bytes(b"abc");
    let b = Digest::of_bytes(b"abc");
    let c = Digest::of_bytes(b"abd");
    assert!(a.same_as(&b));
    assert!(!a.same_as(&c));
    let longer = Digest(a.0, a.1 + 1);
    assert!(!a.same_as(&longer));
    let mut flipped = a.0 .0;
    flipped[31] ^= 1;
    assert!(!a.0.same_as(&Fingerprint(flipped)));
    assert!(a.0.same_as(&b.0));
}
