use cached_tree_hash::encoding::int_to_bytes8;
use cached_tree_hash::hashing::{hash, HASHSIZE};

fn hex(bytes: &[u8]) -> String {
    let mut out = String::new();
    for byte in bytes {
        out.push_str(&format!("{:02x}", byte));
    }
    out
}

#[test]
fn hash_of_nothing_is_the_keccak_256_of_nothing() {
    assert_eq!(
        hex(&hash(&[])),
        "c5d2460186f7233c927e7db2dcc703c0e500b653ca82273b7bfad8045d85a470"
    );
}

#[test]
fn hash_is_the_keccak_256_digest() {
    let input = b"hello";
    assert_eq!(
        hex(&hash(input)),
        "1c8aff950685c2ed4bc3174f3472287b56d9517b9c948127319a09a7a36deac8"
    );
    assert_eq!(hash(input), tiny_keccak::keccak256(input).to_vec());
}

#[test]
fn hash_has_thirty_two_bytes_whatever_the_input() {
    assert_eq!(HASHSIZE, 32);
    assert_eq!(hash(&[]).len(), 32);
    assert_eq!(hash(&[1u8; 32]).len(), 32);
    assert_eq!(hash(&[1u8; 200]).len(), 32);
    assert_ne!(hash(&[1u8; 32]), vec![1u8; 32]);
}

#[test]
fn hash_depends_on_the_input_alone() {
    assert_eq!(hash(&[1, 2, 3]), hash(&[1, 2, 3]));
    assert_ne!(hash(&[1, 2, 3]), hash(&[1, 2, 4]));
}

#[test]
fn int_to_bytes8_is_little_endian() {
    assert_eq!(int_to_bytes8(0), vec![0u8; 8]);
    assert_eq!(int_to_bytes8(1), vec![1, 0, 0, 0, 0, 0, 0, 0]);
    assert_eq!(int_to_bytes8(0x0102), vec![2, 1, 0, 0, 0, 0, 0, 0]);
    assert_eq!(
        int_to_bytes8(0x0102030405060708),
        vec![8, 7, 6, 5, 4, 3, 2, 1]
    );
    assert_eq!(int_to_bytes8(u64::MAX), vec![0xff; 8]);
    assert_eq!(int_to_bytes8(123456789), 123456789u64.to_le_bytes().to_vec());
}
