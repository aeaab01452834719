use miniscript_taproot::bytes::{bytes_lt, compact_size, copy_bytes};
use miniscript_taproot::hash::tagged_hash;
use miniscript_taproot::text::{decimal, to_hex};
use sapio_miniscript::bitcoin::hashes;

fn sha256(data: &[u8]) -> Vec<u8> {
    let digest: hashes::sha256::Hash = hashes::Hash::hash(data);
    hashes::Hash::into_inner(digest).to_vec()
}

#[test]
fn hex_of_bytes_is_lower_case() {
    assert_eq!(to_hex(&[0x00, 0xab, 0x1f]), "00ab1f");
    assert_eq!(to_hex(&[0xff]), "ff");
    assert_eq!(to_hex(&[]), "");
}

#[test]
fn decimal_of_counts() {
    assert_eq!(decimal(0), "0");
    assert_eq!(decimal(7), "7");
    assert_eq!(decimal(10), "10");
    assert_eq!(decimal(12345), "12345");
}

#[test]
fn compact_size_has_four_forms() {
    assert_eq!(compact_size(0), vec![0x00]);
    assert_eq!(compact_size(0xfc), vec![0xfc]);
    assert_eq!(compact_size(0xfd), vec![0xfd, 0xfd, 0x00]);
    assert_eq!(compact_size(0xffff), vec![0xfd, 0xff, 0xff]);
    assert_eq!(compact_size(0x1_0000), vec![0xfe, 0x00, 0x00, 0x01, 0x00]);
    assert_eq!(compact_size(0xffff_ffff), vec![0xfe, 0xff, 0xff, 0xff, 0xff]);
    assert_eq!(
        compact_size(0x1_0000_0000),
        vec![0xff, 0x00, 0x00, 0x00, 0x00, 0x01, 0x00, 0x00, 0x00]
    );
}

#[test]
fn byte_strings_order_lexicographically() {
    assert!(bytes_lt(&[1, 2, 3], &[1, 2, 4]));
    assert!(!bytes_lt(&[1, 2, 4], &[1, 2, 3]));
    assert!(bytes_lt(&[1, 2], &[1, 2, 0]));
    assert!(!bytes_lt(&[1, 2, 0], &[1, 2]));
    assert!(!bytes_lt(&[5, 5], &[5, 5]));
    assert!(bytes_lt(&[], &[0]));
    assert!(!bytes_lt(&[], &[]));
    assert!(bytes_lt(&[0, 255], &[1]));
}

#[test]
fn copy_of_bytes_is_equal() {
    assert_eq!(copy_bytes(&[9, 8, 7]), vec![9, 8, 7]);
}

#[test]
fn tagged_hash_prefixes_the_tag_digest_twice() {
    let tag = sha256(b"TapLeaf");
    let mut input = Vec::new();
    input.extend_from_slice(&tag);
    input.extend_from_slice(&tag);
    input.extend_from_slice(b"data");
    assert_eq!(tagged_hash("TapLeaf", b"data"), sha256(&input));
    assert_ne!(tagged_hash("TapLeaf", b"data"), tagged_hash("TapBranch", b"data"));
    assert_ne!(tagged_hash("TapLeaf", b"data"), b"data".to_vec());
    assert_eq!(tagged_hash("TapLeaf", b"data").len(), 32);
}

#[test]
fn tagged_hash_of_empty_data() {
    let tag = sha256(b"TapTweak");
    let mut input = tag.clone();
    input.extend_from_slice(&tag);
    assert_eq!(tagged_hash("TapTweak", &[]), sha256(&input));
    assert_eq!(
        to_hex(&sha256(b"")),
        "e3b0c44298fc1c149afbf4c8996fb92427ae41e4649b934ca495991b7852b855"
    );
}
