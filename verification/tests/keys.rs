use blobshare::digest::digest_of;
use blobshare::hex::dec_of_u64;
use blobshare::hex::hex_of_u64;
use blobshare::hex::string_of_bytes;

/// An independent rendition of the digest fold, to pin the exported one
/// down on concrete values.
fn reference_fold(bytes: &[u8]) -> u64 {
    let mut h: u64 = 0xcbf29ce484222325;
    for b in bytes {
        h = (h ^ (*b as u64)).wrapping_mul(0x100000001b3);
    }
    h
}

#[test]
fn hex_of_zero_is_one_digit() {
    assert_eq!(hex_of_u64(0), b"0".to_vec());
}

#[test]
fn hex_has_no_leading_zeros() {
    assert_eq!(hex_of_u64(0xff), b"ff".to_vec());
    assert_eq!(hex_of_u64(0x1a2b), b"1a2b".to_vec());
    assert_eq!(hex_of_u64(16), b"10".to_vec());
    assert_eq!(hex_of_u64(u64::MAX), b"ffffffffffffffff".to_vec());
}

#[test]
fn dec_renders_exactly() {
    assert_eq!(dec_of_u64(0), b"0".to_vec());
    assert_eq!(dec_of_u64(5), b"5".to_vec());
    assert_eq!(dec_of_u64(1234), b"1234".to_vec());
    assert_eq!(dec_of_u64(1000), b"1000".to_vec());
}

#[test]
fn string_of_bytes_reads_ascii() {
    assert_eq!(string_of_bytes(b"abc"), "abc".to_string());
    assert_eq!(string_of_bytes(b""), "".to_string());
}

#[test]
fn digest_matches_reference_fold() {
    let mut all = Vec::new();
    all.extend_from_slice(b"/x");
    all.extend_from_slice(b"hello");
    all.extend_from_slice(&7u64.to_be_bytes());
    assert_eq!(digest_of(b"/x", b"hello", 7), reference_fold(&all));
}

#[test]
fn digest_depends_on_every_part() {
    let d = digest_of(b"/x", b"hello", 7);
    assert_ne!(d, digest_of(b"/y", b"hello", 7));
    assert_ne!(d, digest_of(b"/x", b"hellp", 7));
    assert_ne!(d, digest_of(b"/x", b"hello", 8));
    assert_eq!(d, digest_of(b"/x", b"hello", 7));
}
