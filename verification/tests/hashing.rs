use billion_record_challenge::fnv::{fnv_hash, FnvHasher};

const OFFSET_BASIS: u64 = 0xcbf29ce484222325;
const PRIME: u64 = 0x100000001b3;

#[test]
fn empty_input_is_offset_basis() {
    assert_eq!(fnv_hash(b""), OFFSET_BASIS);
}

#[test]
fn single_byte_matches_reference_value() {
    // published FNV-1a 64-bit test vector for "a"
    assert_eq!(fnv_hash(b"a"), 0xaf63dc4c8601ec8c);
}

#[test]
fn steps_xor_then_multiply() {
    let mut expected = OFFSET_BASIS;
    for &b in b"Toronto" {
        expected ^= b as u64;
        expected = expected.wrapping_mul(PRIME);
    }
    assert_eq!(fnv_hash(b"Toronto"), expected);
}

#[test]
fn writes_compose() {
    let mut split = FnvHasher::default();
    split.write(b"To");
    split.write(b"ronto");
    assert_eq!(split.finish(), fnv_hash(b"Toronto"));
}

#[test]
fn distinct_keys_differ() {
    assert_ne!(fnv_hash(b"A"), fnv_hash(b"B"));
}
