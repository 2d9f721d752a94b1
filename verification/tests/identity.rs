use altered_catalog::identity::generate_numeric_id;
use std::collections::hash_map::DefaultHasher;
use std::hash::{Hash, Hasher};

fn hashed_as_a_string(reference: &str) -> u32 {
    let mut hasher = DefaultHasher::new();
    reference.hash(&mut hasher);
    hasher.finish() as u32
}

#[test]
fn the_same_key_gives_the_same_identity() {
    let a = generate_numeric_id("ALT_CORE_B_AX_01_C");
    let b = generate_numeric_id("ALT_CORE_B_AX_01_C");
    assert_eq!(a, b);
    let owned = String::from("ALT_CORE_B_AX_01_C");
    assert_eq!(generate_numeric_id(&owned), a);
}

#[test]
fn identity_is_the_low_half_of_the_string_hash() {
    for key in ["", "R1", "R2", "ALT_CORE_B_AX_01_C", "clé", "日本語", "a\u{10FFFF}b"] {
        assert_eq!(generate_numeric_id(key), hashed_as_a_string(key));
    }
}

#[test]
fn identity_is_that_of_the_bytes_and_the_end_byte() {
    let mut hasher = DefaultHasher::new();
    hasher.write(b"R1");
    hasher.write(&[0xFF]);
    assert_eq!(generate_numeric_id("R1"), hasher.finish() as u32);
}

#[test]
fn different_keys_usually_differ() {
    assert_ne!(generate_numeric_id("R1"), generate_numeric_id("R2"));
    assert_ne!(generate_numeric_id(""), generate_numeric_id("\u{0}"));
}
