use altered_catalog::hex::to_hex;

#[test]
fn zero_is_one_digit() {
    assert_eq!(to_hex(0), "0");
}

#[test]
fn digits_are_lower_case_without_padding() {
    assert_eq!(to_hex(9), "9");
    assert_eq!(to_hex(10), "a");
    assert_eq!(to_hex(15), "f");
    assert_eq!(to_hex(16), "10");
    assert_eq!(to_hex(255), "ff");
    assert_eq!(to_hex(256), "100");
    assert_eq!(to_hex(0xDEAD_BEEF), "deadbeef");
    assert_eq!(to_hex(31170), "79c2");
}

#[test]
fn agrees_with_the_standard_formatter() {
    let samples: [u128; 8] = [
        0,
        1,
        0xABCDEF,
        u32::MAX as u128,
        u64::MAX as u128,
        u64::MAX as u128 + 1,
        1 << 100,
        u128::MAX,
    ];
    for v in samples {
        assert_eq!(to_hex(v), format!("{:x}", v));
    }
}
