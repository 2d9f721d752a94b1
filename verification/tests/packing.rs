use altered_catalog::packing::{pack_power_values, unpack_power_values};

#[test]
fn packs_full_zero_and_half_power() {
    let packed = pack_power_values(255, 0, 128);
    assert_eq!(packed, 0xFF00_8000);
    assert_eq!(unpack_power_values(packed), (255, 0, 128));
}

#[test]
fn each_value_lands_in_its_own_byte() {
    assert_eq!(pack_power_values(1, 0, 0), 0x0100_0000);
    assert_eq!(pack_power_values(0, 1, 0), 0x0001_0000);
    assert_eq!(pack_power_values(0, 0, 1), 0x0000_0100);
    assert_eq!(pack_power_values(1, 2, 3), 0x0102_0300);
    assert_eq!(pack_power_values(0, 0, 0), 0);
    assert_eq!(pack_power_values(255, 255, 255), 0xFFFF_FF00);
}

#[test]
fn unpack_inverts_pack_on_a_grid_of_values() {
    let samples: [u8; 9] = [0, 1, 2, 15, 16, 127, 128, 254, 255];
    for a in samples {
        for b in samples {
            for c in samples {
                let packed = pack_power_values(a, b, c);
                assert_eq!(packed & 0xFF, 0);
                assert_eq!(unpack_power_values(packed), (a, b, c));
            }
        }
    }
}

#[test]
fn unpack_ignores_the_reserved_byte() {
    assert_eq!(unpack_power_values(0x0102_03FF), (1, 2, 3));
    assert_eq!(unpack_power_values(0xFFFF_FFFF), (255, 255, 255));
    assert_eq!(unpack_power_values(0x0000_00AB), (0, 0, 0));
}
