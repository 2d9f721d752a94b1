//! Packing of the three power values of a card into one 32-bit word.

use vstd::prelude::*;

verus! {

/// The word that holds `mountain` in bits 31..24, `ocean` in bits 23..16 and
/// `forest` in bits 15..8. Bits 7..0 are reserved and stay zero.
pub open spec fn packed_word(mountain: u8, ocean: u8, forest: u8) -> u32 {
    (mountain as u32 * 0x100_0000 + ocean as u32 * 0x1_0000 + forest as u32 * 0x100) as u32
}

/// The three bytes above the reserved low byte of `packed`, highest first.
pub open spec fn unpacked_bytes(packed: u32) -> (u8, u8, u8) {
    (
        ((packed / 0x100_0000) % 0x100) as u8,
        ((packed / 0x1_0000) % 0x100) as u8,
        ((packed / 0x100) % 0x100) as u8,
    )
}

/// Folds three power values into one word.
pub fn pack_power_values(mountain: u8, ocean: u8, forest: u8) -> (packed: u32)
    ensures
        packed == packed_word(mountain, ocean, forest),
        packed % 0x100 == 0,
{
    let m: u32 = mountain as u32;
    let o: u32 = ocean as u32;
    let f: u32 = forest as u32;
    assert(((m << 24) | (o << 16) | (f << 8)) == m * 0x100_0000 + o * 0x1_0000 + f * 0x100
        && ((m << 24) | (o << 16) | (f << 8)) % 0x100 == 0) by (bit_vector)
        requires
            m < 0x100,
            o < 0x100,
            f < 0x100,
    ;
    (m << 24) | (o << 16) | (f << 8)
}

/// Reads the three power values back out of a packed word. The reserved low
/// byte is ignored.
pub fn unpack_power_values(packed: u32) -> (values: (u8, u8, u8))
    ensures
        values == unpacked_bytes(packed),
{
    assert(((packed >> 24) & 0xFF) == (packed / 0x100_0000) % 0x100
        && ((packed >> 16) & 0xFF) == (packed / 0x1_0000) % 0x100
        && ((packed >> 8) & 0xFF) == (packed / 0x100) % 0x100) by (bit_vector);
    let mountain: u8 = ((packed >> 24) & 0xFF) as u8;
    let ocean: u8 = ((packed >> 16) & 0xFF) as u8;
    let forest: u8 = ((packed >> 8) & 0xFF) as u8;
    (mountain, ocean, forest)
}

/// Unpacking a packed word gives back the three values that went in.
pub proof fn lemma_unpack_inverts_pack(mountain: u8, ocean: u8, forest: u8)
    ensures
        unpacked_bytes(packed_word(mountain, ocean, forest)) == (mountain, ocean, forest),
{
    let w: int = mountain as int * 0x100_0000 + ocean as int * 0x1_0000 + forest as int * 0x100;
    assert(0 <= w <= 0xFFFF_FF00);
    assert(packed_word(mountain, ocean, forest) as int == w);
    assert(w / 0x100_0000 == mountain as int);
    assert((w / 0x1_0000) % 0x100 == ocean as int);
    assert((w / 0x100) % 0x100 == forest as int);
}

} // verus!
