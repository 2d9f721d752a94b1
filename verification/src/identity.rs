//! The numeric identity of a card: a 32-bit value derived from its reference
//! key.
//!
//! The hash is the one of `std::collections::hash_map::DefaultHasher` in its
//! initial state, fed the UTF-8 bytes of the key and then the single byte
//! `0xFF`, which is how the standard library hashes a string slice. The low 32
//! bits of the 64-bit result are the identity. The hasher is SipHash-1-3 with
//! both keys zero; the standard library keeps the right to change it, so
//! identities are to be compared among builds with the same standard library.
//! Two different keys may get the same identity: it orders and locates
//! records, and never stands for the key.

use std::collections::hash_map::DefaultHasher;
use std::hash::Hasher;
use vstd::prelude::*;
use vstd::std_specs::hash::*;
use vstd::string::*;
use vstd::utf8::*;

verus! {

/// The byte that ends the hashed form of a string.
pub const KEY_END: u8 = 0xFF;

/// What is written to the hasher for `reference`: its bytes, then the end
/// byte, as two writes.
pub open spec fn hashed_form(reference: Seq<char>) -> Seq<Seq<u8>> {
    seq![encode_utf8(reference), seq![KEY_END]]
}

/// The identity of the record filed under `reference`.
pub open spec fn identity_of(reference: Seq<char>) -> u32 {
    (DefaultHasher::spec_finish(hashed_form(reference)) % 0x1_0000_0000) as u32
}

/// Derives the numeric identity of a reference key. The result depends on the
/// characters of the key and on nothing else.
pub fn generate_numeric_id(reference: &str) -> (id: u32)
    ensures
        id == identity_of(reference@),
{
    let mut hasher = DefaultHasher::new();
    let bytes = reference.as_bytes();
    hasher.write(bytes);
    let end: [u8; 1] = [KEY_END];
    assert(end@ =~= seq![KEY_END]);
    hasher.write(end.as_slice());
    assert(hasher@ =~= hashed_form(reference@));
    let hash: u64 = hasher.finish();
    (hash % 0x1_0000_0000) as u32
}

/// The identity depends on the characters of the key alone: equal keys have
/// equal identities, whenever and wherever they are derived.
pub proof fn lemma_identity_of_equal_keys(a: Seq<char>, b: Seq<char>)
    requires
        a == b,
    ensures
        identity_of(a) == identity_of(b),
{
}

} // verus!
