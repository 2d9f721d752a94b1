//! Writing strings and vectors into a FlatBuffers buffer.
//!
//! The buffer is built with `flatbuffers::FlatBufferBuilder`. The builder
//! lays each item out in front of what it holds already, and tells where the
//! item lies by its distance from the end of the buffer.
//!
//! - A byte string is laid out as its length in four bytes, the bytes, a
//!   zero byte, and zero bytes up to a multiple of four. A text is laid out
//!   as the byte string of its UTF-8 bytes.
//! - A vector of offsets is laid out as the number of its slots in four
//!   bytes, the slots of four bytes each, and zero bytes up to a multiple of
//!   four. A slot holds the distance from itself to the item it points to.
//! - A buffer is finished by the distance to its root in four bytes, in
//!   front of zero bytes up to a multiple of four.
//!
//! Numbers are laid out with the least significant byte first.

use flatbuffers::DefaultAllocator;
use flatbuffers::FlatBufferBuilder;
use vstd::bytes::{lemma_auto_spec_u32_to_from_le_bytes, spec_u32_to_le_bytes};
use vstd::prelude::*;
use vstd::string::*;
use vstd::utf8::*;

verus! {

/// A `flatbuffers::FlatBufferBuilder` over its default allocator. Nothing
/// is known of it but what `builder_bytes` names.
#[verifier::external_body]
pub struct BufferBuilder {
    inner: FlatBufferBuilder<'static, DefaultAllocator>,
}

/// The most bytes that a buffer may hold: the format addresses two gibibytes.
pub const BUFFER_LIMIT: usize = 0x8000_0000;

/// The bytes that the builder holds: what has been written so far, the item
/// written last in front.
pub uninterp spec fn builder_bytes(builder: BufferBuilder) -> Seq<u8>;

/// The number of zero bytes that bring `len` bytes to a multiple of four.
pub open spec fn padding(len: nat) -> nat {
    ((4 - len % 4) % 4) as nat
}

/// `count` zero bytes.
pub open spec fn zeros(count: nat) -> Seq<u8> {
    Seq::new(count, |i: int| 0u8)
}

/// The four bytes of a number, the least significant first.
pub open spec fn word_bytes(n: u32) -> Seq<u8> {
    spec_u32_to_le_bytes(n)
}

/// What a builder holds after `create_byte_string`, given what it held
/// before and the bytes: length, bytes, a zero byte and padding in front of
/// what it held.
pub open spec fn framed_bytes(written: Seq<u8>, items: Seq<u8>) -> Seq<u8> {
    word_bytes(items.len() as u32) + items + seq![0u8] + zeros(
        padding(written.len() + items.len() + 1),
    ) + written
}

/// What a builder holds after `create_string`, given what it held before and
/// the string: the byte string of its UTF-8 bytes in front of what it held.
pub open spec fn framed_text(written: Seq<u8>, text: Seq<char>) -> Seq<u8> {
    framed_bytes(written, encode_utf8(text))
}

/// What slot `i` of a vector of offsets holds: the distance from the slot to
/// the item at `offsets[i]`. The slot lies `4 * (offsets.len() - i)` bytes in
/// front of the `base` bytes that the builder held, padding included.
pub open spec fn slot_value(base: nat, offsets: Seq<u32>, i: int) -> u32 {
    (base + 4 * (offsets.len() - i) - offsets[i]) as u32
}

/// The slots of a vector of offsets, one after the other.
pub open spec fn slots(base: nat, offsets: Seq<u32>) -> Seq<u8> {
    Seq::new(4 * offsets.len(), |k: int| word_bytes(slot_value(base, offsets, k / 4))[k % 4])
}

/// What a builder holds after `create_vector`, given what it held before
/// and the offsets that the vector is to list: the number of slots, the
/// slots and padding in front of what it held.
pub open spec fn framed_offsets(written: Seq<u8>, offsets: Seq<u32>) -> Seq<u8> {
    word_bytes(offsets.len() as u32) + slots(
        written.len() + padding(written.len()),
        offsets,
    ) + zeros(padding(written.len())) + written
}

/// The finished buffer that `finish_minimal` makes of what a builder holds,
/// with the item at `root` as its root: the distance to the root and padding
/// in front of what the builder held.
pub open spec fn finished_buffer(written: Seq<u8>, root: u32) -> Seq<u8> {
    word_bytes((written.len() + padding(written.len()) + 4 - root) as u32) + zeros(
        padding(written.len()),
    ) + written
}

/// Each item takes at least four bytes and at most eight more than its
/// payload.
pub proof fn lemma_framed_lengths(written: Seq<u8>, items: Seq<u8>, offsets: Seq<u32>)
    ensures
        written.len() + items.len() + 5 <= framed_bytes(written, items).len() <= written.len()
            + items.len() + 8,
        written.len() + 4 * offsets.len() + 4 <= framed_offsets(written, offsets).len()
            <= written.len() + 4 * offsets.len() + 8,
{
    lemma_auto_spec_u32_to_from_le_bytes();
}

/// Whether an item with a payload of `payload` bytes can still be written
/// behind `written` bytes. Eight bytes are allowed for its length, its end
/// and its padding.
pub open spec fn has_room(written: nat, payload: nat) -> bool {
    written + payload + 8 <= BUFFER_LIMIT
}

/// `FlatBufferBuilder::with_capacity`.
///
/// Not proved: that the new builder holds nothing. A capacity above the
/// buffer limit is refused by the builder.
#[verifier::external_body]
pub(crate) fn new_builder(capacity: usize) -> (builder: BufferBuilder)
    requires
        capacity <= BUFFER_LIMIT,
    ensures
        builder_bytes(builder) == Seq::<u8>::empty(),
{
    BufferBuilder { inner: FlatBufferBuilder::with_capacity(capacity) }
}

/// `FlatBufferBuilder::create_string`, with the offset it returns taken out
/// by `WIPOffset::value`.
///
/// Not proved: that the builder lays the string out as `framed_text` says,
/// and that the offset is the number of bytes that the builder holds
/// afterwards.
#[verifier::external_body]
pub(crate) fn push_text(builder: &mut BufferBuilder, text: &str) -> (offset: u32)
    requires
        has_room(builder_bytes(*old(builder)).len(), encode_utf8(text@).len()),
    ensures
        builder_bytes(*final(builder)) == framed_text(builder_bytes(*old(builder)), text@),
        offset as nat == builder_bytes(*final(builder)).len(),
{
    builder.inner.create_string(text).value()
}

/// `FlatBufferBuilder::create_byte_string`, with the offset it returns taken
/// out by `WIPOffset::value`.
///
/// Not proved: that the builder lays the bytes out as `framed_bytes` says,
/// and that the offset is the number of bytes that the builder holds
/// afterwards.
#[verifier::external_body]
pub(crate) fn push_bytes(builder: &mut BufferBuilder, items: &[u8]) -> (offset: u32)
    requires
        has_room(builder_bytes(*old(builder)).len(), items@.len()),
    ensures
        builder_bytes(*final(builder)) == framed_bytes(builder_bytes(*old(builder)), items@),
        offset as nat == builder_bytes(*final(builder)).len(),
{
    builder.inner.create_byte_string(items).value()
}

/// `FlatBufferBuilder::create_vector` on offsets, each made of its number by
/// `WIPOffset::new`, with the offset it returns taken out by
/// `WIPOffset::value`.
///
/// Not proved: that the builder lays the vector out as `framed_offsets`
/// says, and that the offset is the number of bytes that the builder holds
/// afterwards. An offset that lies beyond what the builder holds cannot be
/// written.
#[verifier::external_body]
pub(crate) fn push_offsets(builder: &mut BufferBuilder, offsets: &Vec<u32>) -> (offset: u32)
    requires
        has_room(builder_bytes(*old(builder)).len(), 4 * offsets@.len()),
        forall|i: int|
            0 <= i < offsets@.len() ==> offsets@[i] <= builder_bytes(*old(builder)).len(),
    ensures
        builder_bytes(*final(builder)) == framed_offsets(
            builder_bytes(*old(builder)),
            offsets@,
        ),
        offset as nat == builder_bytes(*final(builder)).len(),
{
    let items: Vec<flatbuffers::WIPOffset<()>> = offsets.iter().map(
        |o| flatbuffers::WIPOffset::new(*o),
    ).collect();
    builder.inner.create_vector(&items).value()
}

/// `FlatBufferBuilder::finish_minimal` on the offset `root`, made by
/// `WIPOffset::new`, then a copy of `finished_data`.
///
/// Not proved: that the bytes handed out are what `finished_buffer` says of
/// what the builder held and the root. A builder that holds nothing cannot
/// be finished, nor can a root that lies beyond what the builder holds be
/// written.
#[verifier::external_body]
pub(crate) fn finish_buffer(builder: BufferBuilder, root: u32) -> (buffer: Vec<u8>)
    requires
        0 < builder_bytes(builder).len(),
        has_room(builder_bytes(builder).len(), 0),
        root <= builder_bytes(builder).len(),
    ensures
        buffer@ == finished_buffer(builder_bytes(builder), root),
{
    let mut inner = builder.inner;
    inner.finish_minimal(flatbuffers::WIPOffset::<()>::new(root));
    inner.finished_data().to_vec()
}

} // verus!
