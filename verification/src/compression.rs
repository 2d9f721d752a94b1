//! Codecs for encoded buffers.
//!
//! Three codecs are offered over whole buffers: none, gzip and LZ4 with the
//! size of the data in front. What a codec packs, it unpacks to the same
//! bytes. The contracts say so by way of what the decoder of each codec makes
//! of a byte string.
//!
//! Gzip packs the same data into the same bytes wherever it runs, so its
//! result has a name. LZ4 does not: its encoder may pack the same data
//! differently on another kind of machine, and all that is said of its bytes
//! is what they unpack to and how many they are at most.
//!
//! The LZ4 decoder is handed no more than `LZ4_MAX_PACKED` bytes, since it
//! is not safe on longer input that is damaged. Packing has no such limit:
//! LZ4 packs all data that it accepts, and what it packs of data up to
//! fifteen million bytes is sure to be short enough for `decompress`.

use crate::error::CatalogError;
use std::io::Read;
use std::io::Write;
use vstd::prelude::*;
use vstd::slice::slice_to_vec;

verus! {

/// What the gzip decoder makes of `bytes`: the data of the first gzip member,
/// or `None` where `bytes` do not start with a sound member.
pub uninterp spec fn gzip_decoded(bytes: Seq<u8>) -> Option<Seq<u8>>;

/// What the gzip encoder at its best level makes of `data`: one gzip member
/// without a name, a time or an operating system in its header, or `None`
/// where the encoder reports an error.
pub uninterp spec fn gzip_encoded(data: Seq<u8>) -> Option<Seq<u8>>;

/// What the LZ4 block decoder makes of `bytes`, read as a length in four
/// bytes followed by one block: the data of the block, or `None` where
/// `bytes` are not of that form.
pub uninterp spec fn lz4_decoded(bytes: Seq<u8>) -> Option<Seq<u8>>;

/// The longest packed input that is handed to the LZ4 decoder. Below this
/// length no run of length bytes in a block can add up to more than 32 bits.
pub const LZ4_MAX_PACKED: usize = 0x100_0000;

/// Whether LZ4 can pack data of this length: the length has to fit the four
/// bytes in front, and the room that the encoder sets aside has to fit a
/// `usize`.
pub open spec fn lz4_accepts(len: nat) -> bool {
    len <= 0xFFFF_FFFF && len * 110 + 24 <= usize::MAX
}

/// The room that the LZ4 encoder sets aside for data of this length. What
/// it packs is never longer.
pub open spec fn lz4_bound(len: nat) -> nat {
    24 + len * 110 / 100
}

/// Whether data of this length are sure to be packed by LZ4 into bytes that
/// `decompress` takes: the data are accepted, and the room for the packed
/// bytes is within what the decoder is handed. This holds of all data up to
/// fifteen million bytes. Longer data are packed as well; whether
/// `decompress` takes their packed form depends on its length.
pub open spec fn lz4_is_sure(len: nat) -> bool {
    lz4_accepts(len) && lz4_bound(len) <= LZ4_MAX_PACKED
}

/// `flate2::write::GzEncoder` at the best level over a `Vec<u8>`: `new`,
/// `write_all`, `finish`. `None` stands for an I/O error of the encoder.
///
/// Not proved: that what comes out is what `gzip_encoded` names for `data`,
/// and that the bytes that come out are a gzip member which the decoder
/// turns back into `data`. That the encoder succeeds is not claimed: its
/// code has a path for an error of the compressor.
#[verifier::external_body]
fn gzip_encode(data: &[u8]) -> (packed: Option<Vec<u8>>)
    ensures
        match packed {
            Some(p) => gzip_encoded(data@) == Some(p@),
            None => gzip_encoded(data@) is None,
        },
        packed is Some ==> gzip_decoded(packed->0@) == Some(data@),
{
    let mut encoder = flate2::write::GzEncoder::new(Vec::new(), flate2::Compression::best());
    match encoder.write_all(data) {
        Ok(()) => encoder.finish().ok(),
        Err(_) => None,
    }
}

/// `flate2::read::GzDecoder` over `bytes`, read to its end. `None` stands for
/// the error that the decoder gives on bytes that are no sound gzip member.
///
/// Not proved: that what comes out is what `gzip_decoded` names for
/// `bytes`.
#[verifier::external_body]
fn gzip_decode(bytes: &[u8]) -> (data: Option<Vec<u8>>)
    ensures
        match data {
            Some(d) => gzip_decoded(bytes@) == Some(d@),
            None => gzip_decoded(bytes@) is None,
        },
{
    let mut data = Vec::new();
    match flate2::read::GzDecoder::new(bytes).read_to_end(&mut data) {
        Ok(_) => Some(data),
        Err(_) => None,
    }
}

/// `lz4_flex::compress_prepend_size`.
///
/// Not proved: that the bytes that come out are turned back into `data` by
/// `lz4_flex::decompress_size_prepended`, and that they are no more than the
/// room that the encoder sets aside for them. Longer data than `lz4_accepts`
/// admits would have its length cut to 32 bits. The packed bytes are given
/// no name: the encoder looks for repetitions with a hash of a machine word,
/// so machines of different word size or byte order may pack the same data
/// differently.
#[verifier::external_body]
fn lz4_encode(data: &[u8]) -> (packed: Vec<u8>)
    requires
        lz4_accepts(data@.len()),
    ensures
        lz4_decoded(packed@) == Some(data@),
        packed@.len() <= lz4_bound(data@.len()),
{
    lz4_flex::compress_prepend_size(data)
}

/// `lz4_flex::decompress_size_prepended`. `None` stands for the error that
/// it gives on bytes that are not a length followed by a sound block.
///
/// Not proved: that what comes out is what `lz4_decoded` names for `bytes`.
/// The decoder sets aside as much memory as the four bytes in front
/// announce, and it adds up the length bytes of a block in 32 bits, which is
/// why longer input than `LZ4_MAX_PACKED` is kept from it.
#[verifier::external_body]
fn lz4_decode(bytes: &[u8]) -> (data: Option<Vec<u8>>)
    requires
        bytes@.len() <= LZ4_MAX_PACKED,
    ensures
        match data {
            Some(d) => lz4_decoded(bytes@) == Some(d@),
            None => lz4_decoded(bytes@) is None,
        },
{
    lz4_flex::decompress_size_prepended(bytes).ok()
}

/// A way of packing a buffer.
#[derive(Clone, Copy, Debug, PartialEq, Eq, Structural)]
pub enum Codec {
    /// No packing: the bytes as they are.
    Stored,
    /// Gzip at its best level.
    Gzip,
    /// One LZ4 block behind the length of the data.
    Lz4,
}

/// What the decoder of `codec` makes of `bytes`: the data that they were
/// packed from, or `None` where they are not the packed form of any.
pub open spec fn decoded_by(codec: Codec, bytes: Seq<u8>) -> Option<Seq<u8>> {
    match codec {
        Codec::Stored => Some(bytes),
        Codec::Gzip => gzip_decoded(bytes),
        Codec::Lz4 => lz4_decoded(bytes),
    }
}

/// What `decompress` makes of `bytes`: what the decoder of `codec` makes of
/// them, but nothing of bytes that are too long to be handed to the LZ4
/// decoder.
pub open spec fn unpacked(codec: Codec, bytes: Seq<u8>) -> Option<Seq<u8>> {
    if codec == Codec::Lz4 && bytes.len() > LZ4_MAX_PACKED {
        None
    } else {
        decoded_by(codec, bytes)
    }
}

/// Whether `codec` packs `data`: always without a codec, with gzip where
/// the encoder gives bytes, and with LZ4 where it accepts the length.
pub open spec fn can_pack(codec: Codec, data: Seq<u8>) -> bool {
    match codec {
        Codec::Stored => true,
        Codec::Gzip => gzip_encoded(data) is Some,
        Codec::Lz4 => lz4_accepts(data.len()),
    }
}

/// What a codec hands back, as the result of the operation: the bytes, or a
/// codec failure where there are none.
pub fn codec_outcome(bytes: Option<Vec<u8>>) -> (outcome: Result<Vec<u8>, CatalogError>)
    ensures
        outcome == match bytes {
            Some(b) => Ok::<Vec<u8>, CatalogError>(b),
            None => Err::<Vec<u8>, CatalogError>(CatalogError::CodecFailure),
        },
{
    match bytes {
        Some(b) => Ok(b),
        None => Err(CatalogError::CodecFailure),
    }
}

/// Packs `data` with gzip. The result is `Ok` exactly where the encoder
/// gives bytes, and holds the gzip member that it gives for `data`; that
/// member unpacks to `data`. The same data always give the same bytes.
pub fn compress_with_gzip(data: &[u8]) -> (outcome: Result<Vec<u8>, CatalogError>)
    ensures
        outcome is Ok <==> gzip_encoded(data@) is Some,
        outcome is Ok ==> outcome->Ok_0@ == gzip_encoded(data@)->0,
        outcome is Ok ==> unpacked(Codec::Gzip, outcome->Ok_0@) == Some(data@),
        outcome is Err ==> outcome->Err_0 == CatalogError::CodecFailure,
{
    codec_outcome(gzip_encode(data))
}

/// Packs `data` with LZ4. The result is `Ok` exactly where LZ4 accepts the
/// length of the data, and a codec failure otherwise. The packed bytes are
/// what the LZ4 decoder turns back into `data`, and they are no more than
/// the room that the encoder sets aside. Where `lz4_is_sure` holds of the
/// length, `decompress` takes them too.
pub fn compress_with_lz4(data: &[u8]) -> (outcome: Result<Vec<u8>, CatalogError>)
    ensures
        outcome is Ok <==> lz4_accepts(data@.len()),
        outcome is Ok ==> lz4_decoded(outcome->Ok_0@) == Some(data@),
        outcome is Ok ==> outcome->Ok_0@.len() <= lz4_bound(data@.len()),
        outcome is Ok && lz4_is_sure(data@.len()) ==> unpacked(Codec::Lz4, outcome->Ok_0@)
            == Some(data@),
        outcome is Err ==> outcome->Err_0 == CatalogError::CodecFailure,
{
    if data.len() <= 0xFFFF_FFFF && data.len() <= (usize::MAX - 24) / 110 {
        Ok(lz4_encode(data))
    } else {
        Err(CatalogError::CodecFailure)
    }
}

/// Packs `data` with `codec`. The result is `Ok` exactly where the codec
/// packs the data, and a codec failure otherwise. The packed bytes are what
/// the decoder of the codec turns back into `data`: without a codec `data`
/// itself, with gzip the member that the encoder gives for `data`.
/// `decompress` takes them unless they are LZ4 bytes beyond the length that
/// it hands to the decoder.
pub fn compress(data: &[u8], codec: Codec) -> (outcome: Result<Vec<u8>, CatalogError>)
    ensures
        outcome is Ok <==> can_pack(codec, data@),
        outcome is Ok ==> decoded_by(codec, outcome->Ok_0@) == Some(data@),
        outcome is Ok && (codec != Codec::Lz4 || outcome->Ok_0@.len() <= LZ4_MAX_PACKED)
            ==> unpacked(codec, outcome->Ok_0@) == Some(data@),
        outcome is Err ==> outcome->Err_0 == CatalogError::CodecFailure,
        codec == Codec::Stored ==> outcome is Ok && outcome->Ok_0@ == data@,
        codec == Codec::Gzip && outcome is Ok ==> outcome->Ok_0@ == gzip_encoded(data@)->0,
        codec == Codec::Lz4 && outcome is Ok ==> outcome->Ok_0@.len() <= lz4_bound(data@.len()),
{
    match codec {
        Codec::Stored => Ok(slice_to_vec(data)),
        Codec::Gzip => compress_with_gzip(data),
        Codec::Lz4 => compress_with_lz4(data),
    }
}

/// Unpacks `bytes` with `codec`. The result is `Ok` exactly where the
/// decoder of the codec makes data of the bytes, and holds these data. LZ4
/// bytes beyond `LZ4_MAX_PACKED` are a codec failure: they are not handed to
/// the decoder. Whatever else `compress` gave for some data with the same
/// codec is unpacked to that data.
pub fn decompress(bytes: &[u8], codec: Codec) -> (outcome: Result<Vec<u8>, CatalogError>)
    ensures
        match outcome {
            Ok(data) => unpacked(codec, bytes@) == Some(data@),
            Err(e) => unpacked(codec, bytes@) is None && e == CatalogError::CodecFailure,
        },
        forall|data: Seq<u8>|
            unpacked(codec, bytes@) == Some(data) ==> outcome is Ok && outcome->Ok_0@ == data,
{
    match codec {
        Codec::Stored => Ok(slice_to_vec(bytes)),
        Codec::Gzip => codec_outcome(gzip_decode(bytes)),
        Codec::Lz4 => {
            if bytes.len() <= LZ4_MAX_PACKED {
                codec_outcome(lz4_decode(bytes))
            } else {
                Err(CatalogError::CodecFailure)
            }
        },
    }
}

} // verus!
