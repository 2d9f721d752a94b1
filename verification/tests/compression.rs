use altered_catalog::compression::{
    codec_outcome, compress, compress_with_gzip, compress_with_lz4, decompress, Codec,
    LZ4_MAX_PACKED,
};
use altered_catalog::error::CatalogError;
use std::io::Read;

fn large_buffer() -> Vec<u8> {
    let mut data = Vec::with_capacity(1_200_000);
    let mut state: u32 = 12345;
    for i in 0..1_200_000u32 {
        state = state.wrapping_mul(1_664_525).wrapping_add(1_013_904_223);
        data.push(if i % 3 == 0 { (state >> 24) as u8 } else { (i % 251) as u8 });
    }
    data
}

fn round_trip(data: &[u8], codec: Codec) {
    let packed = compress(data, codec).unwrap();
    let unpacked = decompress(&packed, codec).unwrap();
    assert_eq!(unpacked, data);
}

#[test]
fn an_empty_buffer_survives_every_codec() {
    for codec in [Codec::Stored, Codec::Gzip, Codec::Lz4] {
        round_trip(&[], codec);
    }
}

#[test]
fn a_single_byte_survives_every_codec() {
    for codec in [Codec::Stored, Codec::Gzip, Codec::Lz4] {
        round_trip(&[0], codec);
        round_trip(&[0xFF], codec);
    }
}

#[test]
fn a_large_buffer_survives_every_codec() {
    let data = large_buffer();
    assert!(data.len() > 1 << 20);
    for codec in [Codec::Stored, Codec::Gzip, Codec::Lz4] {
        round_trip(&data, codec);
    }
}

#[test]
fn stored_bytes_are_the_bytes() {
    let data = b"as it is".to_vec();
    assert_eq!(compress(&data, Codec::Stored), Ok(data.clone()));
    assert_eq!(decompress(&data, Codec::Stored), Ok(data));
}

#[test]
fn gzip_output_is_a_gzip_member() {
    let data = vec![b'a'; 10_000];
    let packed = compress_with_gzip(&data).unwrap();
    assert_eq!(&packed[..3], &[0x1F, 0x8B, 8]);
    assert!(packed.len() < 200);
    assert_ne!(packed, data);
    let mut decoded = Vec::new();
    flate2::read::GzDecoder::new(&packed[..]).read_to_end(&mut decoded).unwrap();
    assert_eq!(decoded, data);
    assert_eq!(compress(&data, Codec::Gzip).unwrap(), packed);
}

#[test]
fn lz4_output_starts_with_the_length() {
    let data = vec![b'a'; 10_000];
    let packed = compress_with_lz4(&data).unwrap();
    assert_eq!(&packed[..4], &10_000u32.to_le_bytes());
    assert!(packed.len() < 200);
    assert_ne!(packed, data);
    assert_eq!(lz4_flex::decompress_size_prepended(&packed).unwrap(), data);
    assert_eq!(compress(&data, Codec::Lz4).unwrap(), packed);
}

#[test]
fn damaged_bytes_are_a_codec_failure() {
    assert_eq!(decompress(b"not gzip at all", Codec::Gzip), Err(CatalogError::CodecFailure));
    assert_eq!(decompress(&[], Codec::Gzip), Err(CatalogError::CodecFailure));
    assert_eq!(decompress(&[1, 2], Codec::Lz4), Err(CatalogError::CodecFailure));
    assert_eq!(
        decompress(&[4, 0, 0, 0, 0xF0, 1, 2], Codec::Lz4),
        Err(CatalogError::CodecFailure)
    );
    let mut packed = compress_with_gzip(b"some data to protect, some data to protect").unwrap();
    let last = packed.len() - 5;
    packed[last] ^= 0x55;
    assert_eq!(decompress(&packed, Codec::Gzip), Err(CatalogError::CodecFailure));
    packed.truncate(12);
    assert_eq!(decompress(&packed, Codec::Gzip), Err(CatalogError::CodecFailure));
}

#[test]
fn packed_bytes_too_long_for_lz4_are_not_unpacked() {
    let too_long = vec![0u8; LZ4_MAX_PACKED + 1];
    assert_eq!(decompress(&too_long, Codec::Lz4), Err(CatalogError::CodecFailure));
}

#[test]
fn lz4_packs_data_of_any_accepted_length() {
    // data that do not shrink, long enough for a packed form beyond what
    // `decompress` hands to the decoder
    let mut data = Vec::with_capacity(LZ4_MAX_PACKED + 1000);
    let mut state: u64 = 0x9E37_79B9_7F4A_7C15;
    while data.len() < LZ4_MAX_PACKED + 1000 {
        state ^= state << 13;
        state ^= state >> 7;
        state ^= state << 17;
        data.extend_from_slice(&state.to_le_bytes());
    }
    let packed = compress_with_lz4(&data).unwrap();
    assert!(packed.len() > LZ4_MAX_PACKED);
    assert!(packed.len() <= 24 + data.len() * 110 / 100);
    assert_eq!(lz4_flex::decompress_size_prepended(&packed).unwrap(), data);
    assert_eq!(compress(&data, Codec::Lz4), Ok(packed.clone()));
    assert_eq!(decompress(&packed, Codec::Lz4), Err(CatalogError::CodecFailure));
}

#[test]
fn a_codec_without_bytes_is_a_failure() {
    assert_eq!(codec_outcome(None), Err(CatalogError::CodecFailure));
    assert_eq!(codec_outcome(Some(vec![1, 2, 3])), Ok(vec![1, 2, 3]));
    assert_eq!(codec_outcome(Some(vec![])), Ok(vec![]));
}

#[test]
fn gzip_gives_the_same_member_for_the_same_data() {
    let data = large_buffer();
    let first = compress_with_gzip(&data).unwrap();
    let second = compress_with_gzip(&data).unwrap();
    assert_eq!(first, second);
    // no name, no time, and no operating system in the header
    assert_eq!(&first[..10], &[0x1F, 0x8B, 8, 0, 0, 0, 0, 0, 2, 255]);
    assert_eq!(compress_with_gzip(&[]).unwrap()[..10], first[..10]);
}

#[test]
fn lz4_packs_within_the_room_it_sets_aside() {
    for data in [Vec::new(), vec![7u8], large_buffer()] {
        let packed = compress_with_lz4(&data).unwrap();
        assert!(packed.len() <= 24 + data.len() * 110 / 100);
        assert!(packed.len() <= LZ4_MAX_PACKED);
    }
}
