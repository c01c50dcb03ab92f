//! What holds of every input, on some of them.

use ozlrip::bytes::read_var_u64;
use ozlrip::conversions::{
    decode_big_endian_numeric_conversion, decode_serial_to_struct_chunk,
    decode_struct_to_num_be_chunk,
};
use ozlrip::dict::{DictionaryStore, BUNDLE_INFO_MAGIC, FAT_BUNDLE_FLAG, PACKED_DICT_MAGIC};
use ozlrip::field_lz::decode_to_output;
use ozlrip::lz::{decode_lz_node, decode_lz_node_to_output};
use ozlrip::numeric::decode_zigzag_numeric_chunk;
use ozlrip::scratch::{find_fitting_buffer, DecodeScratch};
use ozlrip::standard::{self, min_version, validate_transform_id};
use ozlrip::stream::{read_numeric_element, StreamInput};
use ozlrip::strings::{decode_separate_string_components_node, decode_string_to_serial_node};
use ozlrip::{ErrorKind, Limits};
use zrip_core::dict::DICT_MAGIC;
use zrip_core::fse::table_builder::serialize_fse_table_description;

fn stream(bytes: &[u8], element_width: usize) -> StreamInput<'_> {
    StreamInput { bytes, element_width, string_lengths: None }
}

fn zstd_dictionary(content: &[u8]) -> Vec<u8> {
    let mut dict = Vec::new();
    dict.extend_from_slice(&DICT_MAGIC.to_le_bytes());
    dict.extend_from_slice(&1u32.to_le_bytes());
    dict.push(128);
    dict.push(0x10);
    for (symbols, log) in [(32usize, 8u8), (53, 6), (36, 6)] {
        let mut counts = vec![0i16; symbols];
        counts[0] = 1 << log;
        dict.extend_from_slice(&serialize_fse_table_description(&counts, log));
    }
    for offset in [1u32, 4, 8] {
        dict.extend_from_slice(&offset.to_le_bytes());
    }
    dict.extend_from_slice(content);
    dict
}

fn bundle(id: u8, dictionaries: &[Vec<u8>]) -> Vec<u8> {
    let mut bytes = BUNDLE_INFO_MAGIC.to_le_bytes().to_vec();
    bytes.extend_from_slice(&[id; 32]);
    bytes.push(FAT_BUNDLE_FLAG);
    bytes.extend_from_slice(&u32::try_from(dictionaries.len()).unwrap().to_le_bytes());
    for index in 0..dictionaries.len() {
        bytes.extend_from_slice(&[u8::try_from(index).unwrap(); 32]);
    }
    for (index, dictionary) in dictionaries.iter().enumerate() {
        bytes.extend_from_slice(&PACKED_DICT_MAGIC.to_le_bytes());
        bytes.extend_from_slice(&[u8::try_from(index).unwrap(); 32]);
        bytes.extend_from_slice(&standard::ZSTD_ID.to_le_bytes());
        bytes.push(0);
        bytes.extend_from_slice(&u32::try_from(dictionary.len() + 8).unwrap().to_le_bytes());
        bytes.extend_from_slice(&1u32.to_le_bytes());
        bytes.extend_from_slice(&1i32.to_le_bytes());
        bytes.extend_from_slice(dictionary);
    }
    bytes
}

#[test]
fn a_loaded_dictionary_is_found_until_the_store_is_cleared() {
    let first = zstd_dictionary(b"content of the first dictionary");
    let second = zstd_dictionary(b"content of the second dictionary");
    let mut store = DictionaryStore::new();
    store.load_fat_bundle(&bundle(7, &[first.clone(), second.clone()])).unwrap();
    assert_eq!(store.zstd_dict(&[7; 32], 0).unwrap(), first.as_slice());
    assert_eq!(store.zstd_dict(&[7; 32], 1).unwrap(), second.as_slice());
    assert_eq!(store.zstd_dict(&[7; 32], 2).unwrap_err().kind(), ErrorKind::Unsupported);
    assert_eq!(store.zstd_dict(&[7; 31], 0).unwrap_err().kind(), ErrorKind::Malformed);
    store.clear();
    assert_eq!(store.zstd_dict(&[7; 32], 0).unwrap_err().kind(), ErrorKind::Unsupported);
}

#[test]
fn a_bundle_takes_the_place_of_its_namesake_only() {
    let first = zstd_dictionary(b"content of the first dictionary");
    let second = zstd_dictionary(b"content of the second dictionary");
    let mut store = DictionaryStore::new();
    store.load_fat_bundle(&bundle(7, &[first.clone()])).unwrap();
    store.load_fat_bundle(&bundle(8, &[second.clone()])).unwrap();
    store.load_fat_bundle(&bundle(7, &[second.clone()])).unwrap();
    assert_eq!(store.zstd_dict(&[7; 32], 0).unwrap(), second.as_slice());
    assert_eq!(store.zstd_dict(&[8; 32], 0).unwrap(), second.as_slice());
    assert!(store.load_fat_bundle(&bundle(8, &[b"no dictionary".to_vec()])).is_err());
    assert_eq!(store.zstd_dict(&[8; 32], 0).unwrap(), second.as_slice());
}

#[test]
fn a_transform_stays_available() {
    for id in 0..80 {
        if let Some(version) = min_version(id) {
            for later in version..30 {
                assert!(validate_transform_id(id, later).is_ok());
            }
            if version > 0 {
                assert!(validate_transform_id(id, version - 1).is_err());
            }
        } else {
            assert!(validate_transform_id(id, 29).is_err());
        }
    }
}

#[test]
fn swapping_bytes_twice_changes_nothing() {
    let bytes = [1, 2, 3, 4, 5, 6, 7, 8];
    for width in [1, 2, 4, 8] {
        let once = decode_struct_to_num_be_chunk(stream(&bytes, width), &[], Limits::default())
            .unwrap();
        let twice =
            decode_struct_to_num_be_chunk(stream(&once.bytes, width), &[], Limits::default())
                .unwrap();
        assert_eq!(twice.bytes, bytes);
        let converted =
            decode_big_endian_numeric_conversion(stream(&bytes, 1), width, Limits::default())
                .unwrap();
        assert_eq!(converted.bytes, once.bytes);
        assert_eq!(converted.element_width, width);
    }
}

#[test]
fn a_conversion_keeps_the_bytes() {
    let output =
        decode_serial_to_struct_chunk(stream(&[1, 2, 3, 4, 5, 6], 1), &[3], Limits::default())
            .unwrap();
    assert_eq!(output.bytes, [1, 2, 3, 4, 5, 6]);
    assert_eq!(output.element_width, 3);
}

#[test]
fn an_lz_node_gives_as_many_bytes_as_it_declares() {
    let inputs = [stream(b"ab", 1), stream(&[1, 0], 2), stream(&[1, 0], 2), stream(&[3, 0], 2)];
    assert_eq!(decode_lz_node(&inputs, &[5], Limits::default()).unwrap(), b"aaaab");
    for declared in [4u8, 6] {
        let err = decode_lz_node(&inputs, &[declared], Limits::default()).unwrap_err();
        assert_eq!(err.detail(), Some("lz output size does not match header"));
    }
}

#[test]
fn a_field_lz_node_stays_within_what_it_declares() {
    let mut output = Vec::with_capacity(8);
    decode_to_output(b"abc", &[], &[], &[], &[], 1, 8, &mut output, 0).unwrap();
    assert_eq!(output, b"abc");
    let mut output = b"kept".to_vec();
    output.reserve_exact(2);
    let err = decode_to_output(b"abc", &[], &[], &[], &[], 1, 2, &mut output, 4).unwrap_err();
    assert_eq!(err.kind(), ErrorKind::Malformed);
    assert_eq!(output, b"kept");
}

#[test]
fn separated_strings_serialize_to_their_content() {
    let strings = decode_separate_string_components_node(
        &[stream(b"onetwo", 1), stream(&[3, 0, 3], 1)],
        &[],
        Limits::default(),
    )
    .unwrap();
    assert_eq!(strings.string_lengths.as_deref(), Some([3, 0, 3].as_slice()));
    let lengths = strings.string_lengths.unwrap();
    let bytes = decode_string_to_serial_node(
        StreamInput { bytes: &strings.bytes, element_width: 1, string_lengths: Some(&lengths) },
        &[],
        Limits::default(),
    )
    .unwrap();
    assert_eq!(bytes, b"onetwo");
}

#[test]
fn every_chunk_has_the_checksum_it_states() {
    let mut input = (0xd7b1_a5c0u32 + 21).to_le_bytes().to_vec();
    input.extend_from_slice(&[1, 1, 6]);
    let mut ends = Vec::new();
    for chunk in [b"abc".as_slice(), b"de"] {
        input.extend_from_slice(&[1, 1, u8::try_from(chunk.len()).unwrap()]);
        input.extend_from_slice(chunk);
        let checksum = (xxhash_rust::xxh3::xxh3_64(chunk) & 0xffff_ffff) as u32;
        input.extend_from_slice(&checksum.to_le_bytes());
        ends.push(input.len());
    }
    input.push(0);
    assert_eq!(ozlrip::decode(&input).unwrap(), b"abcde");
    for end in ends {
        let mut broken = input.clone();
        broken[end - 1] ^= 1;
        let mut dst = b"kept".to_vec();
        let err = ozlrip::decode_into(&broken, &mut dst).unwrap_err();
        assert_eq!(err.kind(), ErrorKind::ChecksumMismatch);
        assert_eq!(dst, b"kept");
    }
}

#[test]
fn integers_read_back_as_they_were_written() {
    for value in [0u32, 1, 255, 256, 0x1234_5678, u32::MAX] {
        assert_eq!(read_numeric_element(&value.to_le_bytes(), 4, 0).unwrap(), u64::from(value));
    }
    let bytes = [0xff, 0x00, 0x01, 0x80];
    assert_eq!(read_numeric_element(&bytes, 2, 0).unwrap(), 0x00ff);
    assert_eq!(read_numeric_element(&bytes, 2, 1).unwrap(), 0x8001);
}

#[test]
fn zigzag_undoes_its_code() {
    for value in [0i16, -1, 1, -2, 300, i16::MAX, i16::MIN] {
        let code = ((value << 1) ^ (value >> 15)).to_le_bytes();
        let output =
            decode_zigzag_numeric_chunk(stream(&code, 2), &[], Limits::default()).unwrap();
        assert_eq!(output.bytes, value.to_le_bytes());
    }
}

#[test]
fn an_lz_match_repeats_what_lies_its_offset_back() {
    let inputs = [stream(b"abc", 1), stream(&[3, 0], 2), stream(&[3, 0], 2), stream(&[8, 0], 2)];
    let output = decode_lz_node(&inputs, &[11], Limits::default()).unwrap();
    assert_eq!(output, b"abcabcabcab");
    for index in 3..output.len() {
        assert_eq!(output[index], output[index - 3]);
    }
}

#[test]
fn a_bundle_is_read_exactly_to_its_end() {
    let first = zstd_dictionary(b"content of the first dictionary");
    let second = zstd_dictionary(b"content of the second dictionary");
    let bytes = bundle(7, &[first, second]);
    let mut store = DictionaryStore::new();
    for len in 0..bytes.len() {
        let err = store.load_fat_bundle(&bytes[..len]).unwrap_err();
        assert_eq!(err.kind(), ErrorKind::Truncated);
    }
    for more in [0u8, 1, 255] {
        let mut longer = bytes.clone();
        longer.push(more);
        let err = store.load_fat_bundle(&longer).unwrap_err();
        assert_eq!(err.kind(), ErrorKind::Malformed);
        assert_eq!(err.detail(), Some("trailing bytes after dictionary bundle"));
    }
    assert!(store.zstd_dict(&[7; 32], 0).is_err());
    store.load_fat_bundle(&bytes).unwrap();
    assert!(store.zstd_dict(&[7; 32], 1).is_ok());
}

#[test]
fn an_error_is_the_same_behind_any_buffer() {
    let inputs = [stream(b"ab", 1), stream(&[9, 0], 2), stream(&[1, 0], 2), stream(&[3, 0], 2)];
    for front in [0usize, 1, 1000] {
        let mut output = vec![b'.'; front];
        let err =
            decode_lz_node_to_output(&inputs, &[5], Limits::default(), &mut output, front)
                .unwrap_err();
        assert_eq!(err.kind(), ErrorKind::Malformed);
        assert_eq!(err.detail(), Some("lz offset exceeds decoded prefix"));
        assert_eq!(output[..front], vec![b'.'; front]);
        assert_eq!(&output[front..], b"a");
    }
}

#[test]
fn narrow_sequences_are_checked_before_anything_is_written() {
    let inputs = [stream(b"ab", 1), stream(&[9], 1), stream(&[1, 0], 2), stream(&[3, 0], 2)];
    let mut output = b"kept".to_vec();
    let err = decode_lz_node_to_output(&inputs, &[5], Limits::default(), &mut output, 4)
        .unwrap_err();
    assert_eq!(err.detail(), Some("lz offset exceeds decoded prefix"));
    assert_eq!(output, b"kept");
}

#[test]
fn a_length_that_no_longer_fits_behind_a_buffer_overflows() {
    let length = u64::MAX.to_le_bytes();
    let inputs = [stream(b"ab", 1), stream(&[1], 1), stream(&length, 8), stream(&[3], 1)];
    let mut output = Vec::new();
    let err = decode_lz_node_to_output(&inputs, &[5], Limits::default(), &mut output, 0)
        .unwrap_err();
    assert_eq!(err.kind(), ErrorKind::Malformed);
    let mut output = vec![b'.'];
    let err = decode_lz_node_to_output(&inputs, &[5], Limits::default(), &mut output, 1)
        .unwrap_err();
    assert_eq!(err.kind(), ErrorKind::IntegerOverflow);
    assert_eq!(output, b".");
}

#[test]
fn a_variable_length_integer_behind_the_input_is_truncated() {
    let mut offset = 1;
    assert_eq!(read_var_u64(&[0xff, 0xac, 0x02], &mut offset).unwrap(), 300);
    assert_eq!(offset, 3);
    for start in [3usize, 4, usize::MAX] {
        let mut offset = start;
        let err = read_var_u64(&[0xff, 0xac, 0x02], &mut offset).unwrap_err();
        assert_eq!(err.kind(), ErrorKind::Truncated);
        assert_eq!(err.offset(), Some(start));
        assert_eq!(offset, start);
    }
}

#[test]
fn the_first_buffer_that_fits_is_found() {
    assert_eq!(find_fitting_buffer(&[4, 16, 8, 16], 8), Some(1));
    assert_eq!(find_fitting_buffer(&[4, 16, 8, 16], 0), Some(0));
    assert_eq!(find_fitting_buffer(&[4, 16, 8, 16], 17), None);
    assert_eq!(find_fitting_buffer(&[], 0), None);
}

#[test]
fn a_pooled_buffer_comes_back_empty() {
    let mut scratch = DecodeScratch::new();
    let mut buffer = scratch.take_byte_buffer(100);
    assert!(buffer.is_empty());
    assert!(buffer.capacity() >= 100);
    buffer.extend_from_slice(b"left over");
    scratch.recycle_byte_buffer(buffer);
    let larger = scratch.take_byte_buffer(100_000);
    assert!(larger.is_empty());
    assert!(larger.capacity() >= 100_000);
    let again = scratch.take_byte_buffer(100);
    assert!(again.is_empty());
    assert!(again.capacity() >= 100);
}
