//! The deprecated LZ transforms.

use ozlrip::fastlz::decode_fastlz_deprecated_node;
use ozlrip::rolz::decode_rolz_deprecated_node;
use ozlrip::rolz_table::rolz_deprecated_context;
use ozlrip::stream::StreamInput;
use ozlrip::{ErrorKind, Limits};

fn stream(bytes: &[u8]) -> StreamInput<'_> {
    StreamInput { bytes, element_width: 1, string_lengths: None }
}

fn fastlz_stream(decoded_size: u32, offset: u8) -> Vec<u8> {
    let mut source = decoded_size.to_le_bytes().to_vec();
    source.extend_from_slice(&[128 | (1 << 3) | 3, 1]);
    source.extend_from_slice(b"abcdefghijklmnop!");
    source.extend_from_slice(&[(1 << 3) | 3, 1, 0]);
    source.extend_from_slice(&[1, offset]);
    source.extend_from_slice(&[2, 16, 4]);
    source
}

fn value_list(bits: &[u8], states: [&[u8]; 6]) -> Vec<u8> {
    let mut list = u32::try_from(bits.len()).unwrap().to_le_bytes().to_vec();
    let mut total = 0u32;
    for codes in states {
        total += u32::try_from(codes.len()).unwrap();
        list.extend_from_slice(&total.to_le_bytes());
    }
    list.extend_from_slice(bits);
    for codes in states {
        list.push(u8::try_from(codes.len() << 3).unwrap() | 3);
        list.extend_from_slice(codes);
    }
    list
}

fn rolz_header(decoded_size: u32, literals: u32, sequences: u32) -> Vec<u8> {
    let mut source = decoded_size.to_le_bytes().to_vec();
    source.extend_from_slice(&[2, 12, 4, 3, 1, 7, 3]);
    source.extend_from_slice(&literals.to_le_bytes());
    source.extend_from_slice(&sequences.to_le_bytes());
    source
}

#[test]
fn fastlz_copies_literals_a_match_and_the_rest() {
    let source = fastlz_stream(21, 16);
    let output = decode_fastlz_deprecated_node(stream(&source), &[], Limits::default()).unwrap();
    assert_eq!(output, b"abcdefghijklmnopabcd!");
}

#[test]
fn fastlz_output_has_the_declared_size() {
    let source = fastlz_stream(22, 16);
    let err = decode_fastlz_deprecated_node(stream(&source), &[], Limits::default()).unwrap_err();
    assert_eq!(err.detail(), Some("fastlz_deprecated output size does not match prefix"));
}

#[test]
fn fastlz_rejects_small_and_far_offsets() {
    let source = fastlz_stream(21, 15);
    let err = decode_fastlz_deprecated_node(stream(&source), &[], Limits::default()).unwrap_err();
    assert_eq!(err.detail(), Some("fastlz_deprecated offset is too small"));
    let source = fastlz_stream(21, 17);
    let err = decode_fastlz_deprecated_node(stream(&source), &[], Limits::default()).unwrap_err();
    assert_eq!(err.detail(), Some("fastlz_deprecated offset exceeds decoded prefix"));
}

#[test]
fn rolz_copies_an_explicit_match() {
    let mut source = rolz_header(13, 5, 1);
    source.extend_from_slice(&[0, (5 << 3) | 3]);
    source.extend_from_slice(b"abcd!");
    source.extend_from_slice(&[(1 << 3) | 3, 0]);
    source.extend_from_slice(&value_list(&[1], [&[4], &[], &[], &[], &[], &[]]));
    source.extend_from_slice(&value_list(&[1], [&[1], &[], &[], &[], &[], &[]]));
    source.extend_from_slice(&value_list(&[1], [&[4], &[], &[], &[], &[], &[]]));
    let output = decode_rolz_deprecated_node(stream(&source), &[], Limits::default()).unwrap();
    assert_eq!(output, b"abcdabcdabcd!");
}

#[test]
fn rolz_recalls_a_position_by_its_context() {
    let mut source = rolz_header(8, 5, 1);
    source.extend_from_slice(&[0, (5 << 3) | 3]);
    source.extend_from_slice(b"abXab");
    source.extend_from_slice(&[(1 << 3) | 3, 1]);
    source.extend_from_slice(&value_list(&[1], [&[], &[5], &[], &[], &[], &[]]));
    source.extend_from_slice(&value_list(&[1], [&[], &[0], &[], &[], &[], &[]]));
    source.extend_from_slice(&value_list(&[1], [&[], &[0], &[], &[], &[], &[]]));
    let output = decode_rolz_deprecated_node(stream(&source), &[], Limits::default()).unwrap();
    assert_eq!(output, b"abXabXab");
}

#[test]
fn rolz_reads_long_values_bit_by_bit() {
    let literals: Vec<u8> = (0..33).collect();
    let mut source = rolz_header(40, 33, 1);
    source.extend_from_slice(&[0, 128 | (1 << 3) | 3, 2]);
    source.extend_from_slice(&literals);
    source.extend_from_slice(&[(1 << 3) | 3, 0]);
    source.extend_from_slice(&value_list(&[0b10_0001], [&[32], &[], &[], &[], &[], &[]]));
    source.extend_from_slice(&value_list(&[1], [&[0], &[], &[], &[], &[], &[]]));
    source.extend_from_slice(&value_list(&[1], [&[10], &[], &[], &[], &[], &[]]));
    let output = decode_rolz_deprecated_node(stream(&source), &[], Limits::default()).unwrap();
    assert_eq!(output.len(), 40);
    assert_eq!(&output[..33], literals.as_slice());
    assert_eq!(&output[33..], [23, 24, 25, 26, 27, 28, 29]);
}

#[test]
fn rolz_takes_literals_by_the_byte_in_front() {
    let mut source = rolz_header(3, 3, 0);
    source.extend_from_slice(&[1, 1, 0, 1]);
    source.extend_from_slice(&1u32.to_le_bytes());
    source.extend_from_slice(&[(1 << 3) | 3, 1]);
    source.extend_from_slice(&2u32.to_le_bytes());
    source.extend_from_slice(&[(2 << 3) | 3, 1, 0]);
    source.push(3);
    let output = decode_rolz_deprecated_node(stream(&source), &[], Limits::default()).unwrap();
    assert_eq!(output, [1, 1, 0]);
}

#[test]
fn rolz_rejects_other_parameters() {
    let mut source = rolz_header(0, 0, 0);
    source[5] = 13;
    let err = decode_rolz_deprecated_node(stream(&source), &[], Limits::default()).unwrap_err();
    assert_eq!(err.kind(), ErrorKind::Unsupported);
}

#[test]
fn rolz_context_needs_two_bytes() {
    assert!(rolz_deprecated_context(b"a", 1).is_err());
    let context = rolz_deprecated_context(b"ab", 2).unwrap();
    assert!(context < 4096);
    assert_eq!(context, rolz_deprecated_context(b"xxab", 4).unwrap());
}
