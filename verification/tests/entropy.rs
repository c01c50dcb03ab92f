//! Entropy coded transforms.

use ozlrip::fse::{decode_fse_v2_node, lay_out_counts, validate_fse_distribution};
use ozlrip::huffman::{
    build_complete_huffman_decode_table, build_large_huffman_decode_table,
    decode_huffman_struct_v2_node, decode_huffman_v2_node, finish_huffman,
};
use ozlrip::stream::StreamInput;
use ozlrip::{ErrorKind, Limits};

fn stream(bytes: &[u8], element_width: usize) -> StreamInput<'_> {
    StreamInput { bytes, element_width, string_lengths: None }
}

#[test]
fn fse_v2_decodes_two_states() {
    // Two symbols of sixteen cells each: the states 5 and 16 lead to 7 and 14.
    let counts = [16, 0, 16, 0];
    let output = decode_fse_v2_node(
        &[stream(&counts, 2), stream(&[0xc2, 0x12], 1)],
        &[2, 4],
        Limits::default(),
    )
    .unwrap();
    assert_eq!(output, [0, 1, 1, 0]);
}

#[test]
fn fse_v2_rejects_trailing_bits() {
    let counts = [16, 0, 16, 0];
    let err = decode_fse_v2_node(
        &[stream(&counts, 2), stream(&[0xc2, 0x22], 1)],
        &[2, 4],
        Limits::default(),
    )
    .unwrap_err();
    assert_eq!(err.kind(), ErrorKind::Malformed);
    assert_eq!(err.detail(), Some("fse_v2 input has trailing bits"));
}

#[test]
fn fse_v2_rejects_fewer_symbols_than_states() {
    let counts = [16, 0, 16, 0];
    let err = decode_fse_v2_node(
        &[stream(&counts, 2), stream(&[0xc2, 0x12], 1)],
        &[4, 3],
        Limits::default(),
    )
    .unwrap_err();
    assert_eq!(err.kind(), ErrorKind::Malformed);
}

#[test]
fn fse_distribution_has_a_power_of_two_as_sum() {
    assert_eq!(validate_fse_distribution(&[16, 16]).unwrap(), 5);
    assert_eq!(validate_fse_distribution(&[31, -1]).unwrap(), 5);
    let err = validate_fse_distribution(&[16, 15]).unwrap_err();
    assert_eq!(err.detail(), Some("fse_v2 normalized count sum is invalid"));
    let err = validate_fse_distribution(&[16, -2]).unwrap_err();
    assert_eq!(err.detail(), Some("fse_v2 normalized count is invalid"));
    assert!(validate_fse_distribution(&[8, 8]).is_err());
}

#[test]
fn fse_counts_are_laid_out_as_16_bit_integers() {
    let output = lay_out_counts(Ok((vec![3, -1], 2)), 2, Limits::default()).unwrap();
    assert_eq!(output.bytes, [3, 0, 0xff, 0xff]);
    assert_eq!(output.element_width, 2);
    let err = lay_out_counts(Ok((vec![3, -1], 2)), 3, Limits::default()).unwrap_err();
    assert_eq!(err.kind(), ErrorKind::Malformed);
}

#[test]
fn huffman_table_gives_short_codes_the_most_cells() {
    let (table, log) = build_complete_huffman_decode_table(&[2, 1, 1]).unwrap();
    assert_eq!(log, 2);
    assert_eq!(table, [(1, 2), (2, 2), (0, 1), (0, 1)]);
    let (table, log) = build_large_huffman_decode_table(&[2, 1, 1]).unwrap();
    assert_eq!(log, 2);
    assert_eq!(table, [(1, 2), (2, 2), (0, 1), (0, 1)]);
}

#[test]
fn huffman_table_rejects_weights_that_leave_cells_empty() {
    let err = build_complete_huffman_decode_table(&[2, 1]).unwrap_err();
    assert_eq!(err.kind(), ErrorKind::Malformed);
}

#[test]
fn huffman_v2_decodes_one_stream() {
    let output = decode_huffman_v2_node(
        &[stream(&[2, 1, 1], 1), stream(&[0b0110_0011], 1)],
        &[0, 4],
        Limits::default(),
    )
    .unwrap();
    assert_eq!(output, [0, 1, 2, 0]);
}

#[test]
fn huffman_v2_decodes_four_streams() {
    let output = decode_huffman_v2_node(
        &[stream(&[2, 1, 1], 1), stream(&[1, 0, 1, 0, 1, 0, 3, 4, 5, 3], 1)],
        &[1, 4],
        Limits::default(),
    )
    .unwrap();
    assert_eq!(output, [0, 1, 2, 0]);
}

#[test]
fn huffman_v2_obeys_output_limit() {
    let limits = Limits { max_decoded_bytes: 3, ..Limits::default() };
    let err = decode_huffman_v2_node(
        &[stream(&[2, 1, 1], 1), stream(&[0b0110_0011], 1)],
        &[0, 4],
        limits,
    )
    .unwrap_err();
    assert_eq!(err.kind(), ErrorKind::LimitExceeded);
}

#[test]
fn huffman_v2_streams_hold_exactly_the_stated_bytes() {
    let weights = [2, 1, 1];
    for (bits, count) in [(vec![0b0110_0011u8], 3u8), (vec![0b0110_0011], 5), (vec![0], 4)] {
        let err = decode_huffman_v2_node(
            &[stream(&weights, 1), stream(&bits, 1)],
            &[0, count],
            Limits::default(),
        )
        .unwrap_err();
        assert_eq!(err.kind(), ErrorKind::Malformed);
        assert_eq!(err.detail(), Some("corrupt Huffman stream"));
    }
    let output = decode_huffman_v2_node(
        &[stream(&weights, 1), stream(&[0b0100_0111, 0b0000_0001], 1)],
        &[0, 5],
        Limits::default(),
    )
    .unwrap();
    assert_eq!(output, [2, 1, 2, 0, 0]);
}

#[test]
fn huffman_v2_four_streams_split_the_bytes_in_quarters() {
    let weights = [2, 1, 1];
    let sizes = [1u8, 0, 1, 0, 1, 0];
    let mut bits = sizes.to_vec();
    bits.extend_from_slice(&[0b0000_0111, 0b0001_0001, 0b0000_1100, 0b0000_0011]);
    let output = decode_huffman_v2_node(
        &[stream(&weights, 1), stream(&bits, 1)],
        &[1, 7],
        Limits::default(),
    )
    .unwrap();
    assert_eq!(output, [0, 0, 1, 2, 0, 1, 0]);
    for (len, count) in [(5usize, 7u8), (8, 7), (10, 6), (10, 8), (10, 9)] {
        let err = decode_huffman_v2_node(
            &[stream(&weights, 1), stream(&bits[..len], 1)],
            &[1, count],
            Limits::default(),
        )
        .unwrap_err();
        assert_eq!(err.detail(), Some("corrupt Huffman stream"));
    }
}

#[test]
fn huffman_failure_keeps_its_text() {
    assert_eq!(finish_huffman(Ok(vec![1, 2])).unwrap(), [1, 2]);
    let err = finish_huffman(Err("no marker".to_string())).unwrap_err();
    assert_eq!(err.kind(), ErrorKind::Malformed);
    assert_eq!(err.detail(), Some("no marker"));
}

#[test]
fn huffman_struct_v2_decodes_wide_symbols() {
    let bits = [4, 0, 0, 0, 1, 0, 0, 0, 0b0110_0011];
    let output = decode_huffman_struct_v2_node(
        &[stream(&[2, 1, 1], 1), stream(&bits, 1)],
        &[0, 4],
        Limits::default(),
    )
    .unwrap();
    assert_eq!(output.element_width, 2);
    assert_eq!(output.bytes, [0, 0, 1, 0, 2, 0, 0, 0]);
}

#[test]
fn huffman_struct_v2_checks_the_stated_sizes() {
    let bits = [3, 0, 0, 0, 1, 0, 0, 0, 0b0110_0011];
    let err = decode_huffman_struct_v2_node(
        &[stream(&[2, 1, 1], 1), stream(&bits, 1)],
        &[0, 4],
        Limits::default(),
    )
    .unwrap_err();
    assert_eq!(err.kind(), ErrorKind::Malformed);
}
