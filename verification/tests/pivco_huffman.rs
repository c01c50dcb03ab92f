//! Pivoted Huffman trees.

use ozlrip::pivco_huffman::decode_pivco_huffman_node;
use ozlrip::stream::StreamInput;
use ozlrip::{Error, ErrorKind, Limits};

fn stream(bytes: &[u8]) -> StreamInput<'_> {
    StreamInput {
        bytes,
        element_width: 1,
        string_lengths: None,
    }
}

fn header(decoded_size: usize, block_size: Option<usize>) -> Vec<u8> {
    let mut header = Vec::new();
    push_var_u64(&mut header, u64::try_from(decoded_size).unwrap());
    if let Some(block_size) = block_size {
        push_var_u64(&mut header, u64::try_from(block_size).unwrap());
    }
    header
}

fn decode(weights: &[u8], bitstream: &[u8], header: &[u8]) -> Result<Vec<u8>, Error> {
    decode_pivco_huffman_node(
        &[stream(weights), stream(bitstream)],
        header,
        Limits::default(),
    )
}

fn push_var_u64(out: &mut Vec<u8>, mut value: u64) {
    while value >= 0x80 {
        out.push(u8::try_from(value & 0x7f).unwrap() | 0x80);
        value >>= 7;
    }
    out.push(u8::try_from(value).unwrap());
}

#[test]
fn decodes_empty_payload() {
    let output = decode(&[], &[], &header(0, None)).unwrap();

    assert!(output.is_empty());
}

#[test]
fn decodes_constant_tree() {
    let mut weights = vec![0; 66];
    weights[65] = 1;

    let output = decode(&weights, &[], &header(4, None)).unwrap();

    assert_eq!(output, b"AAAA");
}

#[test]
fn decodes_two_constant_children_from_partition_bitmap() {
    let weights = [1, 1];

    let output = decode(&weights, &[0b0000_0010], &header(3, None)).unwrap();

    assert_eq!(output, [0, 1, 0]);
}

#[test]
fn decodes_flat_leaf() {
    let weights = [1, 1, 1, 1];

    let output = decode(&weights, &[0xe4], &header(4, None)).unwrap();

    assert_eq!(output, [0, 1, 2, 3]);
}

#[test]
fn decodes_internal_node_with_count_and_alignment() {
    let weights = [2, 1, 1];

    let output = decode(&weights, &[0x26, 0x02], &header(4, None)).unwrap();

    assert_eq!(output, [0, 1, 2, 0]);
}

#[test]
fn decodes_multiple_blocks() {
    let weights = [1, 1];

    let output = decode(&weights, &[0x02, 0x01], &header(4, Some(2))).unwrap();

    assert_eq!(output, [0, 1, 1, 0]);
}

#[test]
fn rejects_count_that_disagrees_with_bitmap() {
    let weights = [2, 1, 1];

    let err = decode(&weights, &[0x16, 0x02], &header(4, None)).unwrap_err();

    assert_eq!(err.kind(), ErrorKind::Malformed);
}

#[test]
fn rejects_leftover_bitstream_bytes() {
    let mut weights = vec![0; 66];
    weights[65] = 1;

    let err = decode(&weights, &[0], &header(4, None)).unwrap_err();

    assert_eq!(err.kind(), ErrorKind::Malformed);
}

#[test]
fn rejects_incomplete_weights() {
    let weights = [1, 1, 1];

    let err = decode(&weights, &[], &header(3, None)).unwrap_err();

    assert_eq!(err.kind(), ErrorKind::Malformed);
}

#[test]
fn enforces_output_limit() {
    let weights = [1];
    let limits = Limits {
        max_decoded_bytes: 2,
        max_buffer_bytes: 2,
        ..Limits::default()
    };

    let err =
        decode_pivco_huffman_node(&[stream(&weights), stream(&[])], &header(3, None), limits).unwrap_err();

    assert_eq!(err.kind(), ErrorKind::LimitExceeded);
}
