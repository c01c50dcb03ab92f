//! Table and text transforms.

use ozlrip::dispatch::decode_dispatch_string_node_to_serial_output;
use ozlrip::field_lz::decode_field_lz_node;
use ozlrip::numeric::{decode_constant_serial_chunk, decode_delta_node};
use ozlrip::partition::{decode_quantize_node, QuantizeTable};
use ozlrip::scratch::DecodeScratch;
use ozlrip::split_struct::decode_split_by_struct_node;
use ozlrip::stream::StreamInput;
use ozlrip::tokenize::decode_tokenize_fixed_node;
use ozlrip::{ErrorKind, Limits};

fn stream(bytes: &[u8], element_width: usize) -> StreamInput<'_> {
    StreamInput { bytes, element_width, string_lengths: None }
}

fn strings<'a>(bytes: &'a [u8], lengths: &'a [u32]) -> StreamInput<'a> {
    StreamInput { bytes, element_width: 1, string_lengths: Some(lengths) }
}

fn indices(sources: &[u16]) -> Vec<u8> {
    sources.iter().flat_map(|source| source.to_le_bytes()).collect()
}

#[test]
fn tokenize_looks_up_every_index() {
    let output = decode_tokenize_fixed_node(
        &[stream(&[10, 0, 20, 0], 2), stream(&[1, 0, 1], 1)],
        &[],
        Limits::default(),
    )
    .unwrap();
    assert_eq!(output.element_width, 2);
    assert_eq!(output.bytes, [20, 0, 10, 0, 20, 0]);
}

#[test]
fn tokenize_rejects_an_index_outside_the_alphabet() {
    let err = decode_tokenize_fixed_node(
        &[stream(&[10, 0, 20, 0], 2), stream(&[2], 1)],
        &[],
        Limits::default(),
    )
    .unwrap_err();
    assert_eq!(err.kind(), ErrorKind::Malformed);
}

#[test]
fn quantize_adds_extra_bits_to_the_base_of_a_code() {
    let output = decode_quantize_node(
        &[stream(&[0, 1, 3], 1), stream(&[0b1011], 1)],
        &[],
        Limits::default(),
        QuantizeTable::Offsets,
    )
    .unwrap();
    assert_eq!(output.bytes, [1, 0, 0, 0, 3, 0, 0, 0, 13, 0, 0, 0]);
    let output = decode_quantize_node(
        &[stream(&[5, 16], 1), stream(&[9], 1)],
        &[],
        Limits::default(),
        QuantizeTable::Lengths,
    )
    .unwrap();
    assert_eq!(output.bytes, [5, 0, 0, 0, 25, 0, 0, 0]);
}

#[test]
fn quantize_rejects_nonzero_padding() {
    let err = decode_quantize_node(
        &[stream(&[0], 1), stream(&[1], 1)],
        &[],
        Limits::default(),
        QuantizeTable::Offsets,
    )
    .unwrap_err();
    assert_eq!(err.detail(), Some("forward bitstream has nonzero padding"));
}

#[test]
fn delta_wraps_around() {
    let mut scratch = DecodeScratch::new();
    let output = decode_delta_node(
        stream(&[1, 0, 0xff, 0xff], 2),
        &[0xff, 0xff],
        Limits::default(),
        &mut scratch,
    )
    .unwrap();
    assert_eq!(output.bytes, [0xff, 0xff, 0, 0, 0xff, 0xff]);
}

#[test]
fn constant_repeats_one_byte() {
    assert_eq!(decode_constant_serial_chunk(b"x", &[3], Limits::default()).unwrap(), b"xxx");
}

#[test]
fn a_table_out_of_order_is_dispatched_all_the_same() {
    // The last two indices of the row are swapped, so the row is not that of a table.
    let order = indices(&[0, 4, 1, 4, 2, 4, 4, 3]);
    let mut output = Vec::new();
    decode_dispatch_string_node_to_serial_output(
        &[
            stream(&order, 2),
            strings(b"a", &[1]),
            strings(b"bb", &[2]),
            strings(b"", &[0]),
            strings(b"d", &[1]),
            strings(b",;.\n", &[1, 1, 1, 1]),
        ],
        5,
        &[],
        21,
        Limits::default(),
        &mut output,
    )
    .unwrap();
    assert_eq!(output, b"a,bb;.\nd");
}

#[test]
fn a_table_with_long_delimiters_is_dispatched() {
    let order = indices(&[0, 4, 1, 4, 2, 4, 3, 4, 0, 4, 1, 4, 2, 4, 3, 4]);
    let mut output = b"> ".to_vec();
    decode_dispatch_string_node_to_serial_output(
        &[
            stream(&order, 2),
            strings(b"ae", &[1, 1]),
            strings(b"bf", &[1, 1]),
            strings(b"cg", &[1, 1]),
            strings(b"dh", &[1, 1]),
            strings(b"--,,;;\n--,,;;\n", &[2, 2, 2, 1, 2, 2, 2, 1]),
        ],
        5,
        &[],
        21,
        Limits::default(),
        &mut output,
    )
    .unwrap();
    assert_eq!(output, b"> a--b,,c;;d\ne--f,,g;;h\n");
}

#[test]
fn strings_that_run_out_leave_what_came_before_them() {
    let order = indices(&[0, 0]);
    let mut output = b"kept".to_vec();
    let err = decode_dispatch_string_node_to_serial_output(
        &[stream(&order, 2), strings(b"a", &[1]), strings(b"b", &[1])],
        2,
        &[],
        21,
        Limits::default(),
        &mut output,
    )
    .unwrap_err();
    assert_eq!(err.detail(), Some("dispatch_string source is exhausted"));
    assert_eq!(output, b"kepta");
}

#[test]
fn structures_of_no_columns_are_refused() {
    let err = decode_split_by_struct_node(&[], 0, &[], Limits::default()).unwrap_err();
    assert_ne!(err.kind(), ErrorKind::Truncated);
}

#[test]
fn an_element_count_that_overflows_is_refused() {
    let header = [0xff, 0xff, 0xff, 0xff, 0xff, 0xff, 0xff, 0xff, 0xff, 0x01];
    let mut scratch = DecodeScratch::new();
    let err = decode_field_lz_node(
        &[
            stream(&[], 8),
            stream(&[], 2),
            stream(&[], 4),
            stream(&[], 4),
            stream(&[], 4),
        ],
        &header,
        Limits::default(),
        &mut scratch,
    )
    .unwrap_err();
    assert_eq!(err.kind(), ErrorKind::IntegerOverflow);
}
