//! Single transforms on streams.

use ozlrip::bitsplit::decode_bitsplit_node;
use ozlrip::concat::decode_concat_node;
use ozlrip::dispatch::{
    decode_dispatch_n_by_tag_node, decode_dispatch_string_node,
    decode_dispatch_string_node_to_serial_output,
};
use ozlrip::field_lz::decode_field_lz_node;
use ozlrip::fse::decode_fse_ncount_node;
use ozlrip::lz::decode_lz_node;
use ozlrip::mux_lengths::decode_mux_lengths_node;
use ozlrip::numeric::decode_zigzag_numeric_chunk;
use ozlrip::partition::decode_partition_node;
use ozlrip::scratch::DecodeScratch;
use ozlrip::sentinel::decode_sentinel_node;
use ozlrip::split_struct::decode_split_by_struct_node;
use ozlrip::standard;
use ozlrip::stream::StreamInput;
use ozlrip::strings::{decode_separate_string_components_node, decode_string_to_serial_node};
use ozlrip::{ErrorKind, Limits};

#[test]
fn supported_standard_nodes_have_decode_coverage() {
    let mut supported = vec![
        standard::BITPACK_SERIAL_ID,
        standard::BITPACK_INT_ID,
        standard::BIT_SPLIT_ID,
        standard::BITUNPACK_ID,
        standard::CONCAT_SERIAL_ID,
        standard::CONCAT_NUM_ID,
        standard::CONCAT_STRUCT_ID,
        standard::CONSTANT_SERIAL_ID,
        standard::CONVERT_NUM_TO_SERIAL_LE_ID,
        standard::CONVERT_NUM_TO_STRUCT_LE_ID,
        standard::CONVERT_SERIAL_TO_NUM_BE_ID,
        standard::CONVERT_SERIAL_TO_NUM_LE_ID,
        standard::CONVERT_SERIAL_TO_STRUCT_ID,
        standard::CONVERT_STRING_TO_SERIAL_ID,
        standard::CONVERT_STRUCT_TO_NUM_BE_ID,
        standard::CONVERT_STRUCT_TO_NUM_LE_ID,
        standard::CONVERT_STRUCT_TO_SERIAL_ID,
        standard::DELTA_INT_ID,
        standard::DISPATCH_N_BY_TAG_ID,
        standard::DISPATCH_STRING_ID,
        standard::FIELD_LZ_ID,
        standard::FSE_V2_ID,
        standard::FSE_NCOUNT_ID,
        standard::HUFFMAN_V2_ID,
        standard::FLATPACK_ID,
        standard::LZ_ID,
        standard::MUX_LENGTHS_ID,
        standard::PARTITION_ID,
        standard::PARSE_INT_ID,
        standard::QUANTIZE_LENGTHS_ID,
        standard::QUANTIZE_OFFSETS_ID,
        standard::RANGE_PACK_ID,
        standard::SENTINEL_ID,
        standard::SEPARATE_STRING_COMPONENTS_ID,
        standard::SPARSE_NUM_ID,
        standard::SPLITN_ID,
        standard::SPLITN_STRUCT_ID,
        standard::SPLIT_BY_STRUCT_ID,
        standard::TOKENIZE_FIXED_ID,
        standard::TOKENIZE_NUMERIC_ID,
        standard::TRANSPOSE_SPLIT_ID,
        standard::TRANSPOSE_SPLIT2_ID,
        standard::TRANSPOSE_SPLIT4_ID,
        standard::TRANSPOSE_SPLIT8_ID,
        standard::ZIGZAG_ID,
    ];
    supported.push(standard::LZ4_ID);
    supported.push(standard::ZSTD_ID);

    let mut covered = vec![
        standard::BITPACK_SERIAL_ID,
        standard::BITPACK_INT_ID,
        standard::BIT_SPLIT_ID,
        standard::BITUNPACK_ID,
        standard::CONCAT_SERIAL_ID,
        standard::CONCAT_NUM_ID,
        standard::CONCAT_STRUCT_ID,
        standard::CONSTANT_SERIAL_ID,
        standard::CONVERT_NUM_TO_SERIAL_LE_ID,
        standard::CONVERT_NUM_TO_STRUCT_LE_ID,
        standard::CONVERT_SERIAL_TO_NUM_BE_ID,
        standard::CONVERT_SERIAL_TO_NUM_LE_ID,
        standard::CONVERT_SERIAL_TO_STRUCT_ID,
        standard::CONVERT_STRING_TO_SERIAL_ID,
        standard::CONVERT_STRUCT_TO_NUM_BE_ID,
        standard::CONVERT_STRUCT_TO_NUM_LE_ID,
        standard::CONVERT_STRUCT_TO_SERIAL_ID,
        standard::DELTA_INT_ID,
        standard::DISPATCH_N_BY_TAG_ID,
        standard::DISPATCH_STRING_ID,
        standard::FIELD_LZ_ID,
        standard::FSE_V2_ID,
        standard::FSE_NCOUNT_ID,
        standard::HUFFMAN_V2_ID,
        standard::FLATPACK_ID,
        standard::LZ_ID,
        standard::MUX_LENGTHS_ID,
        standard::PARTITION_ID,
        standard::PARSE_INT_ID,
        standard::QUANTIZE_LENGTHS_ID,
        standard::QUANTIZE_OFFSETS_ID,
        standard::RANGE_PACK_ID,
        standard::SENTINEL_ID,
        standard::SEPARATE_STRING_COMPONENTS_ID,
        standard::SPARSE_NUM_ID,
        standard::SPLITN_ID,
        standard::SPLITN_STRUCT_ID,
        standard::SPLIT_BY_STRUCT_ID,
        standard::TOKENIZE_FIXED_ID,
        standard::TOKENIZE_NUMERIC_ID,
        standard::TRANSPOSE_SPLIT_ID,
        standard::TRANSPOSE_SPLIT2_ID,
        standard::TRANSPOSE_SPLIT4_ID,
        standard::TRANSPOSE_SPLIT8_ID,
        standard::ZIGZAG_ID,
    ];
    covered.push(standard::LZ4_ID);
    covered.push(standard::ZSTD_ID);

    supported.sort_unstable();
    covered.sort_unstable();
    assert_eq!(supported, covered);
}

#[test]
fn decodes_concat_typed_outputs() {
    let outputs = decode_concat_node(
        &[
            StreamInput {
                bytes: &[2, 0, 0, 0, 1, 0, 0, 0],
                element_width: 4,
                string_lengths: None,
            },
            StreamInput {
                bytes: &[1, 0, 2, 0, 3, 0],
                element_width: 2,
                string_lengths: None,
            },
        ],
        &[],
        Limits::default(),
    )
    .unwrap();

    assert_eq!(outputs.len(), 2);
    assert_eq!(outputs[0].element_width, 2);
    assert_eq!(outputs[0].bytes, [1, 0, 2, 0]);
    assert_eq!(outputs[1].element_width, 2);
    assert_eq!(outputs[1].bytes, [3, 0]);
}

#[test]
fn rejects_concat_typed_size_mismatch() {
    let err = decode_concat_node(
        &[
            StreamInput {
                bytes: &[2, 0, 0, 0],
                element_width: 4,
                string_lengths: None,
            },
            StreamInput {
                bytes: &[1, 0, 2, 0, 3, 0],
                element_width: 2,
                string_lengths: None,
            },
        ],
        &[],
        Limits::default(),
    )
    .unwrap_err();

    assert_eq!(err.kind(), ErrorKind::Malformed);
}

#[test]
fn decodes_split_by_struct_node() {
    let output = decode_split_by_struct_node(
        &[
            StreamInput {
                bytes: &[1, 2],
                element_width: 1,
                string_lengths: None,
            },
            StreamInput {
                bytes: &[3, 0, 4, 0],
                element_width: 2,
                string_lengths: None,
            },
        ],
        2,
        &[],
        Limits::default(),
    )
    .unwrap();

    assert_eq!(output.element_width, 1);
    assert_eq!(output.bytes, [1, 3, 0, 2, 4, 0]);
}

#[test]
fn rejects_split_by_struct_mismatched_element_counts() {
    let err = decode_split_by_struct_node(
        &[
            StreamInput {
                bytes: &[1, 2],
                element_width: 1,
                string_lengths: None,
            },
            StreamInput {
                bytes: &[3, 0],
                element_width: 2,
                string_lengths: None,
            },
        ],
        2,
        &[],
        Limits::default(),
    )
    .unwrap_err();

    assert_eq!(err.kind(), ErrorKind::Malformed);
}

#[test]
fn decodes_dispatch_n_by_tag_node() {
    let output = decode_dispatch_n_by_tag_node(
        &[
            StreamInput {
                bytes: &[0, 1, 0],
                element_width: 1,
                string_lengths: None,
            },
            StreamInput {
                bytes: &[2, 3, 1],
                element_width: 1,
                string_lengths: None,
            },
            StreamInput {
                bytes: b"abc",
                element_width: 1,
                string_lengths: None,
            },
            StreamInput {
                bytes: b"XYZ",
                element_width: 1,
                string_lengths: None,
            },
        ],
        2,
        &[],
        21,
        Limits::default(),
    )
    .unwrap();

    assert_eq!(output, b"abXYZc");
}

#[test]
fn rejects_dispatch_n_by_tag_invalid_tag() {
    let err = decode_dispatch_n_by_tag_node(
        &[
            StreamInput {
                bytes: &[2],
                element_width: 1,
                string_lengths: None,
            },
            StreamInput {
                bytes: &[1],
                element_width: 1,
                string_lengths: None,
            },
            StreamInput {
                bytes: b"a",
                element_width: 1,
                string_lengths: None,
            },
        ],
        1,
        &[],
        21,
        Limits::default(),
    )
    .unwrap_err();

    assert_eq!(err.kind(), ErrorKind::Malformed);
}

#[test]
fn rejects_dispatch_n_by_tag_size_mismatch() {
    let err = decode_dispatch_n_by_tag_node(
        &[
            StreamInput {
                bytes: &[0],
                element_width: 1,
                string_lengths: None,
            },
            StreamInput {
                bytes: &[2],
                element_width: 1,
                string_lengths: None,
            },
            StreamInput {
                bytes: b"a",
                element_width: 1,
                string_lengths: None,
            },
        ],
        1,
        &[],
        21,
        Limits::default(),
    )
    .unwrap_err();

    assert_eq!(err.kind(), ErrorKind::Malformed);
}

#[test]
fn decodes_mux_lengths_inline_u16() {
    let muxed = [0x21];
    let long = [];
    let outputs = decode_mux_lengths_node(
        &[
            StreamInput {
                bytes: &muxed,
                element_width: 1,
                string_lengths: None,
            },
            StreamInput {
                bytes: &long,
                element_width: 2,
                string_lengths: None,
            },
        ],
        &[0x24],
        Limits::default(),
    )
    .unwrap();

    assert_eq!(outputs.len(), 2);
    assert_eq!(outputs[0].bytes, [1, 0]);
    assert_eq!(outputs[1].bytes, [4, 0]);
    assert_eq!(outputs[0].element_width, 2);
    assert_eq!(outputs[1].element_width, 2);
}

#[test]
fn decodes_mux_lengths_overflow_u16() {
    let muxed = [0xff];
    let long = [5, 0, 2, 0];
    let outputs = decode_mux_lengths_node(
        &[
            StreamInput {
                bytes: &muxed,
                element_width: 1,
                string_lengths: None,
            },
            StreamInput {
                bytes: &long,
                element_width: 2,
                string_lengths: None,
            },
        ],
        &[0x24],
        Limits::default(),
    )
    .unwrap();

    assert_eq!(outputs[0].bytes, [20, 0]);
    assert_eq!(outputs[1].bytes, [19, 0]);
}

#[test]
fn rejects_mux_lengths_exhausted_long_stream() {
    let muxed = [0xff];
    let long = [5, 0];
    let err = decode_mux_lengths_node(
        &[
            StreamInput {
                bytes: &muxed,
                element_width: 1,
                string_lengths: None,
            },
            StreamInput {
                bytes: &long,
                element_width: 2,
                string_lengths: None,
            },
        ],
        &[0x24],
        Limits::default(),
    )
    .unwrap_err();

    assert_eq!(err.kind(), ErrorKind::Malformed);
}

#[test]
fn decodes_bitsplit_bf16_node() {
    let mantissas = [0x01, 0x7f];
    let exponents = [0x02, 0xff];
    let signs = [0x00, 0x01];
    let output = decode_bitsplit_node(
        &[
            StreamInput {
                bytes: &mantissas,
                element_width: 1,
                string_lengths: None,
            },
            StreamInput {
                bytes: &exponents,
                element_width: 1,
                string_lengths: None,
            },
            StreamInput {
                bytes: &signs,
                element_width: 1,
                string_lengths: None,
            },
        ],
        3,
        &[2, 7, 8],
        Limits::default(),
    )
    .unwrap();

    assert_eq!(output.element_width, 2);
    assert_eq!(output.bytes, [0x01, 0x01, 0xff, 0xff]);
}

#[test]
fn rejects_bitsplit_mismatched_input_width() {
    let input = [0u8; 2];
    let err = decode_bitsplit_node(
        &[StreamInput {
            bytes: &input,
            element_width: 1,
            string_lengths: None,
        }],
        1,
        &[2, 9],
        Limits::default(),
    )
    .unwrap_err();

    assert_eq!(err.kind(), ErrorKind::Malformed);
}

#[test]
fn decodes_lz_node_with_trailing_literals() {
    let literals = b"abc!";
    let offsets = 3u16.to_le_bytes();
    let literal_lengths = 3u16.to_le_bytes();
    let match_lengths = 3u16.to_le_bytes();
    let output = decode_lz_node(
        &[
            StreamInput {
                bytes: literals,
                element_width: 1,
                string_lengths: None,
            },
            StreamInput {
                bytes: &offsets,
                element_width: 2,
                string_lengths: None,
            },
            StreamInput {
                bytes: &literal_lengths,
                element_width: 2,
                string_lengths: None,
            },
            StreamInput {
                bytes: &match_lengths,
                element_width: 2,
                string_lengths: None,
            },
        ],
        &[7],
        Limits::default(),
    )
    .unwrap();

    assert_eq!(output, b"abcabc!");
}

#[test]
fn decodes_lz_node_with_overlapping_match() {
    let literals = b"a";
    let offsets = 1u16.to_le_bytes();
    let literal_lengths = 1u16.to_le_bytes();
    let match_lengths = 4u16.to_le_bytes();
    let output = decode_lz_node(
        &[
            StreamInput {
                bytes: literals,
                element_width: 1,
                string_lengths: None,
            },
            StreamInput {
                bytes: &offsets,
                element_width: 2,
                string_lengths: None,
            },
            StreamInput {
                bytes: &literal_lengths,
                element_width: 2,
                string_lengths: None,
            },
            StreamInput {
                bytes: &match_lengths,
                element_width: 2,
                string_lengths: None,
            },
        ],
        &[5],
        Limits::default(),
    )
    .unwrap();

    assert_eq!(output, b"aaaaa");
}

#[test]
fn decodes_field_lz_node_with_last_literals() {
    let mut scratch = DecodeScratch::new();
    let output = decode_field_lz_node(
        &[
            StreamInput {
                bytes: b"abcdef",
                element_width: 1,
                string_lengths: None,
            },
            StreamInput {
                bytes: &[],
                element_width: 2,
                string_lengths: None,
            },
            StreamInput {
                bytes: &[],
                element_width: 4,
                string_lengths: None,
            },
            StreamInput {
                bytes: &[],
                element_width: 4,
                string_lengths: None,
            },
            StreamInput {
                bytes: &[],
                element_width: 4,
                string_lengths: None,
            },
        ],
        &[6],
        Limits::default(),
        &mut scratch,
    )
    .unwrap();

    assert_eq!(output.element_width, 1);
    assert_eq!(output.bytes, b"abcdef");
}

#[test]
fn decodes_field_lz_node_with_explicit_offset() {
    let mut scratch = DecodeScratch::new();
    let token = 3u16 | (3u16 << 2);
    let offset = 3u32.to_le_bytes();
    let output = decode_field_lz_node(
        &[
            StreamInput {
                bytes: b"abc!",
                element_width: 1,
                string_lengths: None,
            },
            StreamInput {
                bytes: &token.to_le_bytes(),
                element_width: 2,
                string_lengths: None,
            },
            StreamInput {
                bytes: &offset,
                element_width: 4,
                string_lengths: None,
            },
            StreamInput {
                bytes: &[],
                element_width: 4,
                string_lengths: None,
            },
            StreamInput {
                bytes: &[],
                element_width: 4,
                string_lengths: None,
            },
        ],
        &[8],
        Limits::default(),
        &mut scratch,
    )
    .unwrap();

    assert_eq!(output.element_width, 1);
    assert_eq!(output.bytes, b"abcabca!");
}

#[test]
fn decodes_separate_string_components_node() {
    let field_sizes = [1u16.to_le_bytes(), 3u16.to_le_bytes()].concat();
    let output = decode_separate_string_components_node(
        &[
            StreamInput {
                bytes: b"abcd",
                element_width: 1,
                string_lengths: None,
            },
            StreamInput {
                bytes: &field_sizes,
                element_width: 2,
                string_lengths: None,
            },
        ],
        &[],
        Limits::default(),
    )
    .unwrap();

    assert_eq!(output.element_width, 1);
    assert_eq!(output.bytes, b"abcd");
    assert_eq!(output.string_lengths.as_deref(), Some([1, 3].as_slice()));
}

#[test]
fn rejects_separate_string_components_size_mismatch() {
    let field_sizes = [2u16.to_le_bytes(), 3u16.to_le_bytes()].concat();
    let err = decode_separate_string_components_node(
        &[
            StreamInput {
                bytes: b"abcd",
                element_width: 1,
                string_lengths: None,
            },
            StreamInput {
                bytes: &field_sizes,
                element_width: 2,
                string_lengths: None,
            },
        ],
        &[],
        Limits::default(),
    )
    .unwrap_err();

    assert_eq!(err.kind(), ErrorKind::Malformed);
}

#[test]
fn decodes_dispatch_string_node() {
    let indices = [
        0u16.to_le_bytes(),
        1u16.to_le_bytes(),
        0u16.to_le_bytes(),
        1u16.to_le_bytes(),
    ]
    .concat();
    let first_lengths = [1, 1];
    let second_lengths = [1, 1];

    let output = decode_dispatch_string_node(
        &[
            StreamInput {
                bytes: &indices,
                element_width: 2,
                string_lengths: None,
            },
            StreamInput {
                bytes: b"ab",
                element_width: 1,
                string_lengths: Some(&first_lengths),
            },
            StreamInput {
                bytes: b"XY",
                element_width: 1,
                string_lengths: Some(&second_lengths),
            },
        ],
        2,
        &[],
        21,
        Limits::default(),
    )
    .unwrap();

    assert_eq!(output.element_width, 1);
    assert_eq!(output.bytes, b"aXbY");
    assert_eq!(
        output.string_lengths.as_deref(),
        Some([1, 1, 1, 1].as_slice())
    );
}

#[test]
fn decodes_dispatch_string_csv_pattern_to_serial_output() {
    let row_pattern = [0u16, 4, 1, 4, 2, 4, 3, 4]
        .into_iter()
        .flat_map(u16::to_le_bytes)
        .collect::<Vec<_>>();
    let indices = [row_pattern.as_slice(), row_pattern.as_slice()].concat();
    let first_lengths = [2, 2];
    let second_lengths = [1, 2];
    let third_lengths = [2, 1];
    let fourth_lengths = [1, 3];
    let delimiter_lengths = [1; 8];
    let mut output = b"pre".to_vec();

    decode_dispatch_string_node_to_serial_output(
        &[
            StreamInput {
                bytes: &indices,
                element_width: 2,
                string_lengths: None,
            },
            StreamInput {
                bytes: b"aaBB",
                element_width: 1,
                string_lengths: Some(&first_lengths),
            },
            StreamInput {
                bytes: b"xYZ",
                element_width: 1,
                string_lengths: Some(&second_lengths),
            },
            StreamInput {
                bytes: b"12q",
                element_width: 1,
                string_lengths: Some(&third_lengths),
            },
            StreamInput {
                bytes: b"kLMN",
                element_width: 1,
                string_lengths: Some(&fourth_lengths),
            },
            StreamInput {
                bytes: b",,;\n,,;\n",
                element_width: 1,
                string_lengths: Some(&delimiter_lengths),
            },
        ],
        5,
        &[],
        21,
        Limits::default(),
        &mut output,
    )
    .unwrap();

    assert_eq!(output, b"preaa,x,12;k\nBB,YZ,q;LMN\n");
}

#[test]
fn decodes_dispatch_string_csv_header_pattern_to_serial_output() {
    let header_pattern = [5u16; 7]
        .into_iter()
        .flat_map(u16::to_le_bytes)
        .collect::<Vec<_>>();
    let row_pattern = [4u16, 0, 4, 1, 4, 2, 4, 3]
        .into_iter()
        .flat_map(u16::to_le_bytes)
        .collect::<Vec<_>>();
    let trailing_delimiter = 4u16.to_le_bytes();
    let indices = [
        header_pattern.as_slice(),
        row_pattern.as_slice(),
        row_pattern.as_slice(),
        trailing_delimiter.as_slice(),
    ]
    .concat();
    let first_lengths = [2, 2];
    let second_lengths = [1, 2];
    let third_lengths = [2, 1];
    let fourth_lengths = [1, 3];
    let delimiter_lengths = [1; 9];
    let header_lengths = [1; 7];
    let mut output = b"pre".to_vec();

    decode_dispatch_string_node_to_serial_output(
        &[
            StreamInput {
                bytes: &indices,
                element_width: 2,
                string_lengths: None,
            },
            StreamInput {
                bytes: b"aaBB",
                element_width: 1,
                string_lengths: Some(&first_lengths),
            },
            StreamInput {
                bytes: b"xYZ",
                element_width: 1,
                string_lengths: Some(&second_lengths),
            },
            StreamInput {
                bytes: b"12q",
                element_width: 1,
                string_lengths: Some(&third_lengths),
            },
            StreamInput {
                bytes: b"kLMN",
                element_width: 1,
                string_lengths: Some(&fourth_lengths),
            },
            StreamInput {
                bytes: b"\n,,;\n,,;\n",
                element_width: 1,
                string_lengths: Some(&delimiter_lengths),
            },
            StreamInput {
                bytes: b"ABCDEFG",
                element_width: 1,
                string_lengths: Some(&header_lengths),
            },
        ],
        6,
        &[],
        21,
        Limits::default(),
        &mut output,
    )
    .unwrap();

    assert_eq!(output, b"preABCDEFG\naa,x,12;k\nBB,YZ,q;LMN\n");
}

#[test]
fn decodes_dispatch_string_csv_wide_header_pattern_to_serial_output() {
    let header_pattern = [7u16; 11]
        .into_iter()
        .flat_map(u16::to_le_bytes)
        .collect::<Vec<_>>();
    let row_pattern = [6u16, 0, 6, 1, 6, 2, 6, 3, 6, 4, 6, 5]
        .into_iter()
        .flat_map(u16::to_le_bytes)
        .collect::<Vec<_>>();
    let trailing_delimiter = 6u16.to_le_bytes();
    let indices = [
        header_pattern.as_slice(),
        row_pattern.as_slice(),
        row_pattern.as_slice(),
        trailing_delimiter.as_slice(),
    ]
    .concat();
    let field_lengths = [[1, 2], [2, 1], [1, 1], [3, 1], [1, 2], [2, 3]];
    let delimiter_lengths = [1; 13];
    let header_lengths = [1; 11];
    let mut output = b"pre".to_vec();

    decode_dispatch_string_node_to_serial_output(
        &[
            StreamInput {
                bytes: &indices,
                element_width: 2,
                string_lengths: None,
            },
            StreamInput {
                bytes: b"aAA",
                element_width: 1,
                string_lengths: Some(&field_lengths[0]),
            },
            StreamInput {
                bytes: b"bbB",
                element_width: 1,
                string_lengths: Some(&field_lengths[1]),
            },
            StreamInput {
                bytes: b"cd",
                element_width: 1,
                string_lengths: Some(&field_lengths[2]),
            },
            StreamInput {
                bytes: b"eeeF",
                element_width: 1,
                string_lengths: Some(&field_lengths[3]),
            },
            StreamInput {
                bytes: b"gHH",
                element_width: 1,
                string_lengths: Some(&field_lengths[4]),
            },
            StreamInput {
                bytes: b"ijKLM",
                element_width: 1,
                string_lengths: Some(&field_lengths[5]),
            },
            StreamInput {
                bytes: b"\n,,,,,\n,,,,,\n",
                element_width: 1,
                string_lengths: Some(&delimiter_lengths),
            },
            StreamInput {
                bytes: b"A,B,C,D,E,F",
                element_width: 1,
                string_lengths: Some(&header_lengths),
            },
        ],
        8,
        &[],
        21,
        Limits::default(),
        &mut output,
    )
    .unwrap();

    assert_eq!(
        output,
        b"preA,B,C,D,E,F\na,bb,c,eee,g,ij\nAA,B,d,F,HH,KLM\n"
    );
}

#[test]
fn decodes_dispatch_string_pums_style_wide_header_pattern_to_serial_output() {
    const DATA_SOURCES: u16 = 78;
    let sources = usize::from(DATA_SOURCES);
    let delimiter_source = DATA_SOURCES;
    let header_source = DATA_SOURCES + 1;
    let header_fields = sources * 2 - 1;

    let mut indices = Vec::new();
    for _ in 0..header_fields {
        indices.extend_from_slice(&header_source.to_le_bytes());
    }
    for source in 0..DATA_SOURCES {
        indices.extend_from_slice(&delimiter_source.to_le_bytes());
        indices.extend_from_slice(&source.to_le_bytes());
    }
    indices.extend_from_slice(&delimiter_source.to_le_bytes());

    let field_lengths = vec![[2u32]; sources];
    let field_bytes = (0..sources)
        .map(|source| format!("{source:02}").into_bytes())
        .collect::<Vec<_>>();
    let delimiter_lengths = vec![1u32; sources + 1];
    let delimiter_bytes = {
        let mut bytes = Vec::with_capacity(sources + 1);
        bytes.push(b'\n');
        bytes.extend(core::iter::repeat_n(b',', sources - 1));
        bytes.push(b'\n');
        bytes
    };
    let header_lengths = vec![1u32; header_fields];
    let header_bytes = (0..header_fields)
        .map(|field| b'A' + u8::try_from(field % 26).unwrap())
        .collect::<Vec<_>>();

    let mut inputs = Vec::with_capacity(sources + 3);
    inputs.push(StreamInput {
        bytes: &indices,
        element_width: 2,
        string_lengths: None,
    });
    for source in 0..sources {
        inputs.push(StreamInput {
            bytes: &field_bytes[source],
            element_width: 1,
            string_lengths: Some(&field_lengths[source]),
        });
    }
    inputs.push(StreamInput {
        bytes: &delimiter_bytes,
        element_width: 1,
        string_lengths: Some(&delimiter_lengths),
    });
    inputs.push(StreamInput {
        bytes: &header_bytes,
        element_width: 1,
        string_lengths: Some(&header_lengths),
    });

    let mut expected = b"pre".to_vec();
    expected.extend_from_slice(&header_bytes);
    expected.push(b'\n');
    for (source, field) in field_bytes.iter().enumerate() {
        if source > 0 {
            expected.push(b',');
        }
        expected.extend_from_slice(field);
    }
    expected.push(b'\n');

    let mut output = b"pre".to_vec();
    decode_dispatch_string_node_to_serial_output(
        &inputs,
        u32::from(DATA_SOURCES) + 2,
        &[],
        21,
        Limits::default(),
        &mut output,
    )
    .unwrap();

    assert_eq!(output, expected);
}

#[test]
fn rejects_dispatch_string_invalid_source_index() {
    let indices = 2u16.to_le_bytes();
    let lengths = [1];
    let err = decode_dispatch_string_node(
        &[
            StreamInput {
                bytes: &indices,
                element_width: 2,
                string_lengths: None,
            },
            StreamInput {
                bytes: b"a",
                element_width: 1,
                string_lengths: Some(&lengths),
            },
        ],
        1,
        &[],
        21,
        Limits::default(),
    )
    .unwrap_err();

    assert_eq!(err.kind(), ErrorKind::Malformed);
}

#[test]
fn decodes_string_to_serial_node() {
    let lengths = [1, 3];
    let output = decode_string_to_serial_node(
        StreamInput {
            bytes: b"abcd",
            element_width: 1,
            string_lengths: Some(&lengths),
        },
        &[],
        Limits::default(),
    )
    .unwrap();

    assert_eq!(output, b"abcd");
}

#[test]
fn decodes_sentinel_node_with_default_marker() {
    let exceptions = 300u16.to_le_bytes();
    let output = decode_sentinel_node(
        &[
            StreamInput {
                bytes: &[1, 255, 2],
                element_width: 1,
                string_lengths: None,
            },
            StreamInput {
                bytes: &exceptions,
                element_width: 2,
                string_lengths: None,
            },
        ],
        &[],
        Limits::default(),
    )
    .unwrap();

    assert_eq!(output.element_width, 2);
    assert_eq!(output.bytes, [1, 0, 44, 1, 2, 0]);
}

#[test]
fn rejects_sentinel_unconsumed_exception() {
    let exceptions = [300u16.to_le_bytes(), 301u16.to_le_bytes()].concat();
    let err = decode_sentinel_node(
        &[
            StreamInput {
                bytes: &[1, 255, 2],
                element_width: 1,
                string_lengths: None,
            },
            StreamInput {
                bytes: &exceptions,
                element_width: 2,
                string_lengths: None,
            },
        ],
        &[],
        Limits::default(),
    )
    .unwrap_err();

    assert_eq!(err.kind(), ErrorKind::Malformed);
}

#[test]
fn decodes_zigzag_numeric_i32_chunk() {
    let values = [0u32, 1, 2, 21, 244, 245, u32::MAX];
    let mut input = Vec::new();
    for value in values {
        input.extend_from_slice(&value.to_le_bytes());
    }

    let output = decode_zigzag_numeric_chunk(
        StreamInput {
            bytes: &input,
            element_width: 4,
            string_lengths: None,
        },
        &[],
        Limits::default(),
    )
    .unwrap();

    assert_eq!(output.element_width, 4);
    assert_eq!(
        output.bytes,
        [0i32, -1, 1, -11, 122, -123, i32::MIN,]
            .into_iter()
            .flat_map(i32::to_le_bytes)
            .collect::<Vec<_>>()
    );
}

#[test]
fn decodes_partition_preset_varbyte16_node() {
    let output = decode_partition_node(
        &[
            StreamInput {
                bytes: &[0, 1, 2],
                element_width: 1,
                string_lengths: None,
            },
            StreamInput {
                bytes: &[0x0d],
                element_width: 1,
                string_lengths: None,
            },
        ],
        &[0x15],
        Limits::default(),
    )
    .unwrap();

    assert_eq!(output.element_width, 2);
    assert_eq!(
        output.bytes,
        [1u16, 2, 7]
            .into_iter()
            .flat_map(u16::to_le_bytes)
            .collect::<Vec<_>>()
    );
}

#[test]
fn decodes_partition_u32_node() {
    let output = decode_partition_node(
        &[
            StreamInput {
                bytes: &[0, 1],
                element_width: 1,
                string_lengths: None,
            },
            StreamInput {
                bytes: &[0x15],
                element_width: 1,
                string_lengths: None,
            },
        ],
        &[0x0a, 4, 8],
        Limits::default(),
    )
    .unwrap();

    assert_eq!(output.element_width, 4);
    assert_eq!(
        output.bytes,
        [1u32, 9]
            .into_iter()
            .flat_map(u32::to_le_bytes)
            .collect::<Vec<_>>()
    );
}

#[test]
fn decodes_fse_ncount_node() {
    let distribution = [15, 8, 4, 3, 1, 1];
    let encoded = zrip_core::fse::table_builder::serialize_fse_table_description(&distribution, 5);
    let output = decode_fse_ncount_node(
        StreamInput {
            bytes: &encoded,
            element_width: 1,
            string_lengths: None,
        },
        &[],
        Limits::default(),
    )
    .unwrap();

    let decoded = output
        .bytes
        .chunks_exact(2)
        .map(|bytes| i16::from_le_bytes(bytes.try_into().unwrap()))
        .collect::<Vec<_>>();
    assert_eq!(output.element_width, 2);
    assert_eq!(decoded, distribution);
}

#[test]
fn rejects_fse_ncount_trailing_bytes() {
    let distribution = [15, 8, 4, 3, 1, 1];
    let mut encoded =
        zrip_core::fse::table_builder::serialize_fse_table_description(&distribution, 5);
    encoded.push(0);
    let err = decode_fse_ncount_node(
        StreamInput {
            bytes: &encoded,
            element_width: 1,
            string_lengths: None,
        },
        &[],
        Limits::default(),
    )
    .unwrap_err();

    assert_eq!(err.kind(), ErrorKind::Malformed);
}
