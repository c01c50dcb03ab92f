//! Executing one transform.

use vstd::prelude::*;
use vstd::slice::slice_subrange;

use crate::bitsplit::{bitsplit_node, decode_bitsplit_node};
use crate::bytes::{append_bytes, read_var_u64, var_u64};
use crate::codecs::{
    decode_lz4_chunk, decode_zstd_magicless, decode_zstd_magicless_with_dictionary, lz4_node,
    zstd_magicless,
};
use crate::concat::{concat_node, decode_concat_node};
use crate::conversions::{
    byte_preserving_node, decode_byte_preserving_conversion_chunk, decode_num_to_struct_le_chunk,
    decode_numeric_to_serial_le_chunk, decode_serial_to_num_be_chunk,
    decode_serial_to_numeric_le_chunk, decode_serial_to_struct_chunk,
    decode_struct_to_num_be_chunk, serial_to_num_be_node, struct_to_num_be_node,
};
use crate::dict::{stored_dictionary, DictionaryStore, StoreView};
use crate::dispatch::{
    decode_dispatch_n_by_tag_node, decode_dispatch_string_node, dispatch_n_by_tag_node,
    dispatch_string_node,
};
use crate::error::{appends, detailed, error_of, fail, outcome, Error, ErrorKind, ErrorView};
use crate::field_lz::{decode_field_lz_node, field_lz_node};
use crate::flatpack::{decode_flatpack_node, flatpack_node};
use crate::fse::{decode_fse_ncount_node, decode_fse_v2_node, fse_ncount_node, fse_v2_node};
use crate::huffman::{decode_huffman_v2_node, huffman_v2_node};
use crate::limits::Limits;
use crate::lz::{decode_lz_node, lz_decode};
use crate::mux_lengths::{decode_mux_lengths_node, mux_lengths_node};
use crate::numeric::{
    bitpack_int_node, bitpack_serial_node, bitunpack_node, constant_serial_node,
    decode_bitpack_int_chunk, decode_bitpack_serial_chunk, decode_bitunpack_serial8_chunk,
    decode_constant_serial_chunk, decode_delta_node, decode_range_pack_serial8_chunk,
    decode_zigzag_numeric_chunk, delta_node, range_pack_node, zigzag_node,
};
use crate::parse_int::{decode_parse_int_node, parse_int_node};
use crate::partition::{
    decode_partition_node, decode_quantize_node, partition_node, quantize_node, QuantizeTable,
};
use crate::pivco_huffman::{decode_pivco_huffman_node, pivco_huffman_node};
use crate::scratch::DecodeScratch;
use crate::sentinel::{decode_sentinel_node, sentinel_node};
use crate::slots::{output_list, outputs_from, NodeOutputs};
use crate::split_struct::{decode_split_by_struct_node, split_by_struct_node};
use crate::splitn::{decode_splitn_node, decode_splitn_typed_node, splitn_bytes, splitn_node};
use crate::standard::{
    BITPACK_INT_ID, BITPACK_SERIAL_ID, BITUNPACK_ID, BIT_SPLIT_ID, CONCAT_NUM_ID,
    CONCAT_SERIAL_ID, CONCAT_STRUCT_ID, CONSTANT_SERIAL_ID, CONVERT_NUM_TO_SERIAL_LE_ID,
    CONVERT_NUM_TO_STRUCT_LE_ID, CONVERT_SERIAL_TO_NUM_BE_ID, CONVERT_SERIAL_TO_NUM_LE_ID,
    CONVERT_SERIAL_TO_STRUCT_ID, CONVERT_STRING_TO_SERIAL_ID, CONVERT_STRUCT_TO_NUM_BE_ID,
    CONVERT_STRUCT_TO_NUM_LE_ID, CONVERT_STRUCT_TO_SERIAL_ID, DELTA_INT_ID,
    DISPATCH_N_BY_TAG_ID, DISPATCH_STRING_ID, FIELD_LZ_ID, FLATPACK_ID, FSE_NCOUNT_ID,
    FSE_V2_ID, HUFFMAN_V2_ID, LZ4_ID, LZ_ID, MUX_LENGTHS_ID, PARSE_INT_ID, PARTITION_ID,
    PIVCO_HUFFMAN_ID, QUANTIZE_LENGTHS_ID, QUANTIZE_OFFSETS_ID, RANGE_PACK_ID, SENTINEL_ID,
    SEPARATE_STRING_COMPONENTS_ID, SPLITN_ID, SPLITN_NUM_ID, SPLITN_STRUCT_ID,
    SPLIT_BY_STRUCT_ID, TOKENIZE_FIXED_ID, TOKENIZE_NUMERIC_ID,
    ZIGZAG_ID, ZSTD_ID,
};
use crate::stream::{
    outputs_outcome, owned_views, stream_views, typed_stream, OwnedStream, StreamInput, StreamView,
};
use crate::strings::{
    decode_separate_string_components_node, decode_string_to_serial_node,
    separate_string_components_node, string_to_serial_node,
};
use crate::tokenize::{decode_tokenize_fixed_node, tokenize_fixed_node};
use crate::transpose::{
    decode_transpose_split_node, is_transpose_split, transpose_split_id, transpose_split_node,
};

verus! {

/// What every transform of a frame is executed with.
#[derive(Clone, Copy)]
pub struct StandardNodeContext<'a> {
    pub format_version: u32,
    pub limits: Limits,
    pub dictionary_bundle_id: Option<&'a [u8]>,
    pub dict_store: &'a DictionaryStore,
}

/// The mathematical content of a [`StandardNodeContext`].
#[verifier::ext_equal]
pub struct ContextView {
    pub version: u32,
    pub limits: Limits,
    pub bundle_id: Option<Seq<u8>>,
    pub store: StoreView,
}

impl<'a> View for StandardNodeContext<'a> {
    type V = ContextView;

    open spec fn view(&self) -> ContextView {
        ContextView {
            version: self.format_version,
            limits: self.limits,
            bundle_id: match self.dictionary_bundle_id {
                Some(id) => Some(id@),
                None => None,
            },
            store: self.dict_store@,
        }
    }
}

/// A stream of bytes as the one output of a transform.
pub open spec fn one_bytes(bytes: Result<Seq<u8>, ErrorView>) -> Result<
    Seq<StreamView>,
    ErrorView,
> {
    match bytes {
        Err(error) => Err(error),
        Ok(bytes) => Ok(seq![typed_stream(bytes, 1)]),
    }
}

/// A stream as the one output of a transform.
pub open spec fn one_stream(stream: Result<StreamView, ErrorView>) -> Result<
    Seq<StreamView>,
    ErrorView,
> {
    match stream {
        Err(error) => Err(error),
        Ok(stream) => Ok(seq![stream]),
    }
}

/// The bytes of a stream.
pub open spec fn stream_bytes(stream: Result<StreamView, ErrorView>) -> Result<
    Seq<u8>,
    ErrorView,
> {
    match stream {
        Err(error) => Err(error),
        Ok(stream) => Ok(stream.bytes),
    }
}

/// The view of what a transform produced.
pub open spec fn node_outcome(result: Result<NodeOutputs, Error>) -> Result<
    Seq<StreamView>,
    ErrorView,
> {
    match result {
        Ok(outputs) => Ok(owned_views(output_list(outputs))),
        Err(error) => Err(error@),
    }
}

fn one_serial(result: Result<Vec<u8>, Error>) -> (outputs: Result<NodeOutputs, Error>)
    ensures
        node_outcome(outputs) == one_bytes(outcome(result)),
{
    let stream = OwnedStream::serial(result?);
    let streams: Vec<OwnedStream> = vec![stream];
    proof {
        assert(owned_views(streams@) =~= seq![stream@]);
    }
    Ok(outputs_from(streams))
}

fn one_typed(result: Result<OwnedStream, Error>) -> (outputs: Result<NodeOutputs, Error>)
    ensures
        node_outcome(outputs) == one_stream(outcome(result)),
{
    let stream = result?;
    let streams: Vec<OwnedStream> = vec![stream];
    proof {
        assert(owned_views(streams@) =~= seq![stream@]);
    }
    Ok(outputs_from(streams))
}

fn many_outputs(result: Result<Vec<OwnedStream>, Error>) -> (outputs: Result<NodeOutputs, Error>)
    ensures
        node_outcome(outputs) == outputs_outcome(result),
{
    let streams = result?;
    Ok(outputs_from(streams))
}

/// What a zstd node produces.
pub open spec fn zstd_node(
    stored: Seq<u8>,
    header: Seq<u8>,
    dict_index: Option<u32>,
    context: ContextView,
) -> Result<Seq<u8>, ErrorView> {
    if header.len() != 0 {
        Err(detailed(ErrorKind::Unsupported, "zstd transform headers are unsupported"@))
    } else {
        match var_u64(stored, 0) {
            Err(error) => Err(error),
            Ok((width, offset)) => {
                let frame = stored.subrange(offset, stored.len() as int);
                if width != 1 {
                    Err(
                        detailed(
                            ErrorKind::Unsupported,
                            "only serial byte zstd output is implemented"@,
                        ),
                    )
                } else {
                    match dict_index {
                        None => zstd_magicless(frame, None, context.limits),
                        Some(index) => match context.bundle_id {
                            None => Err(
                                detailed(
                                    ErrorKind::Malformed,
                                    "dictionary-backed node has no bundle ID"@,
                                ),
                            ),
                            Some(id) => match stored_dictionary(context.store, id, index) {
                                Err(error) => Err(error),
                                Ok(dictionary) => zstd_magicless(
                                    frame,
                                    Some(dictionary),
                                    context.limits,
                                ),
                            },
                        },
                    }
                }
            },
        }
    }
}

/// Decodes a zstd node.
pub fn decode_zstd_chunk(
    stored: &[u8],
    header: &[u8],
    dict_index: Option<u32>,
    context: StandardNodeContext<'_>,
) -> (result: Result<Vec<u8>, Error>)
    requires
        context.dict_store.well_formed(),
    ensures
        outcome(result) == zstd_node(stored@, header@, dict_index, context@),
{
    if header.len() != 0 {
        return Err(fail(ErrorKind::Unsupported, "zstd transform headers are unsupported"));
    }
    let mut offset: usize = 0;
    let width: u64 = read_var_u64(stored, &mut offset)?;
    if width != 1 {
        return Err(fail(ErrorKind::Unsupported, "only serial byte zstd output is implemented"));
    }
    let frame = slice_subrange(stored, offset, stored.len());
    match dict_index {
        None => decode_zstd_magicless(frame, context.limits),
        Some(index) => match context.dictionary_bundle_id {
            None => Err(fail(ErrorKind::Malformed, "dictionary-backed node has no bundle ID")),
            Some(id) => {
                let dictionary = context.dict_store.zstd_dict(id, index)?;
                decode_zstd_magicless_with_dictionary(frame, dictionary, context.limits)
            },
        },
    }
}

/// Decodes a zstd node to the end of `output`.
pub fn decode_zstd_chunk_to_output(
    stored: &[u8],
    header: &[u8],
    dict_index: Option<u32>,
    context: StandardNodeContext<'_>,
    output: &mut Vec<u8>,
) -> (result: Result<(), Error>)
    requires
        context.dict_store.well_formed(),
    ensures
        appends(
            zstd_node(stored@, header@, dict_index, context@),
            old(output)@,
            final(output)@,
            error_of(result),
        ),
{
    let bytes = decode_zstd_chunk(stored, header, dict_index, context)?;
    append_bytes(output, bytes.as_slice());
    Ok(())
}

/// The one input of a transform.
pub open spec fn single(inputs: Seq<StreamView>) -> Result<StreamView, ErrorView> {
    if inputs.len() != 1 {
        Err(
            detailed(
                ErrorKind::InvalidGraph,
                "single-input transform received the wrong input count"@,
            ),
        )
    } else {
        Ok(inputs[0])
    }
}

/// The one input of a transform.
pub fn single_stream<'a>(inputs: &[StreamInput<'a>]) -> (result: Result<StreamInput<'a>, Error>)
    ensures
        match single(stream_views(inputs@)) {
            Ok(stream) => result is Ok && result->Ok_0@ == stream,
            Err(error) => result is Err && result->Err_0@ == error,
        },
{
    if inputs.len() != 1 {
        return Err(
            fail(
                ErrorKind::InvalidGraph,
                "single-input transform received the wrong input count",
            ),
        );
    }
    Ok(inputs[0])
}

/// Whether a transform changes exactly one input. [`CONSTANT_FIXED_ID`] and
/// [`DIVIDE_BY_ID`], which have one input too and are planned, are not among them: no
/// decoder for them is part of this library, so they are refused on execution.
///
/// [`CONSTANT_FIXED_ID`]: crate::standard::CONSTANT_FIXED_ID
/// [`DIVIDE_BY_ID`]: crate::standard::DIVIDE_BY_ID
pub open spec fn single_input(id: u32) -> bool {
    id == ZSTD_ID || id == CONVERT_STRING_TO_SERIAL_ID || id == LZ4_ID || id ==
        BITPACK_SERIAL_ID || id == BITPACK_INT_ID || id == CONSTANT_SERIAL_ID || id ==
        CONVERT_SERIAL_TO_STRUCT_ID || id == CONVERT_STRUCT_TO_SERIAL_ID || id ==
        CONVERT_STRUCT_TO_NUM_LE_ID || id == CONVERT_NUM_TO_STRUCT_LE_ID || id ==
        CONVERT_STRUCT_TO_NUM_BE_ID || id == CONVERT_SERIAL_TO_NUM_BE_ID || id ==
        CONVERT_SERIAL_TO_NUM_LE_ID || id == CONVERT_NUM_TO_SERIAL_LE_ID || id == ZIGZAG_ID ||
        id == DELTA_INT_ID || id == BITUNPACK_ID || id == RANGE_PACK_ID || id == PARSE_INT_ID ||
        id == FSE_NCOUNT_ID
}

fn is_single_input(id: u32) -> (single: bool)
    ensures
        single == single_input(id),
{
    id == ZSTD_ID || id == CONVERT_STRING_TO_SERIAL_ID || id == LZ4_ID || id ==
        BITPACK_SERIAL_ID || id == BITPACK_INT_ID || id == CONSTANT_SERIAL_ID || id ==
        CONVERT_SERIAL_TO_STRUCT_ID || id == CONVERT_STRUCT_TO_SERIAL_ID || id ==
        CONVERT_STRUCT_TO_NUM_LE_ID || id == CONVERT_NUM_TO_STRUCT_LE_ID || id ==
        CONVERT_STRUCT_TO_NUM_BE_ID || id == CONVERT_SERIAL_TO_NUM_BE_ID || id ==
        CONVERT_SERIAL_TO_NUM_LE_ID || id == CONVERT_NUM_TO_SERIAL_LE_ID || id == ZIGZAG_ID ||
        id == DELTA_INT_ID || id == BITUNPACK_ID || id == RANGE_PACK_ID || id == PARSE_INT_ID ||
        id == FSE_NCOUNT_ID
}

/// What a transform that changes one stream produces.
pub open spec fn changed_stream(id: u32, input: StreamView, header: Seq<u8>, limits: Limits) -> Result<
    Seq<StreamView>,
    ErrorView,
> {
    if id == CONVERT_STRING_TO_SERIAL_ID {
        one_bytes(string_to_serial_node(input, header, limits))
    } else if id == LZ4_ID {
        one_bytes(lz4_node(input.bytes, header, limits))
    } else if id == BITPACK_SERIAL_ID {
        one_bytes(bitpack_serial_node(input.bytes, header, limits))
    } else if id == BITPACK_INT_ID {
        one_stream(bitpack_int_node(input.bytes, header, limits))
    } else if id == CONSTANT_SERIAL_ID {
        one_bytes(constant_serial_node(input.bytes, header, limits))
    } else if id == CONVERT_SERIAL_TO_STRUCT_ID {
        one_stream(byte_preserving_node(CONVERT_SERIAL_TO_STRUCT_ID, input, header, limits))
    } else if id == CONVERT_STRUCT_TO_SERIAL_ID {
        one_stream(byte_preserving_node(CONVERT_STRUCT_TO_SERIAL_ID, input, header, limits))
    } else if id == CONVERT_STRUCT_TO_NUM_LE_ID || id == CONVERT_NUM_TO_STRUCT_LE_ID {
        one_stream(byte_preserving_node(CONVERT_NUM_TO_STRUCT_LE_ID, input, header, limits))
    } else if id == CONVERT_STRUCT_TO_NUM_BE_ID {
        one_stream(struct_to_num_be_node(input, header, limits))
    } else if id == CONVERT_SERIAL_TO_NUM_BE_ID {
        one_stream(serial_to_num_be_node(input, header, limits))
    } else if id == CONVERT_SERIAL_TO_NUM_LE_ID {
        one_bytes(stream_bytes(byte_preserving_node(CONVERT_SERIAL_TO_NUM_LE_ID, input, header, limits)))
    } else if id == CONVERT_NUM_TO_SERIAL_LE_ID {
        one_stream(byte_preserving_node(CONVERT_NUM_TO_SERIAL_LE_ID, input, header, limits))
    } else if id == ZIGZAG_ID {
        one_stream(zigzag_node(input, header, limits))
    } else if id == DELTA_INT_ID {
        one_stream(delta_node(input, header, limits))
    } else if id == BITUNPACK_ID {
        one_bytes(bitunpack_node(input.bytes, header, limits))
    } else if id == RANGE_PACK_ID {
        one_bytes(range_pack_node(input.bytes, header, limits))
    } else if id == PARSE_INT_ID {
        one_stream(parse_int_node(input, header, limits))
    } else if id == FSE_NCOUNT_ID {
        one_stream(fse_ncount_node(input, header, limits))
    } else {
        Err(
            detailed(
                ErrorKind::Unsupported,
                "standard transform graph execution is not implemented yet"@,
            ),
        )
    }
}

/// What a transform with one input produces.
pub open spec fn single_node(
    id: u32,
    inputs: Seq<StreamView>,
    dict_index: Option<u32>,
    header: Seq<u8>,
    context: ContextView,
) -> Result<Seq<StreamView>, ErrorView> {
    if !single_input(id) {
        Err(
            detailed(
                ErrorKind::Unsupported,
                "standard transform graph execution is not implemented yet"@,
            ),
        )
    } else {
        match single(inputs) {
            Err(error) => Err(error),
            Ok(input) => if id == ZSTD_ID {
                one_bytes(zstd_node(input.bytes, header, dict_index, context))
            } else {
                changed_stream(id, input, header, context.limits)
            },
        }
    }
}

/// What a transform produces.
pub open spec fn joined_streams(
    id: u32,
    inputs: Seq<StreamView>,
    variable: u32,
    dict_index: Option<u32>,
    header: Seq<u8>,
    context: ContextView,
) -> Result<Seq<StreamView>, ErrorView> {
    let limits = context.limits;
    let version = context.version;
    if id == CONCAT_SERIAL_ID || id == CONCAT_NUM_ID || id == CONCAT_STRUCT_ID {
        concat_node(inputs, header, limits)
    } else if id == SPLITN_ID {
        one_bytes(splitn_bytes(inputs, variable, header, limits))
    } else if id == SPLITN_STRUCT_ID || id == SPLITN_NUM_ID {
        one_stream(splitn_node(inputs, variable, header, limits))
    } else if id == SPLIT_BY_STRUCT_ID {
        one_stream(split_by_struct_node(inputs, variable, header, limits))
    } else if id == FLATPACK_ID {
        one_bytes(flatpack_node(inputs, header, limits))
    } else if id == SEPARATE_STRING_COMPONENTS_ID {
        one_stream(separate_string_components_node(inputs, header, limits))
    } else if id == DISPATCH_STRING_ID {
        one_stream(dispatch_string_node(inputs, variable, header, version, limits))
    } else if id == DISPATCH_N_BY_TAG_ID {
        one_bytes(dispatch_n_by_tag_node(inputs, variable, header, version, limits))
    } else if id == SENTINEL_ID {
        one_stream(sentinel_node(inputs, header, limits))
    } else if transpose_split_id(id) {
        one_stream(transpose_split_node(inputs, variable, header, limits))
    } else if id == MUX_LENGTHS_ID {
        mux_lengths_node(inputs, header, limits)
    } else if id == LZ_ID {
        one_bytes(lz_decode(inputs, header, limits, 0))
    } else if id == FIELD_LZ_ID {
        one_stream(field_lz_node(inputs, header, limits))
    } else if id == BIT_SPLIT_ID {
        one_stream(bitsplit_node(inputs, variable, header, limits))
    } else if id == FSE_V2_ID {
        one_bytes(fse_v2_node(inputs, header, limits))
    } else if id == HUFFMAN_V2_ID {
        one_bytes(huffman_v2_node(inputs, header, limits))
    } else if id == PIVCO_HUFFMAN_ID {
        one_bytes(pivco_huffman_node(inputs, header, limits))
    } else if id == QUANTIZE_OFFSETS_ID {
        one_stream(quantize_node(inputs, header, limits, QuantizeTable::Offsets))
    } else if id == QUANTIZE_LENGTHS_ID {
        one_stream(quantize_node(inputs, header, limits, QuantizeTable::Lengths))
    } else if id == PARTITION_ID {
        one_stream(partition_node(inputs, header, limits))
    } else if id == TOKENIZE_FIXED_ID || id == TOKENIZE_NUMERIC_ID {
        one_stream(tokenize_fixed_node(inputs, header, limits))
    } else {
        single_node(id, inputs, dict_index, header, context)
    }
}

/// What a transform produces, where it may have a dictionary.
pub open spec fn standard_node(
    id: u32,
    inputs: Seq<StreamView>,
    variable: u32,
    dict_index: Option<u32>,
    header: Seq<u8>,
    context: ContextView,
) -> Result<Seq<StreamView>, ErrorView> {
    if dict_index is Some && id != ZSTD_ID {
        Err(
            detailed(
                ErrorKind::Unsupported,
                "only zstd dictionary-backed transforms are implemented"@,
            ),
        )
    } else {
        joined_streams(id, inputs, variable, dict_index, header, context)
    }
}

/// Executes a transform that changes one stream.
fn execute_change(
    id: u32,
    input: StreamInput<'_>,
    header: &[u8],
    limits: Limits,
    scratch: &mut DecodeScratch,
) -> (result: Result<NodeOutputs, Error>)
    requires
        old(scratch).well_formed(),
    ensures
        node_outcome(result) == changed_stream(id, input@, header@, limits),
        final(scratch).well_formed(),
{
    if id == CONVERT_STRING_TO_SERIAL_ID {
        one_serial(decode_string_to_serial_node(input, header, limits))
    } else if id == LZ4_ID {
        one_serial(decode_lz4_chunk(input.bytes, header, limits))
    } else if id == BITPACK_SERIAL_ID {
        one_serial(decode_bitpack_serial_chunk(input.bytes, header, limits, scratch))
    } else if id == BITPACK_INT_ID {
        one_typed(decode_bitpack_int_chunk(input.bytes, header, limits, scratch))
    } else if id == CONSTANT_SERIAL_ID {
        one_serial(decode_constant_serial_chunk(input.bytes, header, limits))
    } else if id == CONVERT_SERIAL_TO_STRUCT_ID {
        one_typed(decode_byte_preserving_conversion_chunk(input, header, limits))
    } else if id == CONVERT_STRUCT_TO_SERIAL_ID {
        one_typed(decode_serial_to_struct_chunk(input, header, limits))
    } else if id == CONVERT_STRUCT_TO_NUM_LE_ID || id == CONVERT_NUM_TO_STRUCT_LE_ID {
        one_typed(decode_num_to_struct_le_chunk(input, header, limits))
    } else if id == CONVERT_STRUCT_TO_NUM_BE_ID {
        one_typed(decode_struct_to_num_be_chunk(input, header, limits))
    } else if id == CONVERT_SERIAL_TO_NUM_BE_ID {
        one_typed(decode_serial_to_num_be_chunk(input, header, limits))
    } else if id == CONVERT_SERIAL_TO_NUM_LE_ID {
        one_serial(decode_numeric_to_serial_le_chunk(input, header, limits))
    } else if id == CONVERT_NUM_TO_SERIAL_LE_ID {
        one_typed(decode_serial_to_numeric_le_chunk(input, header, limits))
    } else if id == ZIGZAG_ID {
        one_typed(decode_zigzag_numeric_chunk(input, header, limits))
    } else if id == DELTA_INT_ID {
        one_typed(decode_delta_node(input, header, limits, scratch))
    } else if id == BITUNPACK_ID {
        one_serial(decode_bitunpack_serial8_chunk(input.bytes, header, limits))
    } else if id == RANGE_PACK_ID {
        one_serial(decode_range_pack_serial8_chunk(input.bytes, header, limits))
    } else if id == PARSE_INT_ID {
        one_typed(decode_parse_int_node(input, header, limits))
    } else if id == FSE_NCOUNT_ID {
        one_typed(decode_fse_ncount_node(input, header, limits))
    } else {
        Err(
            fail(
                ErrorKind::Unsupported,
                "standard transform graph execution is not implemented yet",
            ),
        )
    }
}

/// Executes a transform with one input.
fn execute_single_node(
    id: u32,
    inputs: &[StreamInput<'_>],
    dict_index: Option<u32>,
    header: &[u8],
    context: StandardNodeContext<'_>,
    scratch: &mut DecodeScratch,
) -> (result: Result<NodeOutputs, Error>)
    requires
        old(scratch).well_formed(),
        context.dict_store.well_formed(),
    ensures
        node_outcome(result) == single_node(
            id,
            stream_views(inputs@),
            dict_index,
            header@,
            context@,
        ),
        final(scratch).well_formed(),
{
    if !is_single_input(id) {
        return Err(
            fail(
                ErrorKind::Unsupported,
                "standard transform graph execution is not implemented yet",
            ),
        );
    }
    let input = single_stream(inputs)?;
    if id == ZSTD_ID {
        one_serial(decode_zstd_chunk(input.bytes, header, dict_index, context))
    } else {
        execute_change(id, input, header, context.limits, scratch)
    }
}

/// Executes a transform.
fn execute_join(
    id: u32,
    inputs: &[StreamInput<'_>],
    variable: u32,
    dict_index: Option<u32>,
    header: &[u8],
    context: StandardNodeContext<'_>,
    scratch: &mut DecodeScratch,
) -> (result: Result<NodeOutputs, Error>)
    requires
        old(scratch).well_formed(),
        context.dict_store.well_formed(),
    ensures
        node_outcome(result) == joined_streams(
            id,
            stream_views(inputs@),
            variable,
            dict_index,
            header@,
            context@,
        ),
        final(scratch).well_formed(),
{
    let limits = context.limits;
    let version: u32 = context.format_version;
    if id == CONCAT_SERIAL_ID || id == CONCAT_NUM_ID || id == CONCAT_STRUCT_ID {
        many_outputs(decode_concat_node(inputs, header, limits))
    } else if id == SPLITN_ID {
        one_serial(decode_splitn_node(inputs, variable, header, limits))
    } else if id == SPLITN_STRUCT_ID || id == SPLITN_NUM_ID {
        one_typed(decode_splitn_typed_node(inputs, variable, header, limits))
    } else if id == SPLIT_BY_STRUCT_ID {
        one_typed(decode_split_by_struct_node(inputs, variable, header, limits))
    } else if id == FLATPACK_ID {
        one_serial(decode_flatpack_node(inputs, header, limits))
    } else if id == SEPARATE_STRING_COMPONENTS_ID {
        one_typed(decode_separate_string_components_node(inputs, header, limits))
    } else if id == DISPATCH_STRING_ID {
        one_typed(decode_dispatch_string_node(inputs, variable, header, version, limits))
    } else if id == DISPATCH_N_BY_TAG_ID {
        one_serial(decode_dispatch_n_by_tag_node(inputs, variable, header, version, limits))
    } else if id == SENTINEL_ID {
        one_typed(decode_sentinel_node(inputs, header, limits))
    } else if is_transpose_split(id) {
        one_typed(decode_transpose_split_node(inputs, variable, header, limits, scratch))
    } else if id == MUX_LENGTHS_ID {
        many_outputs(decode_mux_lengths_node(inputs, header, limits))
    } else if id == LZ_ID {
        one_serial(decode_lz_node(inputs, header, limits))
    } else if id == FIELD_LZ_ID {
        one_typed(decode_field_lz_node(inputs, header, limits, scratch))
    } else if id == BIT_SPLIT_ID {
        one_typed(decode_bitsplit_node(inputs, variable, header, limits))
    } else if id == FSE_V2_ID {
        one_serial(decode_fse_v2_node(inputs, header, limits))
    } else if id == HUFFMAN_V2_ID {
        one_serial(decode_huffman_v2_node(inputs, header, limits))
    } else if id == PIVCO_HUFFMAN_ID {
        one_serial(decode_pivco_huffman_node(inputs, header, limits))
    } else if id == QUANTIZE_OFFSETS_ID {
        one_typed(decode_quantize_node(inputs, header, limits, QuantizeTable::Offsets))
    } else if id == QUANTIZE_LENGTHS_ID {
        one_typed(decode_quantize_node(inputs, header, limits, QuantizeTable::Lengths))
    } else if id == PARTITION_ID {
        one_typed(decode_partition_node(inputs, header, limits))
    } else if id == TOKENIZE_FIXED_ID || id == TOKENIZE_NUMERIC_ID {
        one_typed(decode_tokenize_fixed_node(inputs, header, limits))
    } else {
        execute_single_node(id, inputs, dict_index, header, context, scratch)
    }
}

/// Executes a transform, which may have a dictionary.
pub fn execute_standard_node(
    standard_id: u32,
    inputs: &[StreamInput<'_>],
    variable_inputs: u32,
    dict_index: Option<u32>,
    header: &[u8],
    context: StandardNodeContext<'_>,
    scratch: &mut DecodeScratch,
) -> (result: Result<NodeOutputs, Error>)
    requires
        old(scratch).well_formed(),
        context.dict_store.well_formed(),
    ensures
        node_outcome(result) == standard_node(
            standard_id,
            stream_views(inputs@),
            variable_inputs,
            dict_index,
            header@,
            context@,
        ),
        final(scratch).well_formed(),
{
    if dict_index.is_some() && standard_id != ZSTD_ID {
        return Err(
            fail(
                ErrorKind::Unsupported,
                "only zstd dictionary-backed transforms are implemented",
            ),
        );
    }
    execute_join(
        standard_id,
        inputs,
        variable_inputs,
        dict_index,
        header,
        context,
        scratch,
    )
}

/// A transform that names a dictionary of a bundle that is not loaded is refused.
pub proof fn law_missing_bundle_is_refused(
    stored: Seq<u8>,
    header: Seq<u8>,
    index: u32,
    context: ContextView,
)
    requires
        context.bundle_id is Some,
        !context.store.contains_key(context.bundle_id->Some_0),
    ensures
        zstd_node(stored, header, Some(index), context) is Err,
{
}

} // verus!
