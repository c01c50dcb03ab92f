//! Which transform each number stands for.

use vstd::prelude::*;

use crate::bitsplit::bitsplit_node;
use crate::codecs::lz4_node;
use crate::concat::concat_node;
use crate::conversions::{serial_to_num_be_node, struct_to_num_be_node};
use crate::dispatch::{dispatch_n_by_tag_node, dispatch_string_node};
use crate::error::ErrorView;
use crate::execute::step_outputs;
use crate::field_lz::field_lz_node;
use crate::flatpack::flatpack_node;
use crate::fse::{fse_ncount_node, fse_v2_node};
use crate::graph::{planned_input_count, StepView};
use crate::huffman::huffman_v2_node;
use crate::limits::Limits;
use crate::lz::lz_decode;
use crate::mux_lengths::mux_lengths_node;
use crate::nodes::{changed_stream, joined_streams, standard_node, zstd_node, ContextView};
use crate::numeric::{
    bitpack_int_node, bitpack_serial_node, bitunpack_node, constant_serial_node, delta_node,
    range_pack_node, zigzag_node,
};
use crate::parse_int::parse_int_node;
use crate::partition::{partition_node, quantize_node, QuantizeTable};
use crate::pivco_huffman::pivco_huffman_node;
use crate::sentinel::sentinel_node;
use crate::sparse_num::sparse_num_node;
use crate::split_struct::split_by_struct_node;
use crate::splitn::{splitn_bytes, splitn_node};
use crate::stream::{typed_stream, StreamView};
use crate::strings::{separate_string_components_node, string_to_serial_node};
use crate::tokenize::tokenize_fixed_node;
use crate::transpose::transpose_split_node;

verus! {

/// Whether a transform that gives one stream gives what was made.
pub open spec fn gives_stream(
    result: Result<Seq<StreamView>, ErrorView>,
    made: Result<StreamView, ErrorView>,
) -> bool {
    match made {
        Err(error) => result == Err::<Seq<StreamView>, ErrorView>(error),
        Ok(stream) => result is Ok && result->Ok_0.len() == 1 && result->Ok_0[0] == stream,
    }
}

/// Whether a transform that gives one stream of bytes gives what was made.
pub open spec fn gives_bytes(
    result: Result<Seq<StreamView>, ErrorView>,
    made: Result<Seq<u8>, ErrorView>,
) -> bool {
    match made {
        Err(error) => result == Err::<Seq<StreamView>, ErrorView>(error),
        Ok(bytes) => result is Ok && result->Ok_0.len() == 1 && result->Ok_0[0] == typed_stream(
            bytes,
            1,
        ),
    }
}

/// The numbers of the transforms that change one stream.
pub proof fn law_changes_have_their_numbers(input: StreamView, header: Seq<u8>, limits: Limits)
    ensures
        gives_stream(changed_stream(1, input, header, limits), delta_node(input, header, limits)),
        gives_stream(changed_stream(3, input, header, limits), zigzag_node(input, header, limits)),
        gives_bytes(
            changed_stream(11, input, header, limits),
            string_to_serial_node(input, header, limits),
        ),
        gives_stream(
            changed_stream(13, input, header, limits),
            struct_to_num_be_node(input, header, limits),
        ),
        gives_stream(
            changed_stream(14, input, header, limits),
            serial_to_num_be_node(input, header, limits),
        ),
        gives_bytes(
            changed_stream(27, input, header, limits),
            bitpack_serial_node(input.bytes, header, limits),
        ),
        gives_stream(
            changed_stream(28, input, header, limits),
            bitpack_int_node(input.bytes, header, limits),
        ),
        gives_bytes(
            changed_stream(34, input, header, limits),
            bitunpack_node(input.bytes, header, limits),
        ),
        gives_bytes(
            changed_stream(35, input, header, limits),
            range_pack_node(input.bytes, header, limits),
        ),
        gives_bytes(
            changed_stream(44, input, header, limits),
            constant_serial_node(input.bytes, header, limits),
        ),
        gives_stream(
            changed_stream(52, input, header, limits),
            fse_ncount_node(input, header, limits),
        ),
        gives_stream(
            changed_stream(60, input, header, limits),
            parse_int_node(input, header, limits),
        ),
        gives_bytes(
            changed_stream(62, input, header, limits),
            lz4_node(input.bytes, header, limits),
        ),
{
}

/// The numbers of the transforms that make one stream out of several.
#[verifier::rlimit(40)]
pub proof fn law_joining_transforms_have_their_numbers(
    inputs: Seq<StreamView>,
    variable: u32,
    header: Seq<u8>,
    context: ContextView,
)
    ensures
        gives_stream(
            joined_streams(12, inputs, variable, None, header, context),
            separate_string_components_node(inputs, header, context.limits),
        ),
        gives_stream(
            joined_streams(18, inputs, variable, None, header, context),
            sentinel_node(inputs, header, context.limits),
        ),
        gives_bytes(
            joined_streams(19, inputs, variable, None, header, context),
            lz_decode(inputs, header, context.limits, 0),
        ),
        gives_stream(
            joined_streams(24, inputs, variable, None, header, context),
            field_lz_node(inputs, header, context.limits),
        ),
        gives_stream(
            joined_streams(25, inputs, variable, None, header, context),
            quantize_node(inputs, header, context.limits, QuantizeTable::Offsets),
        ),
        gives_stream(
            joined_streams(26, inputs, variable, None, header, context),
            quantize_node(inputs, header, context.limits, QuantizeTable::Lengths),
        ),
        gives_bytes(
            joined_streams(29, inputs, variable, None, header, context),
            flatpack_node(inputs, header, context.limits),
        ),
        forall|id: u32|
            id == 4 || id == 30 || id == 31 || id == 32 ==> gives_stream(
                #[trigger] joined_streams(id, inputs, variable, None, header, context),
                transpose_split_node(inputs, variable, header, context.limits),
            ),
        forall|id: u32|
            id == 36 || id == 37 ==> gives_stream(
                #[trigger] joined_streams(id, inputs, variable, None, header, context),
                tokenize_fixed_node(inputs, header, context.limits),
            ),
        gives_bytes(
            joined_streams(40, inputs, variable, None, header, context),
            splitn_bytes(inputs, variable, header, context.limits),
        ),
        forall|id: u32|
            id == 47 || id == 48 ==> gives_stream(
                #[trigger] joined_streams(id, inputs, variable, None, header, context),
                splitn_node(inputs, variable, header, context.limits),
            ),
        gives_stream(
            joined_streams(41, inputs, variable, None, header, context),
            split_by_struct_node(inputs, variable, header, context.limits),
        ),
        gives_bytes(
            joined_streams(42, inputs, variable, None, header, context),
            dispatch_n_by_tag_node(inputs, variable, header, context.version, context.limits),
        ),
        gives_bytes(
            joined_streams(49, inputs, variable, None, header, context),
            fse_v2_node(inputs, header, context.limits),
        ),
        gives_bytes(
            joined_streams(50, inputs, variable, None, header, context),
            huffman_v2_node(inputs, header, context.limits),
        ),
        gives_stream(
            joined_streams(54, inputs, variable, None, header, context),
            dispatch_string_node(inputs, variable, header, context.version, context.limits),
        ),
        forall|id: u32|
            id == 55 || id == 57 || id == 58 ==> #[trigger] joined_streams(
                id,
                inputs,
                variable,
                None,
                header,
                context,
            ) == concat_node(inputs, header, context.limits),
        gives_stream(
            joined_streams(63, inputs, variable, None, header, context),
            bitsplit_node(inputs, variable, header, context.limits),
        ),
        gives_stream(
            joined_streams(64, inputs, variable, None, header, context),
            partition_node(inputs, header, context.limits),
        ),
        joined_streams(65, inputs, variable, None, header, context) == mux_lengths_node(
            inputs,
            header,
            context.limits,
        ),
        gives_bytes(
            joined_streams(67, inputs, variable, None, header, context),
            pivco_huffman_node(inputs, header, context.limits),
        ),
{
}

/// The number of the zstd transform, and what it is given.
pub proof fn law_zstd_has_its_number(
    input: StreamView,
    variable: u32,
    dict_index: Option<u32>,
    header: Seq<u8>,
    context: ContextView,
)
    ensures
        gives_bytes(
            standard_node(22, seq![input], variable, dict_index, header, context),
            zstd_node(input.bytes, header, dict_index, context),
        ),
{
}

/// The number of the sparse_num transform.
pub proof fn law_sparse_num_has_its_number(
    step: StepView,
    inputs: Seq<StreamView>,
    header: Seq<u8>,
    context: ContextView,
)
    requires
        step.standard_id == 66,
    ensures
        gives_stream(
            step_outputs(step, inputs, header, context),
            sparse_num_node(inputs, header, context.limits),
        ),
{
}

/// Transforms have as many inputs as they read, beyond those that the frame states.
pub proof fn law_transforms_have_their_inputs(id: u32, stated: u32)
    requires
        stated as nat + 8 <= usize::MAX,
    ensures
        id == 40 || id == 41 || id == 47 || id == 48 || id == 63 || id == 4
            ==> planned_input_count(id, stated as nat) == Ok::<nat, ErrorView>(stated as nat),
        id == 1 || id == 3 || id == 22 || id == 27 || id == 28 || id == 34 || id == 35 || id == 44
            || id == 52 || id == 54 || id == 60 || id == 62 ==> planned_input_count(
            id,
            stated as nat,
        ) == Ok::<nat, ErrorView>((stated + 1) as nat),
        id == 12 || id == 18 || id == 25 || id == 26 || id == 29 || id == 30 || id == 36 || id == 37
            || id == 42 || id == 49 || id == 50 || id == 55 || id == 57 || id == 58 || id == 64
            || id == 65 || id == 66 || id == 67 ==> planned_input_count(id, stated as nat) == Ok::<
            nat,
            ErrorView,
        >((stated + 2) as nat),
        id == 19 || id == 31 ==> planned_input_count(id, stated as nat) == Ok::<nat, ErrorView>(
            (stated + 4) as nat,
        ),
        id == 24 ==> planned_input_count(id, stated as nat) == Ok::<nat, ErrorView>(
            (stated + 5) as nat,
        ),
        id == 32 ==> planned_input_count(id, stated as nat) == Ok::<nat, ErrorView>(
            (stated + 8) as nat,
        ),
{
}

} // verus!
