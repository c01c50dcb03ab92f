//! Decoding a chunk to the end of an output buffer.

use vstd::prelude::*;
use vstd::slice::slice_subrange;

use crate::bytes::append_bytes;
use crate::conversions::{byte_preserving_conversion_output_width, conversion_output_width};
use crate::direct_append::{
    direct_append_tail, direct_tail, DirectAppendKind, DirectAppendTail,
};
use crate::dispatch::{decode_dispatch_string_node_to_serial_output, dispatch_string_serial};
use crate::error::{detailed, error_of, fail, plain, same_or_overflow, Error, ErrorKind, ErrorView};
use crate::execute::{chunk_opened, execute_steps, steps_run};
use crate::field_lz::{
    decode_field_lz_node_to_output, field_lz_decode, law_field_lz_ignores_earlier_bytes,
    law_field_lz_only_overflows,
};
use crate::frame_plan::{ChunkPlan, ChunkView};
use crate::graph::{
    step_views, target_slice, ChunkExecutionPlan, NodeExecutionPlan, PlanView, StepView,
};
use crate::limits::{check_output_limit, output_limit_error, Limits};
use crate::lz::{
    decode_lz_node_to_output, law_lz_ignores_earlier_bytes, law_lz_length_is_declared,
    law_lz_only_overflows, lz_decode,
};
use crate::nodes::{
    decode_zstd_chunk_to_output, single, single_stream, zstd_node, ContextView, StandardNodeContext,
};
use crate::scratch::DecodeScratch;
use crate::slots::{
    collect_node_inputs, initialize_stream_slots, input_slice, node_header, node_inputs,
    slot_views, step_header, Slots, StreamSlot,
};
use crate::split_struct::{
    append_split_by_struct_output, lemma_weave_rows, split_by_struct_output_len, struct_output_len,
    weave_behind,
};
use crate::standard::CONVERT_STRING_TO_SERIAL_ID;
use crate::stream::{stream_views, typed_stream, StreamInput, StreamView};

verus! {

/// The error, if any, of converting bytes of an element width by the transforms from
/// `index` on.
pub open spec fn conversion_tail_error(
    steps: Seq<StepView>,
    index: nat,
    headers: Seq<u8>,
    width: nat,
    bytes: Seq<u8>,
    limits: Limits,
) -> Option<ErrorView>
    decreases steps.len() - index,
{
    if index >= steps.len() {
        None
    } else {
        let step = steps[index as int];
        match step_header(headers, step.header_start as nat, step.header_size as nat) {
            Err(error) => Some(error),
            Ok(header) => match conversion_output_width(
                step.standard_id,
                step.input_count as nat,
                typed_stream(bytes, width),
                header,
                limits,
            ) {
                Err(error) => Some(error),
                Ok(None) => Some(
                    detailed(
                        ErrorKind::InvalidGraph,
                        "direct-append tail contains a non-conversion node"@,
                    ),
                ),
                Ok(Some(width)) => conversion_tail_error(
                    steps,
                    index + 1,
                    headers,
                    width,
                    bytes,
                    limits,
                ),
            },
        }
    }
}

/// Bytes of an element width behind the conversions from `index` on.
pub open spec fn converted_tail(
    bytes: Result<Seq<u8>, ErrorView>,
    steps: Seq<StepView>,
    index: nat,
    headers: Seq<u8>,
    width: nat,
    limits: Limits,
) -> Result<Seq<u8>, ErrorView> {
    match bytes {
        Err(error) => Err(error),
        Ok(bytes) => match conversion_tail_error(steps, index, headers, width, bytes, limits) {
            Some(error) => Err(error),
            None => Ok(bytes),
        },
    }
}

/// The error, if any, of the last transform, which writes strings as bytes.
pub open spec fn string_tail_error(steps: Seq<StepView>, index: nat, headers: Seq<u8>) -> Option<
    ErrorView,
> {
    let malformed = detailed(ErrorKind::InvalidGraph, "direct string append tail is malformed"@);
    if steps.len() != index + 1 {
        Some(malformed)
    } else {
        let step = steps[index as int];
        match step_header(headers, step.header_start as nat, step.header_size as nat) {
            Err(error) => Some(error),
            Ok(header) => if step.standard_id != CONVERT_STRING_TO_SERIAL_ID || header.len() != 0 {
                Some(malformed)
            } else {
                None
            },
        }
    }
}

/// The size of a stream that is joined last: of the woven structures, or of what is in
/// its place.
pub open spec fn joined_len(slots: Slots, columns: Seq<StreamView>, woven: int, index: int) -> Result<
    nat,
    ErrorView,
> {
    if index == woven {
        match struct_output_len(columns) {
            Err(error) => Err(error),
            Ok(len) => Ok(len as nat),
        }
    } else if index >= slots.len() {
        Err(detailed(ErrorKind::InvalidGraph, "node input range is out of bounds"@))
    } else {
        match slots[index] {
            None => Err(detailed(ErrorKind::InvalidGraph, "node input stream is missing"@)),
            Some(stream) => Ok(stream.bytes.len()),
        }
    }
}

/// The size of the streams from `start` up to `end`, which are joined last one first,
/// behind `total` bytes.
pub open spec fn joined_total(
    slots: Slots,
    columns: Seq<StreamView>,
    woven: int,
    start: nat,
    end: nat,
    total: nat,
) -> Result<nat, ErrorView>
    decreases end,
{
    if end <= start {
        Ok(total)
    } else {
        match joined_len(slots, columns, woven, end - 1) {
            Err(error) => Err(error),
            Ok(len) => if total + len > usize::MAX {
                Err(plain(ErrorKind::IntegerOverflow))
            } else {
                joined_total(slots, columns, woven, start, (end - 1) as nat, total + len)
            },
        }
    }
}

/// The bytes of the streams from `start` up to `end`, last one first, behind `output`,
/// in front of which stand `base` bytes.
pub open spec fn joined_streams_behind(
    slots: Slots,
    columns: Seq<StreamView>,
    woven: int,
    start: nat,
    end: nat,
    limits: Limits,
    base: nat,
    output: Seq<u8>,
) -> Result<Seq<u8>, ErrorView>
    decreases end,
{
    if end <= start {
        Ok(output)
    } else {
        let index = end - 1;
        match (if index == woven {
            weave_behind(columns, limits, base + output.len())
        } else {
            Ok(slots[index]->Some_0.bytes)
        }) {
            Err(error) => Err(error),
            Ok(bytes) => joined_streams_behind(
                slots,
                columns,
                woven,
                start,
                index as nat,
                limits,
                base,
                output + bytes,
            ),
        }
    }
}

/// Woven structures joined with other streams, behind `base` bytes.
pub open spec fn joined_structs(
    slots: Slots,
    columns: Seq<StreamView>,
    steps: Seq<StepView>,
    index: nat,
    headers: Seq<u8>,
    limits: Limits,
    base: nat,
) -> Result<Seq<u8>, ErrorView> {
    if steps.len() != index + 2 {
        Err(detailed(ErrorKind::InvalidGraph, "direct split_by_struct tail is malformed"@))
    } else {
        let step = steps[index as int];
        let last = steps[index as int + 1];
        let start = last.input_start as nat;
        let end = start + last.input_count as nat;
        match step_header(headers, last.header_start as nat, last.header_size as nat) {
            Err(error) => Err(error),
            Ok(header) => if header.len() != 0 {
                Err(detailed(ErrorKind::Unsupported, "splitn headers are unsupported"@))
            } else if step.targets.len() != 1 {
                Err(
                    detailed(
                        ErrorKind::InvalidGraph,
                        "split_by_struct output count does not match graph"@,
                    ),
                )
            } else if end > usize::MAX {
                Err(plain(ErrorKind::IntegerOverflow))
            } else {
                let woven = step.targets[0] as int;
                match joined_total(slots, columns, woven, start, end, 0) {
                    Err(error) => Err(error),
                    Ok(total) => if !limits.admits(total as int) {
                        Err(output_limit_error())
                    } else {
                        joined_streams_behind(
                            slots,
                            columns,
                            woven,
                            start,
                            end,
                            limits,
                            base,
                            Seq::empty(),
                        )
                    },
                }
            },
        }
    }
}

/// What the last transforms of a chunk write behind `base` bytes.
pub open spec fn tail_decoded(
    tail: DirectAppendTail,
    slots: Slots,
    inputs: Seq<StreamView>,
    header: Seq<u8>,
    steps: Seq<StepView>,
    headers: Seq<u8>,
    context: ContextView,
    base: nat,
) -> Result<Seq<u8>, ErrorView> {
    let next = tail.start as nat + 1;
    let step = steps[tail.start as int];
    let limits = context.limits;
    match tail.kind {
        DirectAppendKind::Lz => converted_tail(
            lz_decode(inputs, header, limits, base),
            steps,
            next,
            headers,
            1,
            limits,
        ),
        DirectAppendKind::FieldLz => converted_tail(
            field_lz_decode(inputs, header, limits, base),
            steps,
            next,
            headers,
            inputs[0].element_width,
            limits,
        ),
        DirectAppendKind::Zstd => converted_tail(
            match single(inputs) {
                Err(error) => Err(error),
                Ok(input) => zstd_node(input.bytes, header, step.dict_index, context),
            },
            steps,
            next,
            headers,
            1,
            limits,
        ),
        DirectAppendKind::DispatchStringToSerial => match dispatch_string_serial(
            inputs,
            step.variable_inputs,
            header,
            context.version,
            limits,
        ) {
            Err(error) => Err(error),
            Ok(bytes) => match string_tail_error(steps, next, headers) {
                Some(error) => Err(error),
                None => Ok(bytes),
            },
        },
        DirectAppendKind::SplitByStructToSplitN => joined_structs(
            slots,
            inputs,
            steps,
            tail.start as nat,
            headers,
            limits,
            base,
        ),
    }
}

/// What a chunk that can write to the output directly decodes to behind `base` bytes.
pub open spec fn chunk_appended(
    input: Seq<u8>,
    chunk: ChunkView,
    plan: PlanView,
    context: ContextView,
    base: nat,
) -> Result<Seq<u8>, ErrorView> {
    match direct_tail(plan) {
        None => Err(detailed(ErrorKind::InvalidGraph, "chunk is not direct-appendable"@)),
        Some(tail) => match chunk_opened(input, chunk, plan) {
            Err(error) => Err(error),
            Ok((slots, headers)) => match steps_run(
                slots,
                plan.steps,
                0,
                tail.start as nat,
                headers,
                context,
            ) {
                Err(error) => Err(error),
                Ok(slots) => {
                    let step = plan.steps[tail.start as int];
                    match step_header(headers, step.header_start as nat, step.header_size as nat) {
                        Err(error) => Err(error),
                        Ok(header) => match node_inputs(
                            slots,
                            step.input_start as nat,
                            step.input_count as nat,
                        ) {
                            Err(error) => Err(error),
                            Ok(inputs) => tail_decoded(
                                tail,
                                slots,
                                inputs,
                                header,
                                plan.steps,
                                headers,
                                context,
                                base,
                            ),
                        },
                    }
                },
            },
        },
    }
}

/// A sum of sizes holds what it starts with.
proof fn lemma_joined_total_grows(
    slots: Slots,
    columns: Seq<StreamView>,
    woven: int,
    start: nat,
    end: nat,
    total: nat,
)
    ensures
        joined_total(slots, columns, woven, start, end, total) matches Ok(sum) ==> sum >= total,
    decreases end,
{
    if end > start {
        match joined_len(slots, columns, woven, end - 1) {
            Err(_) => {},
            Ok(len) => {
                lemma_joined_total_grows(
                    slots,
                    columns,
                    woven,
                    start,
                    (end - 1) as nat,
                    total + len,
                );
            },
        }
    }
}

proof fn lemma_joined_base(
    slots: Slots,
    columns: Seq<StreamView>,
    woven: int,
    start: nat,
    end: nat,
    limits: Limits,
    base: nat,
    other: nat,
    output: Seq<u8>,
)
    requires
        joined_total(slots, columns, woven, start, end, output.len()) is Ok,
        joined_streams_behind(slots, columns, woven, start, end, limits, base, output) is Ok,
        other <= base || other + joined_total(
            slots,
            columns,
            woven,
            start,
            end,
            output.len(),
        )->Ok_0 <= usize::MAX,
    ensures
        joined_streams_behind(slots, columns, woven, start, end, limits, other, output)
            == joined_streams_behind(slots, columns, woven, start, end, limits, base, output),
    decreases end,
{
    if end > start {
        let index = end - 1;
        let len = joined_len(slots, columns, woven, index)->Ok_0;
        lemma_joined_total_grows(
            slots,
            columns,
            woven,
            start,
            index as nat,
            output.len() + len,
        );
        let bytes = if index == woven {
            lemma_weave_rows(columns, limits);
            weave_behind(columns, limits, base + output.len())->Ok_0
        } else {
            slots[index]->Some_0.bytes
        };
        assert(bytes.len() == len);
        lemma_joined_base(
            slots,
            columns,
            woven,
            start,
            index as nat,
            limits,
            base,
            other,
            output + bytes,
        );
    }
}

/// What a chunk decodes to does not depend on how many bytes stand in front of it, as
/// long as the largest admitted output fits behind them.
pub proof fn law_chunk_ignores_earlier_bytes(
    input: Seq<u8>,
    chunk: ChunkView,
    plan: PlanView,
    context: ContextView,
    base: nat,
    other: nat,
)
    requires
        chunk_appended(input, chunk, plan, context, base) is Ok,
        other <= base || other + context.limits.max_decoded_bytes <= usize::MAX,
    ensures
        chunk_appended(input, chunk, plan, context, other) == chunk_appended(
            input,
            chunk,
            plan,
            context,
            base,
        ),
{
    let tail = direct_tail(plan)->Some_0;
    let (opened, headers) = chunk_opened(input, chunk, plan)->Ok_0;
    let slots = steps_run(opened, plan.steps, 0, tail.start as nat, headers, context)->Ok_0;
    let step = plan.steps[tail.start as int];
    let header = step_header(headers, step.header_start as nat, step.header_size as nat)->Ok_0;
    let inputs = node_inputs(slots, step.input_start as nat, step.input_count as nat)->Ok_0;
    let limits = context.limits;
    match tail.kind {
        DirectAppendKind::Lz => {
            law_lz_length_is_declared(inputs, header, limits, base);
            law_lz_ignores_earlier_bytes(inputs, header, limits, base, other);
        },
        DirectAppendKind::FieldLz => {
            law_field_lz_ignores_earlier_bytes(inputs, header, limits, base, other);
        },
        DirectAppendKind::SplitByStructToSplitN => {
            let last = plan.steps[tail.start as int + 1];
            let start = last.input_start as nat;
            lemma_joined_base(
                slots,
                inputs,
                step.targets[0] as int,
                start,
                start + last.input_count as nat,
                limits,
                base,
                other,
                Seq::empty(),
            );
        },
        _ => {},
    }
}

proof fn lemma_joined_overflow(
    slots: Slots,
    columns: Seq<StreamView>,
    woven: int,
    start: nat,
    end: nat,
    limits: Limits,
    fewer: nat,
    more: nat,
    output: Seq<u8>,
)
    requires
        fewer <= more,
    ensures
        same_or_overflow(
            joined_streams_behind(slots, columns, woven, start, end, limits, fewer, output),
            joined_streams_behind(slots, columns, woven, start, end, limits, more, output),
        ),
    decreases end,
{
    if end > start {
        let index = end - 1;
        let next = if index == woven {
            weave_behind(columns, limits, fewer + output.len())
        } else {
            Ok(slots[index]->Some_0.bytes)
        };
        if let Ok(bytes) = next {
            lemma_joined_overflow(
                slots,
                columns,
                woven,
                start,
                index as nat,
                limits,
                fewer,
                more,
                output + bytes,
            );
        }
    }
}

/// More bytes in front of a chunk change what it comes to only where a size no longer
/// fits.
pub proof fn law_chunk_only_overflows(
    input: Seq<u8>,
    chunk: ChunkView,
    plan: PlanView,
    context: ContextView,
    fewer: nat,
    more: nat,
)
    requires
        fewer <= more,
    ensures
        same_or_overflow(
            chunk_appended(input, chunk, plan, context, fewer),
            chunk_appended(input, chunk, plan, context, more),
        ),
{
    if let Some(tail) = direct_tail(plan) {
        if let Ok((opened, headers)) = chunk_opened(input, chunk, plan) {
            if let Ok(slots) = steps_run(
                opened,
                plan.steps,
                0,
                tail.start as nat,
                headers,
                context,
            ) {
                let step = plan.steps[tail.start as int];
                if let Ok(header) = step_header(
                    headers,
                    step.header_start as nat,
                    step.header_size as nat,
                ) {
                    if let Ok(inputs) = node_inputs(
                        slots,
                        step.input_start as nat,
                        step.input_count as nat,
                    ) {
                        lemma_tail_overflow(
                            tail,
                            slots,
                            inputs,
                            header,
                            plan.steps,
                            headers,
                            context,
                            fewer,
                            more,
                        );
                    }
                }
            }
        }
    }
}

proof fn lemma_tail_overflow(
    tail: DirectAppendTail,
    slots: Slots,
    inputs: Seq<StreamView>,
    header: Seq<u8>,
    steps: Seq<StepView>,
    headers: Seq<u8>,
    context: ContextView,
    fewer: nat,
    more: nat,
)
    requires
        fewer <= more,
    ensures
        same_or_overflow(
            tail_decoded(tail, slots, inputs, header, steps, headers, context, fewer),
            tail_decoded(tail, slots, inputs, header, steps, headers, context, more),
        ),
{
    let limits = context.limits;
    match tail.kind {
        DirectAppendKind::Lz => {
            law_lz_only_overflows(inputs, header, limits, fewer, more);
        },
        DirectAppendKind::FieldLz => {
            law_field_lz_only_overflows(inputs, header, limits, fewer, more);
        },
        DirectAppendKind::SplitByStructToSplitN => {
            let last = steps[tail.start as int + 1];
            let start = last.input_start as nat;
            lemma_joined_overflow(
                slots,
                inputs,
                steps[tail.start as int].targets[0] as int,
                start,
                start + last.input_count as nat,
                limits,
                fewer,
                more,
                Seq::empty(),
            );
        },
        _ => {},
    }
}

/// A call that appends what `decoded` says to a buffer, or fails as `decoded` says and
/// leaves everything that was in the buffer in front of whatever it has written.
pub open spec fn extends(
    decoded: Result<Seq<u8>, ErrorView>,
    before: Seq<u8>,
    after: Seq<u8>,
    error: Option<ErrorView>,
) -> bool {
    match decoded {
        Ok(bytes) => error is None && after == before + bytes,
        Err(failure) => error == Some(failure) && before.is_prefix_of(after),
    }
}

/// Checks the conversions behind bytes that were written already.
fn validate_direct_append_tail(
    nodes: &Vec<NodeExecutionPlan>,
    start: usize,
    headers: &[u8],
    element_width: usize,
    bytes: &[u8],
    limits: Limits,
    Ghost(steps): Ghost<Seq<StepView>>,
) -> (result: Result<(), Error>)
    requires
        start <= nodes@.len(),
        steps == step_views(nodes@),
    ensures
        match result {
            Ok(_) => conversion_tail_error(
                steps,
                start as nat,
                headers@,
                element_width as nat,
                bytes@,
                limits,
            ) is None,
            Err(error) => conversion_tail_error(
                steps,
                start as nat,
                headers@,
                element_width as nat,
                bytes@,
                limits,
            ) == Some(error@),
        },
{
    let mut width: usize = element_width;
    let mut index: usize = start;
    let ghost total = conversion_tail_error(
        steps,
        start as nat,
        headers@,
        element_width as nat,
        bytes@,
        limits,
    );
    while index < nodes.len()
        invariant
            index <= nodes@.len(),
            steps == step_views(nodes@),
            total == conversion_tail_error(
                steps,
                start as nat,
                headers@,
                element_width as nat,
                bytes@,
                limits,
            ),
            total == conversion_tail_error(
                steps,
                index as nat,
                headers@,
                width as nat,
                bytes@,
                limits,
            ),
        decreases nodes@.len() - index,
    {
        let node: &NodeExecutionPlan = &nodes[index];
        proof {
            assert(steps[index as int] == node@);
        }
        let header = node_header(headers, node.header_start, node.header_size)?;
        let input = StreamInput { bytes, element_width: width, string_lengths: None };
        match byte_preserving_conversion_output_width(
            node.standard_id,
            node.input_count,
            input,
            header,
            limits,
        )? {
            None => {
                return Err(
                    fail(
                        ErrorKind::InvalidGraph,
                        "direct-append tail contains a non-conversion node",
                    ),
                );
            },
            Some(next) => {
                width = next;
            },
        }
        index = index + 1;
    }
    Ok(())
}

/// Checks the last transform, which writes strings as bytes.
fn validate_string_to_serial_tail(
    nodes: &Vec<NodeExecutionPlan>,
    start: usize,
    headers: &[u8],
    Ghost(steps): Ghost<Seq<StepView>>,
) -> (result: Result<(), Error>)
    requires
        start <= nodes@.len(),
        steps == step_views(nodes@),
    ensures
        match result {
            Ok(_) => string_tail_error(steps, start as nat, headers@) is None,
            Err(error) => string_tail_error(steps, start as nat, headers@) == Some(error@),
        },
{
    if nodes.len() - start != 1 {
        return Err(fail(ErrorKind::InvalidGraph, "direct string append tail is malformed"));
    }
    let node: &NodeExecutionPlan = &nodes[start];
    proof {
        assert(steps[start as int] == node@);
    }
    let header = node_header(headers, node.header_start, node.header_size)?;
    if node.standard_id != CONVERT_STRING_TO_SERIAL_ID || header.len() != 0 {
        return Err(fail(ErrorKind::InvalidGraph, "direct string append tail is malformed"));
    }
    Ok(())
}

/// Finds the size of a stream that is joined last.
fn find_joined_len(
    slots: &Vec<StreamSlot<'_>>,
    columns: &[StreamInput<'_>],
    woven: usize,
    index: usize,
) -> (result: Result<usize, Error>)
    ensures
        match joined_len(slot_views(slots@), stream_views(columns@), woven as int, index as int) {
            Ok(len) => result is Ok && result->Ok_0 == len,
            Err(error) => result is Err && result->Err_0@ == error,
        },
{
    if index == woven {
        return split_by_struct_output_len(columns);
    }
    if index >= slots.len() {
        return Err(fail(ErrorKind::InvalidGraph, "node input range is out of bounds"));
    }
    proof {
        assert(slot_views(slots@)[index as int] == slots@[index as int]@);
    }
    let input = slots[index].as_input()?;
    proof {
        assert(input.bytes@.len() == input.bytes.len());
    }
    Ok(input.bytes.len())
}

/// Whether each stream from `start` up to `end`, other than the woven one, is there.
pub open spec fn joined_present(slots: Slots, woven: int, start: int, end: int) -> bool {
    forall|i: int|
        start <= i < end && i != woven ==> i < slots.len() && (#[trigger] slots[i]) is Some
}

/// Appends woven structures joined with other streams.
fn append_split_by_struct_to_final_splitn(
    slots: &Vec<StreamSlot<'_>>,
    columns: &[StreamInput<'_>],
    nodes: &Vec<NodeExecutionPlan>,
    index: usize,
    headers: &[u8],
    limits: Limits,
    output: &mut Vec<u8>,
    Ghost(steps): Ghost<Seq<StepView>>,
) -> (result: Result<(), Error>)
    requires
        index < nodes@.len(),
        steps == step_views(nodes@),
    ensures
        extends(
            joined_structs(
                slot_views(slots@),
                stream_views(columns@),
                steps,
                index as nat,
                headers@,
                limits,
                old(output)@.len(),
            ),
            old(output)@,
            final(output)@,
            error_of(result),
        ),
{
    let ghost views = slot_views(slots@);
    let ghost column_views = stream_views(columns@);
    let ghost base = output@.len();
    let ghost before = output@;
    if nodes.len() - index != 2 {
        return Err(fail(ErrorKind::InvalidGraph, "direct split_by_struct tail is malformed"));
    }
    let node: &NodeExecutionPlan = &nodes[index];
    let last: &NodeExecutionPlan = &nodes[index + 1];
    proof {
        assert(steps[index as int] == node@);
        assert(steps[index + 1] == last@);
    }
    let header = node_header(headers, last.header_start, last.header_size)?;
    if header.len() != 0 {
        return Err(fail(ErrorKind::Unsupported, "splitn headers are unsupported"));
    }
    let targets = target_slice(&node.output_targets);
    if targets.len() != 1 {
        return Err(
            fail(ErrorKind::InvalidGraph, "split_by_struct output count does not match graph"),
        );
    }
    let woven: usize = targets[0];
    let start: usize = last.input_start;
    let end: usize = match start.checked_add(last.input_count) {
        Some(end) => end,
        None => {
            return Err(Error::new(ErrorKind::IntegerOverflow));
        },
    };
    let ghost expected = joined_structs(
        views,
        column_views,
        steps,
        index as nat,
        headers@,
        limits,
        base,
    );
    let ghost sum = joined_total(views, column_views, woven as int, start as nat, end as nat, 0);
    let mut total: usize = 0;
    let mut position: usize = end;
    while position > start
        invariant
            start <= position <= end,
            views == slot_views(slots@),
            column_views == stream_views(columns@),
            before == old(output)@,
            output@ == before,
            base == before.len(),
            expected == joined_structs(
                views,
                column_views,
                steps,
                index as nat,
                headers@,
                limits,
                base,
            ),
            sum is Err ==> expected == Err::<Seq<u8>, ErrorView>(sum->Err_0),
            joined_present(views, woven as int, position as int, end as int),
            sum == joined_total(
                views,
                column_views,
                woven as int,
                start as nat,
                position as nat,
                total as nat,
            ),
        decreases position,
    {
        position = position - 1;
        let len: usize = find_joined_len(slots, columns, woven, position)?;
        total = match total.checked_add(len) {
            Some(total) => total,
            None => {
                return Err(Error::new(ErrorKind::IntegerOverflow));
            },
        };
    }
    check_output_limit(total, limits)?;
    proof {
        assert(output@ =~= before + Seq::empty());
    }
    let ghost mut written: Seq<u8> = Seq::empty();
    let mut position: usize = end;
    while position > start
        invariant
            start <= position <= end,
            views == slot_views(slots@),
            column_views == stream_views(columns@),
            before == old(output)@,
            base == before.len(),
            output@ == before + written,
            joined_present(views, woven as int, start as int, end as int),
            expected == joined_structs(
                views,
                column_views,
                steps,
                index as nat,
                headers@,
                limits,
                base,
            ),
            expected == joined_streams_behind(
                views,
                column_views,
                woven as int,
                start as nat,
                position as nat,
                limits,
                base,
                written,
            ),
        decreases position,
    {
        position = position - 1;
        if position == woven {
            let ghost held = output@;
            append_split_by_struct_output(columns, limits, output)?;
            proof {
                let bytes = weave_behind(column_views, limits, held.len())->Ok_0;
                assert(output@ =~= before + (written + bytes));
                written = written + bytes;
            }
        } else {
            proof {
                assert(views[position as int] == slots@[position as int]@);
                assert(views[position as int] is Some);
            }
            let input = slots[position].as_input()?;
            append_bytes(output, input.bytes);
            proof {
                assert(output@ =~= before + (written + input.bytes@));
                written = written + input.bytes@;
            }
        }
    }
    Ok(())
}

/// Executes the last transforms of a chunk.
fn append_tail(
    tail: DirectAppendTail,
    slots: &Vec<StreamSlot<'_>>,
    plan: &ChunkExecutionPlan,
    headers: &[u8],
    context: StandardNodeContext<'_>,
    output: &mut Vec<u8>,
) -> (result: Result<(), Error>)
    requires
        tail.start < plan.nodes@.len(),
        context.dict_store.well_formed(),
    ensures
        extends(
            match step_header(
                headers@,
                plan@.steps[tail.start as int].header_start as nat,
                plan@.steps[tail.start as int].header_size as nat,
            ) {
                Err(error) => Err(error),
                Ok(header) => match node_inputs(
                    slot_views(slots@),
                    plan@.steps[tail.start as int].input_start as nat,
                    plan@.steps[tail.start as int].input_count as nat,
                ) {
                    Err(error) => Err(error),
                    Ok(inputs) => tail_decoded(
                        tail,
                        slot_views(slots@),
                        inputs,
                        header,
                        plan@.steps,
                        headers@,
                        context@,
                        old(output)@.len(),
                    ),
                },
            },
            old(output)@,
            final(output)@,
            error_of(result),
        ),
{
    let ghost steps = plan@.steps;
    let ghost before = output@;
    let node: &NodeExecutionPlan = &plan.nodes[tail.start];
    proof {
        assert(steps[tail.start as int] == node@);
        assert(plan.nodes@.len() == plan.nodes.len());
    }
    let limits = context.limits;
    let base: usize = output.len();
    let next: usize = tail.start + 1;
    let header = node_header(headers, node.header_start, node.header_size)?;
    let inputs = collect_node_inputs(slots, node.input_start, node.input_count)?;
    let inputs = input_slice(&inputs);
    let ghost mut decoded: Seq<u8> = Seq::empty();
    let width: usize = match tail.kind {
        DirectAppendKind::Lz => {
            decode_lz_node_to_output(inputs, header, limits, output, base)?;
            proof {
                decoded = lz_decode(stream_views(inputs@), header@, limits, base as nat)->Ok_0;
            }
            1
        },
        DirectAppendKind::FieldLz => {
            let width: usize = decode_field_lz_node_to_output(
                inputs,
                header,
                limits,
                output,
                base,
            )?;
            proof {
                decoded = field_lz_decode(
                    stream_views(inputs@),
                    header@,
                    limits,
                    base as nat,
                )->Ok_0;
            }
            width
        },
        DirectAppendKind::Zstd => {
            let input = single_stream(inputs)?;
            decode_zstd_chunk_to_output(input.bytes, header, node.dict_index, context, output)?;
            proof {
                decoded = zstd_node(input.bytes@, header@, node.dict_index, context@)->Ok_0;
            }
            1
        },
        DirectAppendKind::DispatchStringToSerial => {
            decode_dispatch_string_node_to_serial_output(
                inputs,
                node.variable_inputs,
                header,
                context.format_version,
                limits,
                output,
            )?;
            return validate_string_to_serial_tail(&plan.nodes, next, headers, Ghost(steps));
        },
        DirectAppendKind::SplitByStructToSplitN => {
            return append_split_by_struct_to_final_splitn(
                slots,
                inputs,
                &plan.nodes,
                tail.start,
                headers,
                limits,
                output,
                Ghost(steps),
            );
        },
    };
    let written = slice_subrange(output.as_slice(), base, output.len());
    proof {
        assert(output@ == before + decoded);
        assert(written@ =~= decoded);
    }
    validate_direct_append_tail(&plan.nodes, next, headers, width, written, limits, Ghost(steps))
}

/// Decodes a chunk that can write to the output directly; returns how many bytes it
/// appended.
pub fn decode_transform_chunk_appending(
    input: &[u8],
    chunk: &ChunkPlan,
    plan: &ChunkExecutionPlan,
    context: StandardNodeContext<'_>,
    scratch: &mut DecodeScratch,
    output: &mut Vec<u8>,
) -> (result: Result<usize, Error>)
    requires
        old(scratch).well_formed(),
        context.dict_store.well_formed(),
    ensures
        final(scratch).well_formed(),
        extends(
            chunk_appended(input@, chunk@, plan@, context@, old(output)@.len()),
            old(output)@,
            final(output)@,
            error_of(result),
        ),
        result matches Ok(count) ==> final(output)@.len() == old(output)@.len() + count,
{
    let base: usize = output.len();
    let tail = match direct_append_tail(plan) {
        Some(tail) => tail,
        None => {
            return Err(fail(ErrorKind::InvalidGraph, "chunk is not direct-appendable"));
        },
    };
    let mut slots = initialize_stream_slots(input, chunk, &plan.regen_targets)?;
    let headers = chunk.headers.as_slice(input)?;
    execute_steps(&mut slots, plan, tail.start, headers, context, scratch)?;
    append_tail(tail, &slots, plan, headers, context, output)?;
    Ok(output.len() - base)
}

} // verus!
