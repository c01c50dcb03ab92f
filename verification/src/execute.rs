//! Executing the transforms of a chunk.

use vstd::prelude::*;

use crate::conversions::{
    byte_preserving, byte_preserving_conversion_output_width, conversion_output_width,
    is_byte_preserving_conversion,
};
use crate::error::{detailed, fail, outcome, Error, ErrorKind, ErrorView};
use crate::frame_plan::{range_bytes, ChunkPlan, ChunkView};
use crate::graph::{
    build_chunk_execution_plan, chunk_plan, target_slice, ChunkExecutionPlan, NodeExecutionPlan,
    PlanView, StepView,
};
use crate::limits::{check_output_limit, output_limit_error, Limits};
use crate::nodes::{
    execute_standard_node, node_outcome, one_stream, standard_node, ContextView,
    StandardNodeContext,
};
use crate::scratch::DecodeScratch;
use crate::slots::{
    collect_node_inputs, initialize_stream_slots, input_slice, node_header, node_inputs,
    outputs_from, overwrite_error, recycle_consumed_owned_streams, single_execution_input,
    single_slot_input, slot_views, slots_consumed, slots_from, step_header, step_stored,
    store_outputs, take_slot, NodeOutputs, Slots, StreamSlot,
};
use crate::sparse_num::{decode_sparse_num_node, sparse_num_node};
use crate::standard::{SPARSE_NUM_ID, SPLITN_ID, SPLITN_NUM_ID, SPLITN_STRUCT_ID};
use crate::stream::{owned_views, OwnedStream, StreamView};

verus! {

/// What the places hold once the one input of a transform was moved to its one output
/// under another element width.
pub open spec fn stream_moved(slots: Slots, step: StepView, width: nat) -> Result<
    Slots,
    ErrorView,
> {
    if step.targets.len() != 1 {
        Err(detailed(ErrorKind::InvalidGraph, "node output count does not match graph"@))
    } else if step.targets[0] >= slots.len() || slots[step.targets[0] as int] is Some {
        Err(overwrite_error())
    } else {
        match single_slot_input(slots, step.input_start as nat) {
            Err(error) => Err(error),
            Ok(stream) => Ok(
                slots.update(step.input_start as int, None).update(
                    step.targets[0] as int,
                    Some(
                        StreamView {
                            bytes: stream.bytes,
                            element_width: width,
                            string_lengths: None,
                        },
                    ),
                ),
            ),
        }
    }
}

/// Whether a transform joins one stream with nothing.
pub open spec fn joins_one_stream(step: StepView) -> bool {
    (step.standard_id == SPLITN_ID || step.standard_id == SPLITN_STRUCT_ID || step.standard_id
        == SPLITN_NUM_ID) && step.input_count == 1
}

/// What the places hold once one stream was joined with nothing.
pub open spec fn splitn_moved(slots: Slots, step: StepView, header: Seq<u8>, limits: Limits) -> Result<
    Slots,
    ErrorView,
> {
    if header.len() != 0 {
        Err(detailed(ErrorKind::Unsupported, "splitn headers are unsupported"@))
    } else {
        match single_slot_input(slots, step.input_start as nat) {
            Err(error) => Err(error),
            Ok(stream) => if stream.element_width == 0 {
                Err(detailed(ErrorKind::InvalidType, "splitn element width is zero"@))
            } else if stream.bytes.len() % stream.element_width != 0 {
                Err(detailed(ErrorKind::Malformed, "splitn input has partial element"@))
            } else if !limits.admits(stream.bytes.len() as int) {
                Err(output_limit_error())
            } else {
                stream_moved(
                    slots,
                    step,
                    if step.standard_id == SPLITN_ID {
                        1
                    } else {
                        stream.element_width
                    },
                )
            },
        }
    }
}

/// What the places hold once a stream was converted without a change of its bytes.
pub open spec fn conversion_moved(
    slots: Slots,
    step: StepView,
    header: Seq<u8>,
    limits: Limits,
) -> Result<Slots, ErrorView> {
    match single_slot_input(slots, step.input_start as nat) {
        Err(error) => Err(error),
        Ok(stream) => match conversion_output_width(
            step.standard_id,
            step.input_count as nat,
            stream,
            header,
            limits,
        ) {
            Err(error) => Err(error),
            Ok(None) => Ok(slots),
            Ok(Some(width)) => stream_moved(slots, step, width),
        },
    }
}

/// What a transform produces.
pub open spec fn step_outputs(
    step: StepView,
    inputs: Seq<StreamView>,
    header: Seq<u8>,
    context: ContextView,
) -> Result<Seq<StreamView>, ErrorView> {
    if step.standard_id == SPARSE_NUM_ID {
        one_stream(sparse_num_node(inputs, header, context.limits))
    } else {
        standard_node(
            step.standard_id,
            inputs,
            step.variable_inputs,
            step.dict_index,
            header,
            context,
        )
    }
}

/// What the places hold once a transform was executed.
#[verifier::opaque]
pub open spec fn step_run(slots: Slots, step: StepView, headers: Seq<u8>, context: ContextView) -> Result<
    Slots,
    ErrorView,
> {
    match step_header(headers, step.header_start as nat, step.header_size as nat) {
        Err(error) => Err(error),
        Ok(header) => if joins_one_stream(step) {
            splitn_moved(slots, step, header, context.limits)
        } else if byte_preserving(step.standard_id) {
            conversion_moved(slots, step, header, context.limits)
        } else {
            match node_inputs(slots, step.input_start as nat, step.input_count as nat) {
                Err(error) => Err(error),
                Ok(inputs) => match step_outputs(step, inputs, header, context) {
                    Err(error) => Err(error),
                    Ok(outputs) => step_stored(
                        slots_consumed(slots, step.input_start as int, step.input_count as int),
                        outputs,
                        step.targets,
                    ),
                },
            }
        },
    }
}

/// What the places hold once the transforms from `index` up to `end` were executed.
pub open spec fn steps_run(
    slots: Slots,
    steps: Seq<StepView>,
    index: nat,
    end: nat,
    headers: Seq<u8>,
    context: ContextView,
) -> Result<Slots, ErrorView>
    decreases end - index,
{
    if index >= end {
        Ok(slots)
    } else {
        match step_run(slots, steps[index as int], headers, context) {
            Err(error) => Err(error),
            Ok(slots) => steps_run(slots, steps, index + 1, end, headers, context),
        }
    }
}

/// The bytes in the last place.
pub open spec fn final_stream(slots: Slots) -> Result<Seq<u8>, ErrorView> {
    if slots.len() == 0 {
        Err(detailed(ErrorKind::InvalidGraph, "transform chunk has no output stream"@))
    } else {
        match slots.last() {
            None => Err(detailed(ErrorKind::InvalidGraph, "final output stream is missing"@)),
            Some(stream) => Ok(stream.bytes),
        }
    }
}

/// The places of a chunk and its transform headers, before a transform is executed.
pub open spec fn chunk_opened(input: Seq<u8>, chunk: ChunkView, plan: PlanView) -> Result<
    (Slots, Seq<u8>),
    ErrorView,
> {
    match slots_from(input, chunk.stored, plan.regen_targets, 0, 0, Seq::empty()) {
        Err(error) => Err(error),
        Ok(slots) => match range_bytes(chunk.headers, input) {
            Err(error) => Err(error),
            Ok(headers) => Ok((slots, headers)),
        },
    }
}

/// What a chunk decodes to under a plan.
pub open spec fn chunk_decoded(
    input: Seq<u8>,
    chunk: ChunkView,
    plan: PlanView,
    context: ContextView,
) -> Result<Seq<u8>, ErrorView> {
    match chunk_opened(input, chunk, plan) {
        Err(error) => Err(error),
        Ok((slots, headers)) => match steps_run(
            slots,
            plan.steps,
            0,
            plan.steps.len(),
            headers,
            context,
        ) {
            Err(error) => Err(error),
            Ok(slots) => final_stream(slots),
        },
    }
}

/// What a chunk decodes to.
pub open spec fn chunk_planned_and_decoded(
    input: Seq<u8>,
    chunk: ChunkView,
    context: ContextView,
) -> Result<Seq<u8>, ErrorView> {
    match chunk_plan(chunk) {
        Err(error) => Err(error),
        Ok(plan) => chunk_decoded(input, chunk, plan, context),
    }
}

/// A decoded chunk: bytes of the frame, or bytes of its own.
pub enum DecodedChunk<'a> {
    Borrowed(&'a [u8]),
    Owned(Vec<u8>),
}

impl<'a> View for DecodedChunk<'a> {
    type V = Seq<u8>;

    open spec fn view(&self) -> Seq<u8> {
        match self {
            DecodedChunk::Borrowed(bytes) => bytes@,
            DecodedChunk::Owned(bytes) => bytes@,
        }
    }
}

impl<'a> DecodedChunk<'a> {
    /// The bytes of the chunk.
    pub fn as_slice(&self) -> (bytes: &[u8])
        ensures
            bytes@ == self@,
    {
        match self {
            DecodedChunk::Borrowed(bytes) => bytes,
            DecodedChunk::Owned(bytes) => bytes.as_slice(),
        }
    }
}

/// Moves the one input of a transform to its one output under another element width.
fn move_stream_to_single_output(
    slots: &mut Vec<StreamSlot<'_>>,
    node: &NodeExecutionPlan,
    width: usize,
) -> (result: Result<(), Error>)
    requires
        single_slot_input(slot_views(old(slots)@), node.input_start as nat) is Ok,
    ensures
        match stream_moved(slot_views(old(slots)@), node@, width as nat) {
            Ok(after) => result is Ok && slot_views(final(slots)@) == after,
            Err(error) => result is Err && result->Err_0@ == error,
        },
{
    let ghost before = slot_views(slots@);
    let targets = target_slice(&node.output_targets);
    if targets.len() != 1 {
        return Err(fail(ErrorKind::InvalidGraph, "node output count does not match graph"));
    }
    let target: usize = targets[0];
    let empty: bool = if target < slots.len() {
        proof {
            assert(before[target as int] == slots@[target as int]@);
        }
        match &slots[target] {
            StreamSlot::Empty => true,
            _ => false,
        }
    } else {
        false
    };
    if !empty {
        return Err(fail(ErrorKind::InvalidGraph, "node output overwrites an existing stream"));
    }
    proof {
        assert(before[node.input_start as int] == slots@[node.input_start as int]@);
    }
    let ghost held = slots@;
    let slot = take_slot(slots, node.input_start);
    let converted = match slot {
        StreamSlot::Borrowed(stream) => {
            let mut stream = stream;
            stream.element_width = width;
            StreamSlot::Borrowed(stream)
        },
        StreamSlot::Owned(stream) => {
            let mut stream = stream;
            stream.element_width = width;
            stream.string_lengths = None;
            StreamSlot::Owned(stream)
        },
        StreamSlot::Empty => StreamSlot::Empty,
    };
    slots.set(target, converted);
    proof {
        let after = stream_moved(before, node@, width as nat)->Ok_0;
        assert forall|i: int| 0 <= i < before.len() implies slot_views(slots@)[i] == after[i] by {
            assert(before[i] == held[i]@);
        }
        assert(slot_views(slots@) =~= after);
    }
    Ok(())
}

/// Executes a transform that joins one stream with nothing.
fn execute_single_input_splitn_node(
    slots: &mut Vec<StreamSlot<'_>>,
    node: &NodeExecutionPlan,
    header: &[u8],
    limits: Limits,
) -> (result: Result<(), Error>)
    ensures
        match splitn_moved(slot_views(old(slots)@), node@, header@, limits) {
            Ok(after) => result is Ok && slot_views(final(slots)@) == after,
            Err(error) => result is Err && result->Err_0@ == error,
        },
{
    if header.len() != 0 {
        return Err(fail(ErrorKind::Unsupported, "splitn headers are unsupported"));
    }
    let width: usize = {
        let input = single_execution_input(slots, node.input_start)?;
        if input.element_width == 0 {
            return Err(fail(ErrorKind::InvalidType, "splitn element width is zero"));
        }
        if input.bytes.len() % input.element_width != 0 {
            return Err(fail(ErrorKind::Malformed, "splitn input has partial element"));
        }
        check_output_limit(input.bytes.len(), limits)?;
        if node.standard_id == SPLITN_ID {
            1
        } else {
            input.element_width
        }
    };
    move_stream_to_single_output(slots, node, width)
}

/// Executes a transform that converts a stream without a change of its bytes.
fn execute_byte_preserving_conversion_node(
    slots: &mut Vec<StreamSlot<'_>>,
    node: &NodeExecutionPlan,
    header: &[u8],
    limits: Limits,
) -> (result: Result<(), Error>)
    requires
        byte_preserving(node.standard_id),
    ensures
        match conversion_moved(slot_views(old(slots)@), node@, header@, limits) {
            Ok(after) => result is Ok && slot_views(final(slots)@) == after,
            Err(error) => result is Err && result->Err_0@ == error,
        },
{
    let width: Option<usize> = {
        let input = single_execution_input(slots, node.input_start)?;
        byte_preserving_conversion_output_width(
            node.standard_id,
            node.input_count,
            input,
            header,
            limits,
        )?
    };
    match width {
        None => Ok(()),
        Some(width) => move_stream_to_single_output(slots, node, width),
    }
}

/// Executes a transform on the streams that it reads.
fn execute_on_inputs(
    slots: &Vec<StreamSlot<'_>>,
    node: &NodeExecutionPlan,
    header: &[u8],
    context: StandardNodeContext<'_>,
    scratch: &mut DecodeScratch,
) -> (result: Result<NodeOutputs, Error>)
    requires
        old(scratch).well_formed(),
        context.dict_store.well_formed(),
    ensures
        final(scratch).well_formed(),
        node_outcome(result) == (match node_inputs(
            slot_views(slots@),
            node.input_start as nat,
            node.input_count as nat,
        ) {
            Err(error) => Err(error),
            Ok(inputs) => step_outputs(node@, inputs, header@, context@),
        }),
{
    let inputs = collect_node_inputs(slots, node.input_start, node.input_count)?;
    let inputs = input_slice(&inputs);
    if node.standard_id == SPARSE_NUM_ID {
        let stream = decode_sparse_num_node(inputs, header, context.limits)?;
        let streams: Vec<OwnedStream> = vec![stream];
        proof {
            assert(owned_views(streams@) =~= seq![stream@]);
        }
        return Ok(outputs_from(streams));
    }
    execute_standard_node(
        node.standard_id,
        inputs,
        node.variable_inputs,
        node.dict_index,
        header,
        context,
        scratch,
    )
}

/// Executes a transform.
fn execute_step(
    slots: &mut Vec<StreamSlot<'_>>,
    node: &NodeExecutionPlan,
    headers: &[u8],
    context: StandardNodeContext<'_>,
    scratch: &mut DecodeScratch,
) -> (result: Result<(), Error>)
    requires
        old(scratch).well_formed(),
        context.dict_store.well_formed(),
    ensures
        final(scratch).well_formed(),
        match step_run(slot_views(old(slots)@), node@, headers@, context@) {
            Ok(after) => result is Ok && slot_views(final(slots)@) == after,
            Err(error) => result is Err && result->Err_0@ == error,
        },
{
    proof {
        reveal(step_run);
    }
    let header = node_header(headers, node.header_start, node.header_size)?;
    if (node.standard_id == SPLITN_ID || node.standard_id == SPLITN_STRUCT_ID || node.standard_id
        == SPLITN_NUM_ID) && node.input_count == 1 {
        return execute_single_input_splitn_node(slots, node, header, context.limits);
    }
    if is_byte_preserving_conversion(node.standard_id) {
        return execute_byte_preserving_conversion_node(slots, node, header, context.limits);
    }
    let outputs = execute_on_inputs(slots, node, header, context, scratch)?;
    recycle_consumed_owned_streams(slots, node.input_start, node.input_count, scratch);
    store_outputs(slots, outputs, target_slice(&node.output_targets))
}

/// Executes the transforms of a plan up to `end`.
pub(crate) fn execute_steps(
    slots: &mut Vec<StreamSlot<'_>>,
    plan: &ChunkExecutionPlan,
    end: usize,
    headers: &[u8],
    context: StandardNodeContext<'_>,
    scratch: &mut DecodeScratch,
) -> (result: Result<(), Error>)
    requires
        end <= plan.nodes@.len(),
        old(scratch).well_formed(),
        context.dict_store.well_formed(),
    ensures
        final(scratch).well_formed(),
        match steps_run(
            slot_views(old(slots)@),
            plan@.steps,
            0,
            end as nat,
            headers@,
            context@,
        ) {
            Ok(after) => result is Ok && slot_views(final(slots)@) == after,
            Err(error) => result is Err && result->Err_0@ == error,
        },
{
    let ghost steps = plan@.steps;
    let ghost total = steps_run(
        slot_views(slots@),
        steps,
        0,
        end as nat,
        headers@,
        context@,
    );
    let mut index: usize = 0;
    while index < end
        invariant
            index <= end <= plan.nodes@.len(),
            scratch.well_formed(),
            context.dict_store.well_formed(),
            steps == plan@.steps,
            total == steps_run(
                slot_views(old(slots)@),
                steps,
                0,
                end as nat,
                headers@,
                context@,
            ),
            total == steps_run(
                slot_views(slots@),
                steps,
                index as nat,
                end as nat,
                headers@,
                context@,
            ),
        decreases end - index,
    {
        let node: &NodeExecutionPlan = &plan.nodes[index];
        proof {
            assert(steps[index as int] == node@);
        }
        execute_step(slots, node, headers, context, scratch)?;
        index = index + 1;
    }
    Ok(())
}

/// Decodes a chunk under a plan.
pub fn decode_transform_chunk_with_plan<'a>(
    input: &'a [u8],
    chunk: &ChunkPlan,
    plan: &ChunkExecutionPlan,
    context: StandardNodeContext<'_>,
    scratch: &mut DecodeScratch,
) -> (result: Result<DecodedChunk<'a>, Error>)
    requires
        old(scratch).well_formed(),
        context.dict_store.well_formed(),
    ensures
        final(scratch).well_formed(),
        outcome(result) == chunk_decoded(input@, chunk@, plan@, context@),
{
    let mut slots = initialize_stream_slots(input, chunk, &plan.regen_targets)?;
    let headers = chunk.headers.as_slice(input)?;
    execute_steps(&mut slots, plan, plan.nodes.len(), headers, context, scratch)?;
    let ghost views = slot_views(slots@);
    match slots.pop() {
        None => Err(fail(ErrorKind::InvalidGraph, "transform chunk has no output stream")),
        Some(slot) => {
            proof {
                assert(views.last() == slot@);
            }
            match slot {
                StreamSlot::Borrowed(stream) => Ok(DecodedChunk::Borrowed(stream.bytes)),
                StreamSlot::Owned(stream) => Ok(DecodedChunk::Owned(stream.bytes)),
                StreamSlot::Empty => Err(
                    fail(ErrorKind::InvalidGraph, "final output stream is missing"),
                ),
            }
        },
    }
}

/// Decodes a chunk.
pub fn decode_transform_chunk<'a>(
    input: &'a [u8],
    chunk: &ChunkPlan,
    context: StandardNodeContext<'_>,
    scratch: &mut DecodeScratch,
) -> (result: Result<DecodedChunk<'a>, Error>)
    requires
        old(scratch).well_formed(),
        context.dict_store.well_formed(),
    ensures
        final(scratch).well_formed(),
        outcome(result) == chunk_planned_and_decoded(input@, chunk@, context@),
{
    let plan = build_chunk_execution_plan(chunk)?;
    decode_transform_chunk_with_plan(input, chunk, &plan, context, scratch)
}

} // verus!
