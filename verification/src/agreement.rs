//! Writing a chunk to the output directly gives what decoding it on its own gives.

use vstd::prelude::*;

use crate::append::{chunk_appended, joined_streams_behind, joined_structs};
use crate::concat::joined_bytes;
use crate::conversions::byte_preserving;
use crate::direct_append::{
    chain_end, chain_start, direct_tail, ends_in_dispatched_strings, ends_in_joined_structs,
    DirectAppendKind,
};
use crate::dispatch::{dispatch_string_node, dispatch_string_serial};
use crate::error::ErrorView;
use crate::execute::{
    chunk_decoded, chunk_opened, final_stream, joins_one_stream, step_outputs, step_run, steps_run,
};
use crate::field_lz::{field_lz_node, law_field_lz_ignores_earlier_bytes};
use crate::frame_plan::{range_bytes, ByteRange, ChunkView};
use crate::graph::{PlanView, StepView};
use crate::limits::Limits;
use crate::lz::{law_lz_ignores_earlier_bytes, law_lz_length_is_declared, lz_decode};
use crate::nodes::{zstd_node, ContextView};
use crate::slots::{
    node_inputs, outputs_stored, slots_consumed, slots_from, step_header, step_stored, Slots,
};
use crate::split_struct::{weave, weave_behind};
use crate::standard::{
    DISPATCH_STRING_ID, FIELD_LZ_ID, LZ_ID, SPLITN_ID, SPLITN_STRUCT_ID, SPLIT_BY_STRUCT_ID,
    ZSTD_ID,
};
use crate::stream::{typed_stream, StreamView};

verus! {

proof fn lemma_opened_len(
    input: Seq<u8>,
    stored: Seq<ByteRange>,
    written: Seq<bool>,
    index: nat,
    next: nat,
    slots: Slots,
)
    requires
        slots.len() == index,
        index <= written.len(),
        slots_from(input, stored, written, index, next, slots) is Ok,
    ensures
        slots_from(input, stored, written, index, next, slots)->Ok_0.len() == written.len(),
    decreases written.len() - index,
{
    if index < written.len() {
        if written[index as int] {
            lemma_opened_len(input, stored, written, index + 1, next, slots.push(None));
        } else {
            let bytes = range_bytes(stored[next as int], input)->Ok_0;
            lemma_opened_len(
                input,
                stored,
                written,
                index + 1,
                next + 1,
                slots.push(Some(typed_stream(bytes, 1))),
            );
        }
    }
}

proof fn lemma_stored_len(
    slots: Slots,
    outputs: Seq<StreamView>,
    targets: Seq<usize>,
    index: nat,
)
    requires
        outputs_stored(slots, outputs, targets, index) is Ok,
    ensures
        outputs_stored(slots, outputs, targets, index)->Ok_0.len() == slots.len(),
    decreases targets.len() - index,
{
    if index < targets.len() {
        lemma_stored_len(
            slots.update(targets[index as int] as int, Some(outputs[index as int])),
            outputs,
            targets,
            index + 1,
        );
    }
}

/// A transform with one output puts it into its place.
proof fn lemma_one_stored(slots: Slots, output: StreamView, targets: Seq<usize>)
    requires
        targets.len() == 1,
        step_stored(slots, seq![output], targets) is Ok,
    ensures
        targets[0] < slots.len(),
        step_stored(slots, seq![output], targets)->Ok_0 == slots.update(
            targets[0] as int,
            Some(output),
        ),
{
    reveal_with_fuel(outputs_stored, 2);
}

proof fn lemma_step_len(slots: Slots, step: StepView, headers: Seq<u8>, context: ContextView)
    requires
        step_run(slots, step, headers, context) is Ok,
    ensures
        step_run(slots, step, headers, context)->Ok_0.len() == slots.len(),
{
    reveal(step_run);
    let header = step_header(headers, step.header_start as nat, step.header_size as nat)->Ok_0;
    if !joins_one_stream(step) && !byte_preserving(step.standard_id) {
        let inputs = node_inputs(slots, step.input_start as nat, step.input_count as nat)->Ok_0;
        let outputs = step_outputs(step, inputs, header, context)->Ok_0;
        lemma_stored_len(
            slots_consumed(slots, step.input_start as int, step.input_count as int),
            outputs,
            step.targets,
            0,
        );
    }
}

/// Executing transforms is executing some of them and then the others.
proof fn lemma_steps_split(
    slots: Slots,
    steps: Seq<StepView>,
    index: nat,
    middle: nat,
    end: nat,
    headers: Seq<u8>,
    context: ContextView,
)
    requires
        index <= middle <= end,
        steps_run(slots, steps, index, end, headers, context) is Ok,
    ensures
        ({
            let first = steps_run(slots, steps, index, middle, headers, context);
            &&& first is Ok
            &&& first->Ok_0.len() == slots.len()
            &&& steps_run(first->Ok_0, steps, middle, end, headers, context) == steps_run(
                slots,
                steps,
                index,
                end,
                headers,
                context,
            )
        }),
    decreases middle - index,
{
    if index < middle {
        lemma_step_len(slots, steps[index as int], headers, context);
        let next = step_run(slots, steps[index as int], headers, context)->Ok_0;
        lemma_steps_split(next, steps, index + 1, middle, end, headers, context);
    }
}

/// The bytes of a stream reach the end of a chain of transforms that keep bytes.
proof fn lemma_chain(
    slots: Slots,
    steps: Seq<StepView>,
    index: nat,
    stream: usize,
    headers: Seq<u8>,
    context: ContextView,
)
    requires
        index <= steps.len(),
        stream < slots.len(),
        slots[stream as int] is Some,
        chain_end(steps, index, stream) is Some,
        steps_run(slots, steps, index, steps.len(), headers, context) is Ok,
    ensures
        ({
            let after = steps_run(slots, steps, index, steps.len(), headers, context)->Ok_0;
            let end = chain_end(steps, index, stream)->Some_0;
            &&& after.len() == slots.len()
            &&& end < after.len()
            &&& after[end as int] is Some
            &&& after[end as int]->Some_0.bytes == slots[stream as int]->Some_0.bytes
        }),
    decreases steps.len() - index,
{
    if index < steps.len() {
        reveal(step_run);
        let step = steps[index as int];
        lemma_step_len(slots, step, headers, context);
        let next = step_run(slots, step, headers, context)->Ok_0;
        lemma_chain(next, steps, index + 1, step.targets[0], headers, context);
    }
}

/// The place where a chain starts.
proof fn lemma_chain_start(steps: Seq<StepView>, id: u32, index: nat, last: int)
    requires
        steps.len() <= usize::MAX,
        chain_start(steps, id, index, last) is Some,
    ensures
        ({
            let start = chain_start(steps, id, index, last)->Some_0;
            &&& start < steps.len()
            &&& steps[start as int].standard_id == id
            &&& steps[start as int].targets.len() == 1
            &&& chain_end(steps, start as nat + 1, steps[start as int].targets[0]) is Some
            &&& chain_end(steps, start as nat + 1, steps[start as int].targets[0])->Some_0 == last
        }),
    decreases steps.len() - index,
{
    if index < steps.len() {
        let step = steps[index as int];
        if step.standard_id != id || step.targets.len() != 1 {
            lemma_chain_start(steps, id, index + 1, last);
        } else {
            match chain_end(steps, index + 1, step.targets[0]) {
                None => {},
                Some(end) => {
                    if end != last {
                        lemma_chain_start(steps, id, index + 1, last);
                    }
                },
            }
        }
    }
}

/// The output of the transform at `start`, which a chain leads to the last place, is
/// what the chunk decodes to.
proof fn lemma_chain_output(
    slots: Slots,
    steps: Seq<StepView>,
    start: nat,
    output: StreamView,
    headers: Seq<u8>,
    context: ContextView,
)
    requires
        start < steps.len(),
        steps[start as int].targets.len() == 1,
        chain_end(steps, start + 1, steps[start as int].targets[0]) == Some(
            (slots.len() - 1) as usize,
        ),
        0 < slots.len() <= usize::MAX,
        steps_run(slots, steps, start, steps.len(), headers, context) is Ok,
        step_run(slots, steps[start as int], headers, context) == stored_output(
            slots,
            steps[start as int],
            output,
        ),
    ensures
        final_stream(steps_run(slots, steps, start, steps.len(), headers, context)->Ok_0) == Ok::<
            Seq<u8>,
            ErrorView,
        >(output.bytes),
{
    let step = steps[start as int];
    let consumed = slots_consumed(slots, step.input_start as int, step.input_count as int);
    lemma_one_stored(consumed, output, step.targets);
    let next = step_run(slots, step, headers, context)->Ok_0;
    lemma_chain(next, steps, start + 1, step.targets[0], headers, context);
}

/// Joined streams begin with the first of them.
proof fn lemma_joined_first(streams: Seq<StreamView>)
    requires
        streams.len() > 0,
    ensures
        joined_bytes(streams) == streams[0].bytes + joined_bytes(streams.drop_first()),
    decreases streams.len(),
{
    if streams.len() == 1 {
        assert(joined_bytes(streams.drop_last()) =~= Seq::empty());
        assert(joined_bytes(streams.drop_first()) =~= Seq::empty());
        assert(Seq::<u8>::empty() + streams[0].bytes =~= streams[0].bytes);
        assert(streams[0].bytes + Seq::<u8>::empty() =~= streams[0].bytes);
    } else {
        lemma_joined_first(streams.drop_last());
        assert(streams.drop_last().drop_first() =~= streams.drop_first().drop_last());
        assert(streams.drop_first().last() == streams.last());
        assert(joined_bytes(streams) =~= streams[0].bytes + joined_bytes(streams.drop_first()));
    }
}

/// Streams in places, last one first.
spec fn streams_in(slots: Slots, start: nat, end: nat) -> Seq<StreamView> {
    Seq::new((end - start) as nat, |i: int| slots[end - 1 - i]->Some_0)
}

/// Joining woven structures with other streams gives the bytes in the places that they
/// would be joined from.
proof fn lemma_joined(
    slots: Slots,
    after: Slots,
    columns: Seq<StreamView>,
    woven: int,
    start: nat,
    end: nat,
    limits: Limits,
    base: nat,
    output: Seq<u8>,
)
    requires
        start <= end,
        weave(columns, limits) is Ok,
        forall|i: int|
            start <= i < end ==> (#[trigger] after[i]) is Some && after[i]->Some_0.bytes == (if i
                == woven {
                weave(columns, limits)->Ok_0
            } else {
                slots[i]->Some_0.bytes
            }),
        joined_streams_behind(slots, columns, woven, start, end, limits, base, output) is Ok,
    ensures
        joined_streams_behind(slots, columns, woven, start, end, limits, base, output)->Ok_0
            == output + joined_bytes(streams_in(after, start, end)),
    decreases end,
{
    let streams = streams_in(after, start, end);
    if end <= start {
        assert(output + joined_bytes(streams) =~= output);
    } else {
        let index = end - 1;
        let bytes = if index == woven {
            weave_behind(columns, limits, base + output.len())->Ok_0
        } else {
            slots[index]->Some_0.bytes
        };
        assert(after[index]->Some_0.bytes == bytes);
        lemma_joined(
            slots,
            after,
            columns,
            woven,
            start,
            index as nat,
            limits,
            base,
            output + bytes,
        );
        lemma_joined_first(streams);
        assert(streams.drop_first() =~= streams_in(after, start, index as nat));
        assert(output + (bytes + joined_bytes(streams.drop_first())) =~= (output + bytes)
            + joined_bytes(streams.drop_first()));
    }
}

/// What a transform that is not moved gives the places.
spec fn stored_output(slots: Slots, step: StepView, output: StreamView) -> Result<
    Slots,
    ErrorView,
> {
    step_stored(
        slots_consumed(slots, step.input_start as int, step.input_count as int),
        seq![output],
        step.targets,
    )
}

/// What a transform reads.
spec fn reads(
    slots: Slots,
    step: StepView,
    headers: Seq<u8>,
    header: Seq<u8>,
    inputs: Seq<StreamView>,
) -> bool {
    &&& step_header(headers, step.header_start as nat, step.header_size as nat) == Ok::<
        Seq<u8>,
        ErrorView,
    >(header)
    &&& node_inputs(slots, step.input_start as nat, step.input_count as nat) == Ok::<
        Seq<StreamView>,
        ErrorView,
    >(inputs)
}

proof fn lemma_lz_step(
    slots: Slots,
    step: StepView,
    headers: Seq<u8>,
    header: Seq<u8>,
    inputs: Seq<StreamView>,
    context: ContextView,
)
    requires
        step.standard_id == LZ_ID,
        reads(slots, step, headers, header, inputs),
        step_run(slots, step, headers, context) is Ok,
    ensures
        lz_decode(inputs, header, context.limits, 0) is Ok,
        step_run(slots, step, headers, context) == stored_output(
            slots,
            step,
            typed_stream(lz_decode(inputs, header, context.limits, 0)->Ok_0, 1),
        ),
{
    reveal(step_run);
}

proof fn lemma_field_lz_step(
    slots: Slots,
    step: StepView,
    headers: Seq<u8>,
    header: Seq<u8>,
    inputs: Seq<StreamView>,
    context: ContextView,
)
    requires
        step.standard_id == FIELD_LZ_ID,
        reads(slots, step, headers, header, inputs),
        step_run(slots, step, headers, context) is Ok,
    ensures
        field_lz_node(inputs, header, context.limits) is Ok,
        step_run(slots, step, headers, context) == stored_output(
            slots,
            step,
            field_lz_node(inputs, header, context.limits)->Ok_0,
        ),
{
    reveal(step_run);
}

proof fn lemma_zstd_step(
    slots: Slots,
    step: StepView,
    headers: Seq<u8>,
    header: Seq<u8>,
    inputs: Seq<StreamView>,
    context: ContextView,
)
    requires
        step.standard_id == ZSTD_ID,
        reads(slots, step, headers, header, inputs),
        step_run(slots, step, headers, context) is Ok,
    ensures
        inputs.len() == 1,
        zstd_node(inputs[0].bytes, header, step.dict_index, context) is Ok,
        step_run(slots, step, headers, context) == stored_output(
            slots,
            step,
            typed_stream(
                zstd_node(inputs[0].bytes, header, step.dict_index, context)->Ok_0,
                1,
            ),
        ),
{
    reveal(step_run);
}

proof fn lemma_dispatch_step(
    slots: Slots,
    step: StepView,
    headers: Seq<u8>,
    header: Seq<u8>,
    inputs: Seq<StreamView>,
    context: ContextView,
)
    requires
        step.standard_id == DISPATCH_STRING_ID,
        reads(slots, step, headers, header, inputs),
        step_run(slots, step, headers, context) is Ok,
    ensures
        dispatch_string_node(
            inputs,
            step.variable_inputs,
            header,
            context.version,
            context.limits,
        ) is Ok,
        step_run(slots, step, headers, context) == stored_output(
            slots,
            step,
            dispatch_string_node(
                inputs,
                step.variable_inputs,
                header,
                context.version,
                context.limits,
            )->Ok_0,
        ),
{
    reveal(step_run);
}

proof fn lemma_weave_step(
    slots: Slots,
    step: StepView,
    headers: Seq<u8>,
    header: Seq<u8>,
    inputs: Seq<StreamView>,
    context: ContextView,
)
    requires
        step.standard_id == SPLIT_BY_STRUCT_ID,
        reads(slots, step, headers, header, inputs),
        step_run(slots, step, headers, context) is Ok,
    ensures
        weave(inputs, context.limits) is Ok,
        step_run(slots, step, headers, context) == stored_output(
            slots,
            step,
            typed_stream(weave(inputs, context.limits)->Ok_0, 1),
        ),
{
    reveal(step_run);
}

/// A transform that joins streams leaves the joined bytes in its one place.
proof fn lemma_join_step(slots: Slots, step: StepView, headers: Seq<u8>, context: ContextView)
    requires
        step.standard_id == SPLITN_ID || step.standard_id == SPLITN_STRUCT_ID,
        step.targets.len() == 1,
        step.input_start + step.input_count <= usize::MAX,
        step.input_count > 0,
        step_run(slots, step, headers, context) is Ok,
    ensures
        ({
            let start = step.input_start as nat;
            let end = start + step.input_count as nat;
            let after = step_run(slots, step, headers, context)->Ok_0;
            let target = step.targets[0] as int;
            &&& end <= slots.len()
            &&& forall|i: int| start <= i < end ==> (#[trigger] slots[i]) is Some
            &&& target < after.len() == slots.len()
            &&& after[target] is Some
            &&& after[target]->Some_0.bytes == joined_bytes(streams_in(slots, start, end))
        }),
{
    reveal(step_run);
    let start = step.input_start as nat;
    let count = step.input_count as nat;
    let streams = streams_in(slots, start, start + count);
    if count == 1 {
        assert(joined_bytes(streams.drop_last()) =~= Seq::empty());
        assert(Seq::<u8>::empty() + streams.last().bytes =~= streams.last().bytes);
    } else {
        let inputs = node_inputs(slots, start, count)->Ok_0;
        assert(inputs =~= streams);
        let consumed = slots_consumed(slots, start as int, count as int);
        if step.standard_id == SPLITN_ID {
            lemma_one_stored(consumed, typed_stream(joined_bytes(inputs), 1), step.targets);
        } else {
            lemma_one_stored(
                consumed,
                typed_stream(joined_bytes(inputs), inputs[0].element_width),
                step.targets,
            );
        }
        assert forall|i: int| start <= i < start + count implies (#[trigger] slots[i]) is Some by {}
    }
}

/// What the last two transforms of a chunk give where they weave structures and join
/// them with other streams.
proof fn lemma_joined_structs_agree(
    slots: Slots,
    steps: Seq<StepView>,
    inputs: Seq<StreamView>,
    header: Seq<u8>,
    headers: Seq<u8>,
    context: ContextView,
    base: nat,
)
    requires
        0 < slots.len() <= usize::MAX,
        ends_in_joined_structs(steps, slots.len() - 1),
        reads(slots, steps[steps.len() - 2], headers, header, inputs),
        joined_structs(
            slots,
            inputs,
            steps,
            (steps.len() - 2) as nat,
            headers,
            context.limits,
            base,
        ) is Ok,
        steps_run(slots, steps, (steps.len() - 2) as nat, steps.len(), headers, context) is Ok,
    ensures
        final_stream(
            steps_run(
                slots,
                steps,
                (steps.len() - 2) as nat,
                steps.len(),
                headers,
                context,
            )->Ok_0,
        ) == joined_structs(
            slots,
            inputs,
            steps,
            (steps.len() - 2) as nat,
            headers,
            context.limits,
            base,
        ),
{
    reveal_with_fuel(steps_run, 3);
    let limits = context.limits;
    let step = steps[steps.len() - 2];
    let last = steps[steps.len() - 1];
    lemma_weave_step(slots, step, headers, header, inputs, context);
    let rows = typed_stream(weave(inputs, limits)->Ok_0, 1);
    let consumed = slots_consumed(slots, step.input_start as int, step.input_count as int);
    lemma_one_stored(consumed, rows, step.targets);
    let woven = step.targets[0] as int;
    let after = consumed.update(woven, Some(rows));
    let start = last.input_start as nat;
    let end = start + last.input_count as nat;
    lemma_join_step(after, last, headers, context);
    assert forall|i: int| start <= i < end implies (#[trigger] after[i]) is Some
        && after[i]->Some_0.bytes == (if i == woven {
        weave(inputs, limits)->Ok_0
    } else {
        slots[i]->Some_0.bytes
    }) by {}
    lemma_joined(slots, after, inputs, woven, start, end, limits, base, Seq::empty());
    let joined = joined_bytes(streams_in(after, start, end));
    assert(Seq::<u8>::empty() + joined =~= joined);
}

/// What the last two transforms of a chunk give where they put strings together and
/// write them as bytes.
proof fn lemma_dispatched_strings_agree(
    slots: Slots,
    steps: Seq<StepView>,
    inputs: Seq<StreamView>,
    header: Seq<u8>,
    headers: Seq<u8>,
    context: ContextView,
)
    requires
        0 < slots.len() <= usize::MAX,
        ends_in_dispatched_strings(steps, slots.len() - 1),
        reads(slots, steps[steps.len() - 2], headers, header, inputs),
        dispatch_string_serial(
            inputs,
            steps[steps.len() - 2].variable_inputs,
            header,
            context.version,
            context.limits,
        ) is Ok,
        steps_run(slots, steps, (steps.len() - 2) as nat, steps.len(), headers, context) is Ok,
    ensures
        final_stream(
            steps_run(
                slots,
                steps,
                (steps.len() - 2) as nat,
                steps.len(),
                headers,
                context,
            )->Ok_0,
        ) == dispatch_string_serial(
            inputs,
            steps[steps.len() - 2].variable_inputs,
            header,
            context.version,
            context.limits,
        ),
{
    let step = steps[steps.len() - 2];
    lemma_dispatch_step(slots, step, headers, header, inputs, context);
    let output = dispatch_string_node(
        inputs,
        step.variable_inputs,
        header,
        context.version,
        context.limits,
    )->Ok_0;
    reveal_with_fuel(chain_end, 2);
    lemma_chain_output(slots, steps, (steps.len() - 2) as nat, output, headers, context);
}

/// A chunk that can be written to the output directly and decodes both ways decodes to
/// the same bytes both ways.
pub proof fn law_direct_append_agrees_with_decoding(
    input: Seq<u8>,
    chunk: ChunkView,
    plan: PlanView,
    context: ContextView,
    base: nat,
)
    requires
        plan.steps.len() <= usize::MAX,
        plan.regen_targets.len() <= usize::MAX,
        chunk_appended(input, chunk, plan, context, base) is Ok,
        chunk_decoded(input, chunk, plan, context) is Ok,
    ensures
        chunk_appended(input, chunk, plan, context, base) == chunk_decoded(
            input,
            chunk,
            plan,
            context,
        ),
{
    let tail = direct_tail(plan)->Some_0;
    let steps = plan.steps;
    let last = plan.regen_targets.len() - 1;
    let start = tail.start as nat;
    match tail.kind {
        DirectAppendKind::Lz => {
            lemma_chain_start(steps, LZ_ID, 0, last);
        },
        DirectAppendKind::FieldLz => {
            lemma_chain_start(steps, FIELD_LZ_ID, 0, last);
        },
        DirectAppendKind::Zstd => {
            lemma_chain_start(steps, ZSTD_ID, 0, last);
        },
        _ => {},
    }
    let (opened, headers) = chunk_opened(input, chunk, plan)->Ok_0;
    lemma_opened_len(input, chunk.stored, plan.regen_targets, 0, 0, Seq::empty());
    lemma_steps_split(opened, steps, 0, start, steps.len(), headers, context);
    let slots = steps_run(opened, steps, 0, start, headers, context)->Ok_0;
    let step = steps[start as int];
    let header = step_header(headers, step.header_start as nat, step.header_size as nat)->Ok_0;
    let inputs = node_inputs(slots, step.input_start as nat, step.input_count as nat)->Ok_0;
    let limits = context.limits;
    match tail.kind {
        DirectAppendKind::Lz => {
            lemma_lz_step(slots, step, headers, header, inputs, context);
            law_lz_length_is_declared(inputs, header, limits, base);
            law_lz_ignores_earlier_bytes(inputs, header, limits, base, 0);
            let output = typed_stream(lz_decode(inputs, header, limits, 0)->Ok_0, 1);
            lemma_chain_output(slots, steps, start, output, headers, context);
        },
        DirectAppendKind::FieldLz => {
            lemma_field_lz_step(slots, step, headers, header, inputs, context);
            law_field_lz_ignores_earlier_bytes(inputs, header, limits, base, 0);
            let output = field_lz_node(inputs, header, limits)->Ok_0;
            lemma_chain_output(slots, steps, start, output, headers, context);
        },
        DirectAppendKind::Zstd => {
            lemma_zstd_step(slots, step, headers, header, inputs, context);
            let bytes = zstd_node(inputs[0].bytes, header, step.dict_index, context)->Ok_0;
            let output = typed_stream(bytes, 1);
            lemma_chain_output(slots, steps, start, output, headers, context);
        },
        DirectAppendKind::DispatchStringToSerial => {
            lemma_dispatched_strings_agree(slots, steps, inputs, header, headers, context);
        },
        DirectAppendKind::SplitByStructToSplitN => {
            lemma_joined_structs_agree(
                slots,
                steps,
                inputs,
                header,
                headers,
                context,
                base,
            );
        },
    }
}

} // verus!
