//! How streams move from the stored ones through the transforms of a chunk.

use vstd::prelude::*;

use crate::bits::{bit_range, lemma_bit_range_values};
use crate::bytes::{law_var_u64_round_trip, var_bytes};
use crate::codecs::xxh3_hash;
use crate::conversions::{
    big_endian_conversion, byte_preserving, byte_preserving_node, conversion_output_width,
};
use crate::error::ErrorView;
use crate::execute::{
    conversion_moved, final_stream, joins_one_stream, splitn_moved, step_outputs, step_run,
    stream_moved,
};
use crate::frame_plan::{range_bytes, ByteRange, ChunkView, FrameInfoView, NodeView};
use crate::graph::{chunk_plan, outputs_placed, planned_input_count, steps_placed, StepView};
use crate::limits::Limits;
use crate::nodes::ContextView;
use crate::output::{decoded_checksum_error, output_size_error};
use crate::slots::{
    node_inputs, outputs_stored, single_slot_input, slots_consumed, slots_from, step_header,
    step_stored, Slots,
};
use crate::standard::{
    CONVERT_NUM_TO_SERIAL_LE_ID, CONVERT_SERIAL_TO_NUM_LE_ID, CONVERT_STRUCT_TO_SERIAL_ID,
    SPLITN_ID,
};
use crate::stream::{element, lemma_whole_elements, typed_stream, StreamView};
use crate::tokenize::{law_tokenize_looks_up_every_index, token, tokenize_fixed_node};

verus! {

/// How many streams the first `count` transforms read.
pub open spec fn streams_read(nodes: Seq<NodeView>, count: nat) -> nat
    decreases count,
{
    if count == 0 {
        0
    } else {
        let node = nodes[count - 1];
        streams_read(nodes, (count - 1) as nat) + planned_input_count(
            node.standard_id->Some_0,
            node.variable_outputs as nat,
        )->Ok_0
    }
}

/// Whether a transform is placed as its node says: it reads the streams behind those that the
/// ones before it read, and writes each output its distance behind its own inputs.
pub open spec fn step_placed(nodes: Seq<NodeView>, index: int, step: StepView) -> bool {
    let node = nodes[index];
    let end = streams_read(nodes, index as nat + 1);
    &&& node.standard_id == Some(step.standard_id)
    &&& step.input_start == streams_read(nodes, index as nat)
    &&& step.input_start + step.input_count == end
    &&& step.variable_inputs == node.variable_outputs
    &&& step.dict_index == node.dict_index
    &&& step.header_start == node.header_start
    &&& step.header_size == node.header_size
    &&& step.targets.len() == node.regen_distances.len()
    &&& forall|j: int|
        0 <= j < step.targets.len() ==> #[trigger] step.targets[j] == end + node.regen_distances[j]
}

proof fn lemma_outputs_placed(
    id: u32,
    distances: Seq<u32>,
    index: nat,
    input_end: nat,
    written: Seq<bool>,
    placed: Seq<usize>,
)
    requires
        index <= distances.len(),
        placed.len() == index,
        forall|j: int| 0 <= j < index ==> #[trigger] placed[j] == input_end + distances[j],
        outputs_placed(id, distances, index, input_end, written, placed) is Ok,
    ensures
        ({
            let all = outputs_placed(id, distances, index, input_end, written, placed)->Ok_0.1;
            &&& all.len() == distances.len()
            &&& forall|j: int|
                0 <= j < all.len() ==> #[trigger] all[j] == input_end + distances[j]
        }),
    decreases distances.len() - index,
{
    if index < distances.len() {
        let target = input_end + distances[index as int] as nat;
        lemma_outputs_placed(
            id,
            distances,
            index + 1,
            input_end,
            written.update(target as int, true),
            placed.push(target as usize),
        );
    }
}

proof fn lemma_steps_placed(
    nodes: Seq<NodeView>,
    index: nat,
    written: Seq<bool>,
    steps: Seq<StepView>,
)
    requires
        index <= nodes.len(),
        steps.len() == index,
        forall|s: int| 0 <= s < index ==> #[trigger] step_placed(nodes, s, steps[s]),
        steps_placed(nodes, index, streams_read(nodes, index), written, steps) is Ok,
    ensures
        ({
            let plan = steps_placed(
                nodes,
                index,
                streams_read(nodes, index),
                written,
                steps,
            )->Ok_0;
            &&& plan.steps.len() == nodes.len()
            &&& forall|s: int|
                0 <= s < nodes.len() ==> #[trigger] step_placed(nodes, s, plan.steps[s])
        }),
    decreases nodes.len() - index,
{
    if index < nodes.len() {
        let node = nodes[index as int];
        let id = node.standard_id->Some_0;
        let cursor = streams_read(nodes, index);
        let count = planned_input_count(id, node.variable_outputs as nat)->Ok_0;
        let (more, targets) = outputs_placed(
            id,
            node.regen_distances,
            0,
            cursor + count,
            written,
            Seq::empty(),
        )->Ok_0;
        lemma_outputs_placed(
            id,
            node.regen_distances,
            0,
            cursor + count,
            written,
            Seq::empty(),
        );
        let step = StepView {
            standard_id: id,
            input_start: cursor as usize,
            input_count: count as usize,
            targets,
            variable_inputs: node.variable_outputs,
            dict_index: node.dict_index,
            header_start: node.header_start,
            header_size: node.header_size,
        };
        let longer = steps.push(step);
        assert(streams_read(nodes, index + 1) == cursor + count);
        assert forall|s: int| 0 <= s < index + 1 implies #[trigger] step_placed(
            nodes,
            s,
            longer[s],
        ) by {
            if s < index {
                assert(step_placed(nodes, s, steps[s]));
            }
        }
        lemma_steps_placed(nodes, index + 1, more, longer);
    }
}

/// Every transform of a planned chunk is placed as its node says.
pub proof fn law_planned_steps_follow_their_nodes(chunk: ChunkView)
    requires
        chunk_plan(chunk) is Ok,
    ensures
        ({
            let plan = chunk_plan(chunk)->Ok_0;
            &&& plan.steps.len() == chunk.nodes.len()
            &&& forall|s: int|
                0 <= s < plan.steps.len() ==> #[trigger] step_placed(
                    chunk.nodes,
                    s,
                    plan.steps[s],
                )
        }),
{
    let streams = (chunk.stored.len() + chunk.regenerated) as nat;
    lemma_steps_placed(chunk.nodes, 0, Seq::new(streams, |i: int| false), Seq::empty());
}

/// How many of the first `count` places no transform writes.
pub open spec fn free_places(written: Seq<bool>, count: nat) -> nat
    decreases count,
{
    if count == 0 {
        0
    } else {
        free_places(written, (count - 1) as nat) + (if written[count - 1] {
            0nat
        } else {
            1nat
        })
    }
}

/// Whether a place is empty, because a transform writes it, or holds the next stored stream
/// as bytes.
pub open spec fn place_opened(
    input: Seq<u8>,
    stored: Seq<ByteRange>,
    written: Seq<bool>,
    slots: Slots,
    index: int,
) -> bool {
    let range = stored[free_places(written, index as nat) as int];
    if written[index] {
        slots[index] is None
    } else {
        &&& range.start <= range.end <= input.len()
        &&& slots[index] == Some(
            StreamView {
                bytes: input.subrange(range.start as int, range.end as int),
                element_width: 1,
                string_lengths: None,
            },
        )
    }
}

proof fn lemma_slots(
    input: Seq<u8>,
    stored: Seq<ByteRange>,
    written: Seq<bool>,
    index: nat,
    slots: Slots,
)
    requires
        index <= written.len(),
        slots.len() == index,
        forall|i: int|
            0 <= i < index ==> #[trigger] place_opened(input, stored, written, slots, i),
        slots_from(input, stored, written, index, free_places(written, index), slots) is Ok,
    ensures
        ({
            let all = slots_from(
                input,
                stored,
                written,
                index,
                free_places(written, index),
                slots,
            )->Ok_0;
            &&& all.len() == written.len()
            &&& free_places(written, written.len()) == stored.len()
            &&& forall|i: int|
                0 <= i < written.len() ==> #[trigger] place_opened(input, stored, written, all, i)
        }),
    decreases written.len() - index,
{
    if index < written.len() {
        let next = free_places(written, index);
        let place = if written[index as int] {
            None
        } else {
            Some(typed_stream(range_bytes(stored[next as int], input)->Ok_0, 1))
        };
        let more = slots.push(place);
        assert forall|i: int| 0 <= i < index + 1 implies #[trigger] place_opened(
            input,
            stored,
            written,
            more,
            i,
        ) by {
            if i < index {
                assert(place_opened(input, stored, written, slots, i));
            }
        }
        lemma_slots(input, stored, written, index + 1, more);
    }
}

/// Before a transform is executed, the places that none writes hold the stored streams in
/// order, all of them, and the others are empty.
pub proof fn law_stored_streams_fill_the_free_places(
    input: Seq<u8>,
    stored: Seq<ByteRange>,
    written: Seq<bool>,
)
    requires
        slots_from(input, stored, written, 0, 0, Seq::empty()) is Ok,
    ensures
        ({
            let slots = slots_from(input, stored, written, 0, 0, Seq::empty())->Ok_0;
            &&& slots.len() == written.len()
            &&& free_places(written, written.len()) == stored.len()
            &&& forall|i: int|
                0 <= i < written.len() ==> #[trigger] place_opened(
                    input,
                    stored,
                    written,
                    slots,
                    i,
                )
        }),
{
    lemma_slots(input, stored, written, 0, Seq::empty());
}

proof fn lemma_outputs_stored(
    slots: Slots,
    outputs: Seq<StreamView>,
    targets: Seq<usize>,
    index: nat,
)
    requires
        index <= targets.len() == outputs.len(),
        outputs_stored(slots, outputs, targets, index) is Ok,
    ensures
        ({
            let after = outputs_stored(slots, outputs, targets, index)->Ok_0;
            &&& after.len() == slots.len()
            &&& forall|j: int|
                index <= j < targets.len() ==> (#[trigger] targets[j]) < slots.len()
                    && slots[targets[j] as int] is None && after[targets[j] as int] == Some(
                    outputs[j],
                )
            &&& forall|i: int|
                0 <= i < slots.len() && (forall|j: int|
                    index <= j < targets.len() ==> #[trigger] targets[j] != i)
                    ==> #[trigger] after[i] == slots[i]
        }),
    decreases targets.len() - index,
{
    if index < targets.len() {
        let target = targets[index as int] as int;
        let next = slots.update(target, Some(outputs[index as int]));
        lemma_outputs_stored(next, outputs, targets, index + 1);
        let after = outputs_stored(slots, outputs, targets, index)->Ok_0;
        assert(forall|j: int|
            index + 1 <= j < targets.len() ==> next[(#[trigger] targets[j]) as int] is None);
        assert(after[target] == next[target]);
        assert forall|j: int| index <= j < targets.len() implies (#[trigger] targets[j])
            < slots.len() && slots[targets[j] as int] is None && after[targets[j] as int] == Some(
            outputs[j],
        ) by {
            if j > index {
                assert(next[targets[j] as int] is None);
            }
        }
    }
}

/// The outputs of a transform land in their places, which were empty, and nothing else
/// changes.
pub proof fn law_outputs_land_in_their_places(
    slots: Slots,
    outputs: Seq<StreamView>,
    targets: Seq<usize>,
)
    requires
        step_stored(slots, outputs, targets) is Ok,
    ensures
        ({
            let after = step_stored(slots, outputs, targets)->Ok_0;
            &&& outputs.len() == targets.len()
            &&& after.len() == slots.len()
            &&& forall|j: int|
                0 <= j < targets.len() ==> (#[trigger] targets[j]) < slots.len()
                    && slots[targets[j] as int] is None && after[targets[j] as int] == Some(
                    outputs[j],
                )
            &&& forall|i: int|
                0 <= i < slots.len() && !targets.contains(i as usize) ==> #[trigger] after[i]
                    == slots[i]
        }),
{
    lemma_outputs_stored(slots, outputs, targets, 0);
    let after = step_stored(slots, outputs, targets)->Ok_0;
    assert forall|i: int|
        0 <= i < slots.len() && !targets.contains(i as usize) implies #[trigger] after[i]
        == slots[i] by {
        assert forall|j: int| 0 <= j < targets.len() implies #[trigger] targets[j] != i by {
            if targets[j] == i {
                assert(targets.contains(targets[j]));
            }
        }
    }
}

/// A transform reads the streams of its places, the last one first.
pub proof fn law_inputs_are_read_last_first(slots: Slots, start: nat, count: nat)
    requires
        node_inputs(slots, start, count) is Ok,
    ensures
        ({
            let inputs = node_inputs(slots, start, count)->Ok_0;
            &&& inputs.len() == count
            &&& start + count <= slots.len()
            &&& forall|i: int|
                0 <= i < count ==> slots[start + count - 1 - i] == Some(#[trigger] inputs[i])
        }),
{
    let inputs = node_inputs(slots, start, count)->Ok_0;
    assert forall|i: int| 0 <= i < count implies slots[start + count - 1 - i] == Some(
        #[trigger] inputs[i],
    ) by {
        assert(slots[start + count - 1 - i] is Some);
    }
}

/// What a transform does to the places, where it makes new streams: it empties those that it
/// reads and fills those that it writes with what the transform makes of its inputs, by the
/// part of the headers that is its own.
#[verifier::rlimit(40)]
pub proof fn law_step_makes_its_outputs(
    slots: Slots,
    step: StepView,
    headers: Seq<u8>,
    context: ContextView,
)
    requires
        step_run(slots, step, headers, context) is Ok,
        !joins_one_stream(step),
        !byte_preserving(step.standard_id),
    ensures
        ({
            let after = step_run(slots, step, headers, context)->Ok_0;
            let start = step.input_start as nat;
            let count = step.input_count as nat;
            let inputs = Seq::new(count, |i: int| slots[start + count - 1 - i]->Some_0);
            let header = headers.subrange(
                step.header_start as int,
                step.header_start + step.header_size as int,
            );
            let outputs = step_outputs(step, inputs, header, context)->Ok_0;
            &&& step_outputs(step, inputs, header, context) is Ok
            &&& outputs.len() == step.targets.len()
            &&& after.len() == slots.len()
            &&& forall|j: int|
                0 <= j < outputs.len() ==> after[(#[trigger] step.targets[j]) as int] == Some(
                    outputs[j],
                )
            &&& forall|i: int|
                0 <= i < slots.len() && !step.targets.contains(i as usize)
                    ==> #[trigger] after[i] == (if start <= i < start + count {
                    None
                } else {
                    slots[i]
                })
        }),
{
    reveal(step_run);
    let start = step.input_start as nat;
    let count = step.input_count as nat;
    let inputs = node_inputs(slots, start, count)->Ok_0;
    assert(inputs =~= Seq::new(count, |i: int| slots[start + count - 1 - i]->Some_0));
    let header = step_header(headers, step.header_start as nat, step.header_size as nat)->Ok_0;
    let outputs = step_outputs(step, inputs, header, context)->Ok_0;
    law_outputs_land_in_their_places(
        slots_consumed(slots, start as int, count as int),
        outputs,
        step.targets,
    );
}

/// What a transform does to the places, where it only moves a stream: its one input goes to
/// its one output with the same bytes, and nothing else changes.
pub proof fn law_moved_stream_keeps_its_bytes(
    slots: Slots,
    step: StepView,
    headers: Seq<u8>,
    context: ContextView,
)
    requires
        step_run(slots, step, headers, context) is Ok,
        joins_one_stream(step) || byte_preserving(step.standard_id),
    ensures
        ({
            let after = step_run(slots, step, headers, context)->Ok_0;
            let source = step.input_start as int;
            let target = step.targets[0] as int;
            &&& step.targets.len() == 1
            &&& source < slots.len()
            &&& target < slots.len()
            &&& slots[source] is Some
            &&& slots[target] is None
            &&& after.len() == slots.len()
            &&& after[target] is Some
            &&& after[target]->Some_0.bytes == slots[source]->Some_0.bytes
            &&& after[source] is None
            &&& forall|i: int|
                0 <= i < slots.len() && i != source && i != target ==> #[trigger] after[i]
                    == slots[i]
        }),
{
    reveal(step_run);
    let after = step_run(slots, step, headers, context)->Ok_0;
    let header = step_header(headers, step.header_start as nat, step.header_size as nat)->Ok_0;
    let stream = single_slot_input(slots, step.input_start as nat)->Ok_0;
    if joins_one_stream(step) {
        assert(splitn_moved(slots, step, header, context.limits) is Ok);
        let width = if step.standard_id == SPLITN_ID {
            1
        } else {
            stream.element_width
        };
        assert(stream_moved(slots, step, width) == Ok::<Slots, ErrorView>(after));
    } else {
        let result = conversion_moved(slots, step, header, context.limits);
        assert(result == Ok::<Slots, ErrorView>(after));
        let width = conversion_output_width(
            step.standard_id,
            step.input_count as nat,
            stream,
            header,
            context.limits,
        )->Ok_0;
        assert(width is Some);
        assert(stream_moved(slots, step, width->Some_0) == Ok::<Slots, ErrorView>(after));
    }
}

/// A chunk decodes to the bytes in its last place.
pub proof fn law_last_place_is_the_output(slots: Slots)
    requires
        final_stream(slots) is Ok,
    ensures
        slots.len() > 0,
        slots[slots.len() - 1] is Some,
        slots[slots.len() - 1]->Some_0.bytes == final_stream(slots)->Ok_0,
{
}

/// A stated checksum is the low 32 bits of the hash of what was decoded; any other is
/// refused.
pub proof fn law_checksum_is_the_low_half_of_the_hash(decoded: Seq<u8>, stated: u32)
    ensures
        decoded_checksum_error(decoded, Some(stated)) is None <==> stated as int == xxh3_hash(
            decoded,
        ) as int % 0x1_0000_0000,
        decoded_checksum_error(decoded, None) is None,
{
}

/// Output is accepted if and only if it is within the limits, has the size that the frame
/// states, and is not larger than the frame by more than the admitted ratio.
pub proof fn law_output_size_is_checked(
    total: nat,
    frame_bytes: nat,
    info: FrameInfoView,
    limits: Limits,
)
    ensures
        output_size_error(total, frame_bytes, info, limits) is None <==> {
            &&& total <= limits.max_decoded_bytes
            &&& total <= limits.max_buffer_bytes
            &&& total <= frame_bytes * limits.max_expansion_ratio
            &&& info.output_sizes.len() > 0 && info.output_sizes[0] is Some
                ==> info.output_sizes[0]->Some_0 == total
        },
{
}

/// The element width that a conversion without a change of bytes gives: bytes for numbers
/// and strings, and for the way back the width that the header names.
pub proof fn law_conversions_give_their_widths(
    input: StreamView,
    limits: Limits,
    width: usize,
    log: u8,
)
    requires
        limits.admits(input.bytes.len() as int),
        width > 0,
        log < 4,
    ensures
        byte_preserving_node(
            CONVERT_SERIAL_TO_NUM_LE_ID,
            input,
            Seq::empty(),
            limits,
        ) == Ok::<StreamView, ErrorView>(
            StreamView { bytes: input.bytes, element_width: 1, string_lengths: None },
        ),
        input.bytes.len() % width as nat == 0 ==> byte_preserving_node(
            CONVERT_STRUCT_TO_SERIAL_ID,
            input,
            var_bytes(width as nat),
            limits,
        ) == Ok::<StreamView, ErrorView>(
            StreamView { bytes: input.bytes, element_width: width as nat, string_lengths: None },
        ),
        input.bytes.len() % bit_range(log as nat) == 0 ==> byte_preserving_node(
            CONVERT_NUM_TO_SERIAL_LE_ID,
            input,
            seq![log],
            limits,
        ) == Ok::<StreamView, ErrorView>(
            StreamView {
                bytes: input.bytes,
                element_width: bit_range(log as nat),
                string_lengths: None,
            },
        ),
{
    let none = Seq::<u8>::empty();
    let header = var_bytes(width as nat);
    law_var_u64_round_trip(none, width as u64, none);
    assert(none + header + none =~= header);
    assert(none + header =~= header);
    lemma_bit_range_values();
    assert(log == 0 || log == 1 || log == 2 || log == 3);
}

/// A conversion of big-endian integers turns the bytes of every integer round.
pub proof fn law_big_endian_bytes_are_turned_round(
    bytes: Seq<u8>,
    width: nat,
    limits: Limits,
    index: nat,
    byte: nat,
)
    requires
        big_endian_conversion(bytes, width, limits) is Ok,
        index < bytes.len() / width,
        byte < width,
    ensures
        ({
            let output = big_endian_conversion(bytes, width, limits)->Ok_0;
            &&& output.element_width == width
            &&& output.bytes.len() == bytes.len()
            &&& output.bytes[(index * width + byte) as int] == bytes[(index * width + (width - 1
                - byte)) as int]
        }),
{
    let place = index * width + byte;
    lemma_whole_elements(bytes.len(), width);
    crate::stream::lemma_element_inside(index, bytes.len() / width, width);
    vstd::arithmetic::div_mod::lemma_fundamental_div_mod_converse(
        place as int,
        width as int,
        index as int,
        byte as int,
    );
}

/// A tokenize_fixed node gives for every index the bytes of that letter of its alphabet.
pub proof fn law_tokenize_copies_every_byte(
    inputs: Seq<StreamView>,
    header: Seq<u8>,
    limits: Limits,
    place: nat,
    byte: nat,
)
    requires
        tokenize_fixed_node(inputs, header, limits) is Ok,
        place < inputs[1].bytes.len() / inputs[1].element_width,
        byte < inputs[0].element_width,
    ensures
        ({
            let output = tokenize_fixed_node(inputs, header, limits)->Ok_0;
            let width = inputs[0].element_width;
            let letter = element(inputs[1].bytes, inputs[1].element_width, place as int);
            &&& output.element_width == width
            &&& output.bytes.len() == inputs[1].bytes.len() / inputs[1].element_width * width
            &&& letter * width + width <= inputs[0].bytes.len()
            &&& output.bytes[(place * width + byte) as int] == inputs[0].bytes[(letter * width
                + byte) as int]
        }),
{
    let output = tokenize_fixed_node(inputs, header, limits)->Ok_0;
    let width = inputs[0].element_width;
    let count = inputs[1].bytes.len() / inputs[1].element_width;
    law_tokenize_looks_up_every_index(inputs, header, limits, place);
    lemma_tokens_inside(
        inputs[0],
        inputs[1],
        0,
        Seq::empty(),
        place,
    );
    let letter = element(inputs[1].bytes, inputs[1].element_width, place as int);
    lemma_whole_elements(inputs[0].bytes.len(), width);
    crate::stream::lemma_element_inside(letter, inputs[0].bytes.len() / width, width);
    crate::stream::lemma_element_inside(place, count, width);
    assert(token(output, place as int)[byte as int] == output.bytes[place * width + byte as int]);
    assert(token(inputs[0], letter as int)[byte as int] == inputs[0].bytes[letter * width
        + byte as int]);
}

proof fn lemma_tokens_inside(
    alphabet: StreamView,
    indices: StreamView,
    index: nat,
    decoded: Seq<u8>,
    place: nat,
)
    requires
        crate::tokenize::tokens_from(alphabet, indices, index, decoded) is Ok,
        index <= place < indices.bytes.len() / indices.element_width,
    ensures
        crate::stream::usize_element(indices.bytes, indices.element_width, place as int) is Ok,
        crate::stream::usize_element(indices.bytes, indices.element_width, place as int)->Ok_0
            < alphabet.bytes.len() / alphabet.element_width,
    decreases place - index,
{
    if index < place {
        let letter = crate::stream::usize_element(
            indices.bytes,
            indices.element_width,
            index as int,
        )->Ok_0;
        lemma_tokens_inside(
            alphabet,
            indices,
            index + 1,
            decoded + token(alphabet, letter as int),
            place,
        );
    }
}

} // verus!
