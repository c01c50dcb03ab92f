//! The streams of a chunk while its transforms are executed.

use smallvec::SmallVec;
use vstd::prelude::*;
use vstd::slice::slice_subrange;

use crate::error::{detailed, fail, plain, Error, ErrorKind, ErrorView};
use crate::frame_plan::{range_bytes, ByteRange, ChunkPlan};
use crate::scratch::DecodeScratch;
use crate::stream::{
    owned_views, stream_views, typed_stream, OwnedStream, StreamInput, StreamView,
};

verus! {

/// A stream of bytes of the frame.
#[derive(Clone, Copy)]
pub struct BorrowedStream<'a> {
    pub bytes: &'a [u8],
    pub element_width: usize,
}

/// The place of a stream.
pub enum StreamSlot<'a> {
    Empty,
    Borrowed(BorrowedStream<'a>),
    Owned(OwnedStream),
}

impl<'a> View for StreamSlot<'a> {
    type V = Option<StreamView>;

    open spec fn view(&self) -> Option<StreamView> {
        match self {
            StreamSlot::Empty => None,
            StreamSlot::Borrowed(stream) => Some(
                typed_stream(stream.bytes@, stream.element_width as nat),
            ),
            StreamSlot::Owned(stream) => Some(stream@),
        }
    }
}

/// The streams in some places.
pub type Slots = Seq<Option<StreamView>>;

/// The contents of some places.
pub open spec fn slot_views(slots: Seq<StreamSlot<'_>>) -> Slots {
    Seq::new(slots.len(), |i: int| slots[i]@)
}

/// The error of a place without a stream.
pub open spec fn missing_stream_error() -> ErrorView {
    detailed(ErrorKind::InvalidGraph, "node input stream is missing"@)
}

impl<'a> StreamSlot<'a> {
    /// The stream as a transform reads it.
    pub fn as_input(&'a self) -> (result: Result<StreamInput<'a>, Error>)
        ensures
            match self@ {
                Some(stream) => result is Ok && result->Ok_0@ == stream,
                None => result is Err && result->Err_0@ == missing_stream_error(),
            },
    {
        match self {
            StreamSlot::Empty => Err(fail(ErrorKind::InvalidGraph, "node input stream is missing")),
            StreamSlot::Borrowed(stream) => Ok(
                StreamInput {
                    bytes: stream.bytes,
                    element_width: stream.element_width,
                    string_lengths: None,
                },
            ),
            StreamSlot::Owned(stream) => Ok(stream.as_input()),
        }
    }
}

/// The streams that a transform reads, in a `SmallVec` of `smallvec`.
#[verifier::external_body]
pub struct NodeInputs<'a> {
    items: SmallVec<[StreamInput<'a>; 8]>,
}

/// The streams in a list of inputs, in order.
pub uninterp spec fn input_list(inputs: NodeInputs<'_>) -> Seq<StreamInput<'_>>;

/// An empty list, by `SmallVec::new`.
#[verifier::external_body]
fn no_inputs<'a>() -> (inputs: NodeInputs<'a>)
    ensures
        input_list(inputs) == Seq::<StreamInput<'a>>::empty(),
{
    NodeInputs { items: SmallVec::new() }
}

/// Puts a stream behind the others, by `SmallVec::push`.
#[verifier::external_body]
fn push_input<'a>(inputs: &mut NodeInputs<'a>, input: StreamInput<'a>)
    ensures
        input_list(*final(inputs)) == input_list(*old(inputs)).push(input),
{
    inputs.items.push(input);
}

/// The streams as a slice, by `SmallVec::as_slice`.
#[verifier::external_body]
pub(crate) fn input_slice<'b, 'a>(inputs: &'b NodeInputs<'a>) -> (slice: &'b [StreamInput<'a>])
    ensures
        slice@ == input_list(*inputs),
{
    inputs.items.as_slice()
}

/// The streams that a transform has produced, in a `SmallVec` of `smallvec`.
#[verifier::external_body]
pub struct NodeOutputs {
    items: SmallVec<[OwnedStream; 2]>,
}

/// The streams in a list of outputs, in order.
pub uninterp spec fn output_list(outputs: NodeOutputs) -> Seq<OwnedStream>;

/// A list of the streams of a vector, by `SmallVec::from_vec`.
#[verifier::external_body]
pub(crate) fn outputs_from(streams: Vec<OwnedStream>) -> (outputs: NodeOutputs)
    ensures
        output_list(outputs) == streams@,
{
    NodeOutputs { items: SmallVec::from_vec(streams) }
}

/// The streams of a list as a vector, by `SmallVec::into_vec`.
#[verifier::external_body]
pub(crate) fn outputs_into(outputs: NodeOutputs) -> (streams: Vec<OwnedStream>)
    ensures
        streams@ == output_list(outputs),
{
    outputs.items.into_vec()
}

/// Fills the places from `index` on: those that no transform writes hold the stored
/// streams from `next` on, in order.
pub open spec fn slots_from(
    input: Seq<u8>,
    stored: Seq<ByteRange>,
    written: Seq<bool>,
    index: nat,
    next: nat,
    slots: Slots,
) -> Result<Slots, ErrorView>
    decreases written.len() - index,
{
    if index >= written.len() {
        if next != stored.len() {
            Err(
                detailed(
                    ErrorKind::InvalidGraph,
                    "stored stream count does not match stream slots"@,
                ),
            )
        } else {
            Ok(slots)
        }
    } else if written[index as int] {
        slots_from(input, stored, written, index + 1, next, slots.push(None))
    } else if next >= stored.len() {
        Err(detailed(ErrorKind::InvalidGraph, "stored stream slot is missing"@))
    } else {
        match range_bytes(stored[next as int], input) {
            Err(error) => Err(error),
            Ok(bytes) => slots_from(
                input,
                stored,
                written,
                index + 1,
                next + 1,
                slots.push(Some(typed_stream(bytes, 1))),
            ),
        }
    }
}

/// Fills the places of a chunk with its stored streams.
pub fn initialize_stream_slots<'a>(
    input: &'a [u8],
    chunk: &ChunkPlan,
    regen_targets: &Vec<bool>,
) -> (result: Result<Vec<StreamSlot<'a>>, Error>)
    ensures
        match slots_from(input@, chunk@.stored, regen_targets@, 0, 0, Seq::empty()) {
            Ok(slots) => result is Ok && slot_views(result->Ok_0@) == slots && slots.len()
                == regen_targets@.len(),
            Err(error) => result is Err && result->Err_0@ == error,
        },
{
    let mut slots: Vec<StreamSlot<'a>> = Vec::new();
    let mut next: usize = 0;
    let mut index: usize = 0;
    let ghost total = slots_from(input@, chunk@.stored, regen_targets@, 0, 0, Seq::empty());
    proof {
        assert(slot_views(slots@) =~= Seq::empty());
    }
    while index < regen_targets.len()
        invariant
            index <= regen_targets@.len(),
            next <= index,
            slots@.len() == index,
            total == slots_from(input@, chunk@.stored, regen_targets@, 0, 0, Seq::empty()),
            total == slots_from(
                input@,
                chunk@.stored,
                regen_targets@,
                index as nat,
                next as nat,
                slot_views(slots@),
            ),
        decreases regen_targets@.len() - index,
    {
        let slot: StreamSlot<'a> = if regen_targets[index] {
            StreamSlot::Empty
        } else {
            match chunk.stored_stream_range(next) {
                None => {
                    return Err(fail(ErrorKind::InvalidGraph, "stored stream slot is missing"));
                },
                Some(range) => {
                    let bytes = range.as_slice(input)?;
                    next = next + 1;
                    StreamSlot::Borrowed(BorrowedStream { bytes, element_width: 1 })
                },
            }
        };
        proof {
            assert(slot_views(slots@.push(slot)) =~= slot_views(slots@).push(slot@));
        }
        slots.push(slot);
        index = index + 1;
    }
    if next != chunk.stored.len() {
        return Err(
            fail(
                ErrorKind::InvalidGraph,
                "stored stream count does not match stream slots",
            ),
        );
    }
    Ok(slots)
}

/// Whether each of `count` places from `start` on holds a stream.
pub open spec fn slots_filled(slots: Slots, start: int, count: int) -> bool {
    forall|i: int| start <= i < start + count ==> (#[trigger] slots[i]) is Some
}

/// The streams that a transform reads: those in `count` places from `start` on, last
/// one first.
pub open spec fn node_inputs(slots: Slots, start: nat, count: nat) -> Result<
    Seq<StreamView>,
    ErrorView,
> {
    if start + count > usize::MAX {
        Err(plain(ErrorKind::IntegerOverflow))
    } else if start + count > slots.len() {
        Err(detailed(ErrorKind::InvalidGraph, "node input range is out of bounds"@))
    } else if !slots_filled(slots, start as int, count as int) {
        Err(missing_stream_error())
    } else {
        Ok(Seq::new(count, |i: int| slots[start + count - 1 - i]->Some_0))
    }
}

/// Collects the streams that a transform reads.
pub fn collect_node_inputs<'a>(
    slots: &'a Vec<StreamSlot<'a>>,
    input_start: usize,
    input_count: usize,
) -> (result: Result<NodeInputs<'a>, Error>)
    ensures
        match node_inputs(slot_views(slots@), input_start as nat, input_count as nat) {
            Ok(inputs) => result is Ok && stream_views(input_list(result->Ok_0)) == inputs,
            Err(error) => result is Err && result->Err_0@ == error,
        },
{
    let input_end: usize = match input_start.checked_add(input_count) {
        Some(input_end) => input_end,
        None => {
            return Err(Error::new(ErrorKind::IntegerOverflow));
        },
    };
    if input_end > slots.len() {
        return Err(fail(ErrorKind::InvalidGraph, "node input range is out of bounds"));
    }
    let ghost views = slot_views(slots@);
    let mut inputs = no_inputs();
    let mut index: usize = input_end;
    while index > input_start
        invariant
            input_start <= index <= input_end,
            input_end == input_start + input_count,
            input_end <= slots@.len(),
            views == slot_views(slots@),
            forall|i: int| index <= i < input_end ==> (#[trigger] views[i]) is Some,
            input_list(inputs).len() == input_end - index,
            forall|i: int|
                0 <= i < input_end - index ==> #[trigger] stream_views(input_list(inputs))[i]
                    == views[input_end - 1 - i]->Some_0,
        decreases index,
    {
        index = index - 1;
        let ghost before = input_list(inputs);
        proof {
            assert(views[index as int] == slots@[index as int]@);
        }
        let input = match slots[index].as_input() {
            Ok(input) => input,
            Err(error) => {
                proof {
                    assert(views[index as int] is None);
                }
                return Err(error);
            },
        };
        push_input(&mut inputs, input);
        proof {
            assert forall|i: int| 0 <= i < input_end - index implies #[trigger] stream_views(
                input_list(inputs),
            )[i] == views[input_end - 1 - i]->Some_0 by {
                if i < before.len() {
                    assert(stream_views(before)[i] == views[input_end - 1 - i]->Some_0);
                }
            }
        }
    }
    proof {
        assert(stream_views(input_list(inputs)) =~= Seq::new(
            input_count as nat,
            |i: int| views[input_start + input_count - 1 - i]->Some_0,
        ));
    }
    Ok(inputs)
}

/// The stream that a transform with one input reads.
pub open spec fn single_slot_input(slots: Slots, start: nat) -> Result<StreamView, ErrorView> {
    if start >= slots.len() {
        Err(detailed(ErrorKind::InvalidGraph, "node input is missing"@))
    } else {
        match slots[start as int] {
            None => Err(missing_stream_error()),
            Some(stream) => Ok(stream),
        }
    }
}

/// Finds the stream that a transform with one input reads.
pub fn single_execution_input<'a>(slots: &'a Vec<StreamSlot<'a>>, input_start: usize) -> (result:
    Result<StreamInput<'a>, Error>)
    ensures
        match single_slot_input(slot_views(slots@), input_start as nat) {
            Ok(stream) => result is Ok && result->Ok_0@ == stream,
            Err(error) => result is Err && result->Err_0@ == error,
        },
{
    if input_start >= slots.len() {
        return Err(fail(ErrorKind::InvalidGraph, "node input is missing"));
    }
    slots[input_start].as_input()
}

/// The header of a transform.
pub open spec fn step_header(headers: Seq<u8>, start: nat, len: nat) -> Result<
    Seq<u8>,
    ErrorView,
> {
    if start + len > usize::MAX {
        Err(plain(ErrorKind::IntegerOverflow))
    } else if start + len > headers.len() {
        Err(detailed(ErrorKind::InvalidGraph, "node header is out of bounds"@))
    } else {
        Ok(headers.subrange(start as int, (start + len) as int))
    }
}

/// Finds the header of a transform.
pub fn node_header<'a>(headers: &'a [u8], start: usize, len: usize) -> (result: Result<
    &'a [u8],
    Error,
>)
    ensures
        match step_header(headers@, start as nat, len as nat) {
            Ok(header) => result is Ok && result->Ok_0@ == header,
            Err(error) => result is Err && result->Err_0@ == error,
        },
{
    let end: usize = match start.checked_add(len) {
        Some(end) => end,
        None => {
            return Err(Error::new(ErrorKind::IntegerOverflow));
        },
    };
    if end > headers.len() {
        return Err(fail(ErrorKind::InvalidGraph, "node header is out of bounds"));
    }
    Ok(slice_subrange(headers, start, end))
}

/// Takes the stream out of a place.
pub(crate) fn take_slot<'a>(slots: &mut Vec<StreamSlot<'a>>, index: usize) -> (slot: StreamSlot<'a>)
    requires
        index < old(slots)@.len(),
    ensures
        slot == old(slots)@[index as int],
        final(slots)@ == old(slots)@.update(index as int, StreamSlot::Empty),
{
    let mut slot = StreamSlot::Empty;
    std::mem::swap(&mut slot, &mut slots[index]);
    slot
}

/// The places after `count` of them from `start` on were emptied.
pub open spec fn slots_consumed(slots: Slots, start: int, count: int) -> Slots {
    Seq::new(
        slots.len(),
        |i: int|
            if start <= i < start + count {
                None
            } else {
                slots[i]
            },
    )
}

/// Empties the places that a transform read, and returns pooled buffers.
pub fn recycle_consumed_owned_streams(
    slots: &mut Vec<StreamSlot<'_>>,
    input_start: usize,
    input_count: usize,
    scratch: &mut DecodeScratch,
)
    requires
        input_start + input_count <= old(slots)@.len(),
        old(scratch).well_formed(),
    ensures
        slot_views(final(slots)@) == slots_consumed(
            slot_views(old(slots)@),
            input_start as int,
            input_count as int,
        ),
        final(scratch).well_formed(),
{
    let ghost before = slot_views(slots@);
    let mut index: usize = input_start;
    proof {
        assert(slots@.len() == slots.len());
        assert(slot_views(slots@) =~= slots_consumed(before, input_start as int, 0));
    }
    while index < input_start + input_count
        invariant
            input_start <= index <= input_start + input_count,
            input_start + input_count <= slots@.len() <= usize::MAX,
            before.len() == slots@.len(),
            scratch.well_formed(),
            slot_views(slots@) == slots_consumed(
                before,
                input_start as int,
                index - input_start,
            ),
        decreases input_start + input_count - index,
    {
        let ghost held = slots@;
        let slot = take_slot(slots, index);
        match slot {
            StreamSlot::Owned(stream) => {
                scratch.recycle_owned_stream(stream);
            },
            _ => {},
        }
        index = index + 1;
        proof {
            let after = slots_consumed(before, input_start as int, index - input_start);
            assert forall|i: int| 0 <= i < before.len() implies slot_views(slots@)[i]
                == after[i] by {
                assert(slot_views(held)[i] == held[i]@);
            }
            assert(slot_views(slots@) =~= after);
        }
    }
}

/// The error of an output that would overwrite a stream.
pub open spec fn overwrite_error() -> ErrorView {
    detailed(ErrorKind::InvalidGraph, "node output overwrites an existing stream"@)
}

/// Puts the outputs from `index` on into their places.
pub open spec fn outputs_stored(
    slots: Slots,
    outputs: Seq<StreamView>,
    targets: Seq<usize>,
    index: nat,
) -> Result<Slots, ErrorView>
    decreases targets.len() - index,
{
    if index >= targets.len() {
        Ok(slots)
    } else {
        let target = targets[index as int] as int;
        if target >= slots.len() {
            Err(detailed(ErrorKind::InvalidGraph, "node output target is out of bounds"@))
        } else if slots[target] is Some {
            Err(overwrite_error())
        } else {
            outputs_stored(
                slots.update(target, Some(outputs[index as int])),
                outputs,
                targets,
                index + 1,
            )
        }
    }
}

/// What the places hold once a transform has written its outputs.
pub open spec fn step_stored(slots: Slots, outputs: Seq<StreamView>, targets: Seq<usize>) -> Result<
    Slots,
    ErrorView,
> {
    if outputs.len() != targets.len() {
        Err(detailed(ErrorKind::InvalidGraph, "node output count does not match graph"@))
    } else {
        outputs_stored(slots, outputs, targets, 0)
    }
}

/// Puts the outputs of a transform into their places.
pub fn store_outputs(slots: &mut Vec<StreamSlot<'_>>, outputs: NodeOutputs, targets: &[usize]) -> (result:
    Result<(), Error>)
    ensures
        match step_stored(slot_views(old(slots)@), owned_views(output_list(outputs)), targets@) {
            Ok(after) => result is Ok && slot_views(final(slots)@) == after,
            Err(error) => result is Err && result->Err_0@ == error,
        },
{
    let ghost views = owned_views(output_list(outputs));
    let mut left: Vec<OwnedStream> = outputs_into(outputs);
    if left.len() != targets.len() {
        return Err(fail(ErrorKind::InvalidGraph, "node output count does not match graph"));
    }
    let ghost all = left@;
    let ghost total = outputs_stored(slot_views(slots@), views, targets@, 0);
    reverse_streams(&mut left);
    let mut index: usize = 0;
    while index < targets.len()
        invariant
            index <= targets@.len(),
            all.len() == targets@.len(),
            views == owned_views(all),
            views == owned_views(output_list(outputs)),
            left@ == all.reverse().take(targets@.len() - index),
            total == outputs_stored(slot_views(old(slots)@), views, targets@, 0),
            total == outputs_stored(slot_views(slots@), views, targets@, index as nat),
        decreases targets@.len() - index,
    {
        let target: usize = targets[index];
        let ghost before = slots@;
        if target >= slots.len() {
            return Err(fail(ErrorKind::InvalidGraph, "node output target is out of bounds"));
        }
        let empty: bool = match &slots[target] {
            StreamSlot::Empty => true,
            _ => false,
        };
        proof {
            assert(slot_views(before)[target as int] == before[target as int]@);
        }
        if !empty {
            return Err(fail(ErrorKind::InvalidGraph, "node output overwrites an existing stream"));
        }
        let ghost held = left@;
        match left.pop() {
            Some(stream) => {
                proof {
                    assert(stream == all[index as int]);
                    assert(views[index as int] == stream@);
                    assert(left@ =~= all.reverse().take(targets@.len() - (index + 1)));
                }
                slots.set(target, StreamSlot::Owned(stream));
                proof {
                    assert(slot_views(slots@) =~= slot_views(before).update(
                        target as int,
                        Some(views[index as int]),
                    ));
                }
            },
            None => {
                proof {
                    assert(held.len() > 0);
                }
            },
        }
        index = index + 1;
    }
    Ok(())
}

/// Turns a list of streams round.
fn reverse_streams(streams: &mut Vec<OwnedStream>)
    ensures
        final(streams)@ == old(streams)@.reverse(),
{
    let ghost all = streams@;
    let mut rest: Vec<OwnedStream> = Vec::new();
    std::mem::swap(&mut rest, streams);
    while rest.len() > 0
        invariant
            rest@.len() <= all.len(),
            rest@ == all.take(rest@.len() as int),
            streams@ == all.reverse().take(all.len() - rest@.len()),
        decreases rest@.len(),
    {
        let ghost held = rest@;
        match rest.pop() {
            Some(stream) => {
                proof {
                    assert(stream == all[held.len() - 1]);
                    assert(rest@ =~= all.take(rest@.len() as int));
                }
                streams.push(stream);
                proof {
                    assert(streams@ =~= all.reverse().take(all.len() - rest@.len()));
                }
            },
            None => {},
        }
    }
    proof {
        assert(streams@ =~= all.reverse());
    }
}

} // verus!
