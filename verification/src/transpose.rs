//! Elements whose bytes were spread over one stream per byte.

use vstd::prelude::*;

use crate::error::{detailed, fail, outcome, Error, ErrorKind, ErrorView};
use crate::limits::{check_output_limit, output_limit_error, Limits};
use crate::scratch::DecodeScratch;
use crate::standard::{
    TRANSPOSE_SPLIT2_ID, TRANSPOSE_SPLIT4_ID, TRANSPOSE_SPLIT8_ID, TRANSPOSE_SPLIT_ID,
};
use crate::stream::{stream_views, typed_stream, OwnedStream, StreamInput, StreamView};

verus! {

/// Whether a transform gathers the bytes of its elements from several streams.
pub open spec fn transpose_split_id(id: u32) -> bool {
    id == TRANSPOSE_SPLIT_ID || id == TRANSPOSE_SPLIT2_ID || id == TRANSPOSE_SPLIT4_ID || id
        == TRANSPOSE_SPLIT8_ID
}

pub(crate) fn is_transpose_split(id: u32) -> (result: bool)
    ensures
        result == transpose_split_id(id),
{
    id == TRANSPOSE_SPLIT_ID || id == TRANSPOSE_SPLIT2_ID || id == TRANSPOSE_SPLIT4_ID || id
        == TRANSPOSE_SPLIT8_ID
}

/// The bytes of the lanes in turn, element by element.
pub open spec fn gathered_lanes(lanes: Seq<StreamView>) -> Seq<u8> {
    Seq::new(
        lanes[0].bytes.len() * lanes.len(),
        |i: int| lanes[i % lanes.len() as int].bytes[i / lanes.len() as int],
    )
}

/// What a transpose_split node produces.
pub open spec fn transpose_split_node(
    inputs: Seq<StreamView>,
    variable_inputs: u32,
    header: Seq<u8>,
    limits: Limits,
) -> Result<StreamView, ErrorView> {
    if header.len() != 0 {
        Err(detailed(ErrorKind::Unsupported, "transpose_split transform headers are unsupported"@))
    } else if variable_inputs != 0 && variable_inputs != inputs.len() {
        Err(
            detailed(
                ErrorKind::InvalidGraph,
                "transpose_split variable input count does not match inputs"@,
            ),
        )
    } else if inputs.len() == 0 {
        Err(
            detailed(
                ErrorKind::InvalidGraph,
                "transpose_split input count does not match width"@,
            ),
        )
    } else if inputs[0].bytes.len() * inputs.len() > usize::MAX {
        Err(detailed(ErrorKind::IntegerOverflow, "transpose size overflowed"@))
    } else if !limits.admits((inputs[0].bytes.len() * inputs.len()) as int) {
        Err(output_limit_error())
    } else if exists|i: int|
        0 <= i < inputs.len() && (#[trigger] inputs[i]).bytes.len() != inputs[0].bytes.len() {
        Err(detailed(ErrorKind::Malformed, "transpose_split lanes have different sizes"@))
    } else {
        Ok(typed_stream(gathered_lanes(inputs), inputs.len()))
    }
}

/// Byte `lane` of element `place` is byte `place` of that lane.
pub proof fn law_transpose_places_every_byte(
    inputs: Seq<StreamView>,
    variable_inputs: u32,
    header: Seq<u8>,
    limits: Limits,
    place: nat,
    lane: nat,
)
    requires
        transpose_split_node(inputs, variable_inputs, header, limits) is Ok,
        lane < inputs.len(),
        place < inputs[0].bytes.len(),
    ensures
        ({
            let output = transpose_split_node(inputs, variable_inputs, header, limits)->Ok_0;
            &&& output.element_width == inputs.len()
            &&& output.bytes.len() == inputs[0].bytes.len() * inputs.len()
            &&& output.bytes[(place * inputs.len() + lane) as int]
                == inputs[lane as int].bytes[place as int]
        }),
{
    let width = inputs.len();
    crate::stream::lemma_element_inside(place, inputs[0].bytes.len(), width);
    lemma_place(place, lane, width);
}

proof fn lemma_place(place: nat, lane: nat, width: nat)
    requires
        lane < width,
    ensures
        (place * width + lane) % width == lane,
        (place * width + lane) / width == place,
{
    vstd::arithmetic::mul::lemma_mul_is_commutative(place as int, width as int);
    vstd::arithmetic::div_mod::lemma_fundamental_div_mod_converse(
        (place * width + lane) as int,
        width as int,
        place as int,
        lane as int,
    );
}

/// Appends the bytes of the lanes in turn, element by element.
fn write_transpose_split_output(inputs: &[StreamInput<'_>], output: &mut Vec<u8>)
    requires
        old(output)@.len() == 0,
        inputs@.len() > 0,
        inputs@[0].bytes@.len() * inputs@.len() <= usize::MAX,
        forall|i: int|
            0 <= i < inputs@.len() ==> (#[trigger] inputs@[i]).bytes@.len()
                == inputs@[0].bytes@.len(),
    ensures
        final(output)@ == gathered_lanes(stream_views(inputs@)),
{
    let ghost views = stream_views(inputs@);
    let count: usize = inputs[0].bytes.len();
    let width: usize = inputs.len();
    let mut place: usize = 0;
    proof {
        assert(0 * width == 0);
    }
    while place < count
        invariant
            place <= count,
            width == inputs@.len(),
            width > 0,
            views == stream_views(inputs@),
            count == inputs@[0].bytes@.len(),
            forall|i: int|
                0 <= i < inputs@.len() ==> (#[trigger] inputs@[i]).bytes@.len()
                    == inputs@[0].bytes@.len(),
            output@.len() == place * width,
            forall|i: int|
                0 <= i < output@.len() ==> output@[i] == #[trigger] gathered_lanes(views)[i],
        decreases count - place,
    {
        proof {
            crate::stream::lemma_element_inside(place as nat, count as nat, width as nat);
        }
        let mut lane: usize = 0;
        while lane < width
            invariant
                lane <= width,
                place < count,
                width == inputs@.len(),
                width > 0,
                views == stream_views(inputs@),
                count == inputs@[0].bytes@.len(),
                place * width + width <= count * width,
                forall|i: int|
                    0 <= i < inputs@.len() ==> (#[trigger] inputs@[i]).bytes@.len()
                        == inputs@[0].bytes@.len(),
                output@.len() == place * width + lane,
                forall|i: int|
                    0 <= i < output@.len() ==> output@[i] == #[trigger] gathered_lanes(views)[i],
            decreases width - lane,
        {
            let ghost before = output@;
            output.push(inputs[lane].bytes[place]);
            proof {
                lemma_place(place as nat, lane as nat, width as nat);
                assert(views[lane as int] == inputs@[lane as int]@);
                assert(gathered_lanes(views)[place * width + lane] == output@.last());
            }
            lane = lane + 1;
        }
        place = place + 1;
    }
    proof {
        assert(output@ =~= gathered_lanes(views));
    }
}

/// Decodes a transpose_split node.
pub fn decode_transpose_split_node(
    inputs: &[StreamInput<'_>],
    variable_inputs: u32,
    header: &[u8],
    limits: Limits,
    scratch: &mut DecodeScratch,
) -> (result: Result<OwnedStream, Error>)
    requires
        old(scratch).well_formed(),
    ensures
        outcome(result) == transpose_split_node(
            stream_views(inputs@),
            variable_inputs,
            header@,
            limits,
        ),
        result is Ok ==> result->Ok_0.recyclable,
        final(scratch).well_formed(),
{
    if header.len() != 0 {
        return Err(
            fail(ErrorKind::Unsupported, "transpose_split transform headers are unsupported"),
        );
    }
    if variable_inputs != 0 && variable_inputs as usize != inputs.len() {
        return Err(
            fail(
                ErrorKind::InvalidGraph,
                "transpose_split variable input count does not match inputs",
            ),
        );
    }
    if inputs.len() == 0 {
        return Err(
            fail(ErrorKind::InvalidGraph, "transpose_split input count does not match width"),
        );
    }
    let width: usize = inputs.len();
    let lane_len: usize = inputs[0].bytes.len();
    let output_len: usize = match lane_len.checked_mul(width) {
        Some(output_len) => output_len,
        None => {
            return Err(fail(ErrorKind::IntegerOverflow, "transpose size overflowed"));
        },
    };
    check_output_limit(output_len, limits)?;
    let ghost views = stream_views(inputs@);
    let mut index: usize = 0;
    while index < inputs.len()
        invariant
            index <= inputs.len(),
            inputs@.len() > 0,
            views == stream_views(inputs@),
            lane_len == inputs@[0].bytes@.len(),
            output_len == lane_len * inputs@.len(),
            limits.admits(output_len as int),
            header@.len() == 0,
            variable_inputs == 0 || variable_inputs == inputs@.len(),
            scratch.well_formed(),
            forall|i: int|
                0 <= i < index ==> (#[trigger] inputs@[i]).bytes@.len() == inputs@[0].bytes@.len(),
        decreases inputs.len() - index,
    {
        if inputs[index].bytes.len() != lane_len {
            proof {
                assert(views[index as int].bytes.len() != views[0].bytes.len());
            }
            return Err(fail(ErrorKind::Malformed, "transpose_split lanes have different sizes"));
        }
        index = index + 1;
    }
    proof {
        assert forall|i: int| 0 <= i < views.len() implies (#[trigger] views[i]).bytes.len()
            == views[0].bytes.len() by {
            assert(inputs@[i].bytes@.len() == inputs@[0].bytes@.len());
        }
    }
    let mut output = scratch.take_byte_buffer(output_len);
    write_transpose_split_output(inputs, &mut output);
    Ok(OwnedStream::pooled(output, width))
}

} // verus!
