//! Integers whose bits were spread over several streams.

use vstd::prelude::*;

use crate::error::{detailed, fail, outcome, plain, plain_outcome, Error, ErrorKind, ErrorView};
use crate::limits::{check_output_limit, output_limit_error, Limits};
use crate::stream::{
    element, element_count, lemma_element_inside, numeric_element_count, numeric_width,
    numeric_width_error, packed, push_element, read_numeric_element, stream_views, typed_stream,
    validate_numeric_stream_width, OwnedStream, StreamInput, StreamView,
};

verus! {

/// Adds up the stored bit widths from `index` on.
pub open spec fn stored_width_sum(widths: Seq<u8>, index: nat, sum: nat) -> Result<nat, ErrorView>
    decreases widths.len() - index,
{
    if index >= widths.len() {
        Ok(sum)
    } else if widths[index as int] == 0 {
        Err(detailed(ErrorKind::Malformed, "bitsplit width is zero"@))
    } else if sum + widths[index as int] > usize::MAX {
        Err(plain(ErrorKind::IntegerOverflow))
    } else {
        stored_width_sum(widths, index + 1, sum + widths[index as int] as nat)
    }
}

/// The bit widths of the parts: the stored ones, and the rest of the output where
/// there is one more input.
pub open spec fn part_widths(
    output_bits: nat,
    stored: Seq<u8>,
    input_count: nat,
    variable_inputs: u32,
) -> Result<Seq<nat>, ErrorView> {
    match stored_width_sum(stored, 0, 0) {
        Err(error) => Err(error),
        Ok(sum) => {
            let known = Seq::new(stored.len(), |i: int| stored[i] as nat);
            if sum > output_bits {
                Err(detailed(ErrorKind::Malformed, "bitsplit widths exceed output width"@))
            } else if input_count == stored.len() + 1 && sum == output_bits {
                Err(detailed(ErrorKind::Malformed, "bitsplit inferred width is zero"@))
            } else if input_count != stored.len() + 1 && input_count != stored.len() {
                Err(detailed(ErrorKind::InvalidGraph, "bitsplit input count does not match header"@))
            } else if input_count == 0 {
                Err(detailed(ErrorKind::Malformed, "bitsplit has no bit widths"@))
            } else if variable_inputs != input_count {
                Err(
                    detailed(
                        ErrorKind::InvalidGraph,
                        "bitsplit variable input count does not match inputs"@,
                    ),
                )
            } else if input_count == stored.len() + 1 {
                Ok(known.push((output_bits - sum) as nat))
            } else {
                Ok(known)
            }
        },
    }
}

/// The width in bytes of a stream that holds parts of `bits` bits.
pub open spec fn part_element_width(bits: nat) -> nat {
    if bits <= 8 {
        1
    } else if bits <= 16 {
        2
    } else if bits <= 32 {
        4
    } else {
        8
    }
}

/// The error, if any, of the inputs from `index` on.
pub open spec fn parts_error(
    inputs: Seq<StreamView>,
    widths: Seq<nat>,
    count: nat,
    index: nat,
) -> Option<ErrorView>
    decreases inputs.len() - index,
{
    if index >= inputs.len() {
        None
    } else {
        let input = inputs[index as int];
        let bits = widths[index as int];
        if let Some(error) = numeric_width_error(input.element_width as int, "bitsplit input"@) {
            Some(error)
        } else if let Err(error) = element_count(input.bytes.len(), input.element_width) {
            Some(error)
        } else if input.bytes.len() / input.element_width != count {
            Some(detailed(ErrorKind::Malformed, "bitsplit input counts do not match"@))
        } else if bits > input.element_width * 8 {
            Some(detailed(ErrorKind::Malformed, "bitsplit width exceeds input width"@))
        } else if input.element_width != part_element_width(bits) {
            Some(detailed(ErrorKind::InvalidType, "bitsplit input width does not match bit width"@))
        } else {
            parts_error(inputs, widths, count, index + 1)
        }
    }
}

/// The bits below the part at `index`.
pub open spec fn bits_below(widths: Seq<nat>, index: nat) -> nat
    decreases index,
{
    if index == 0 {
        0
    } else {
        bits_below(widths, (index - 1) as nat) + widths[index - 1]
    }
}

/// Element `place` of the first `index` parts put together, each shifted above the
/// bits of those before it.
pub open spec fn merged_parts(
    inputs: Seq<StreamView>,
    widths: Seq<nat>,
    place: int,
    index: nat,
) -> u64
    decreases index,
{
    if index == 0 {
        0
    } else {
        let input = inputs[index - 1];
        let part = element(input.bytes, input.element_width, place) as u64;
        merged_parts(inputs, widths, place, (index - 1) as nat) | (part << (bits_below(
            widths,
            (index - 1) as nat,
        ) as u64))
    }
}

/// What a bitsplit node produces.
pub open spec fn bitsplit_node(
    inputs: Seq<StreamView>,
    variable_inputs: u32,
    header: Seq<u8>,
    limits: Limits,
) -> Result<StreamView, ErrorView> {
    if header.len() == 0 {
        Err(detailed(ErrorKind::Malformed, "bitsplit header is missing output width"@))
    } else if let Some(error) = numeric_width_error(header[0] as int, "bitsplit output"@) {
        Err(error)
    } else {
        let width = header[0] as nat;
        match part_widths(
            width * 8,
            header.subrange(1, header.len() as int),
            inputs.len(),
            variable_inputs,
        ) {
            Err(error) => Err(error),
            Ok(widths) => match (if inputs[0].element_width == 0 {
                Err(detailed(ErrorKind::Malformed, "numeric stream has partial element"@))
            } else {
                element_count(inputs[0].bytes.len(), inputs[0].element_width)
            }) {
                Err(error) => Err(error),
                Ok(count) => if let Some(error) = parts_error(inputs, widths, count as nat, 0) {
                    Err(error)
                } else if count * width > usize::MAX {
                    Err(plain(ErrorKind::IntegerOverflow))
                } else if !limits.admits(count * width) {
                    Err(output_limit_error())
                } else {
                    Ok(
                        typed_stream(
                            packed(
                                Seq::new(
                                    count as nat,
                                    |i: int| merged_parts(inputs, widths, i, inputs.len()),
                                ),
                                width,
                            ),
                            width,
                        ),
                    )
                },
            },
        }
    }
}

/// Where a part fits the bits that it was given, merging it in adds it above the
/// bits below.
pub proof fn law_disjoint_parts_add(low: u64, part: u64, shift: u64)
    requires
        shift < 64,
        low < 1u64 << shift,
        part <= u64::MAX >> shift,
    ensures
        low | (part << shift) == low + part * (1u64 << shift),
{
    assert(low | (part << shift) == low + part * (1u64 << shift)) by (bit_vector)
        requires
            shift < 64,
            low < 1u64 << shift,
            part <= u64::MAX >> shift,
    ;
}

proof fn lemma_bits_below_sum(stored: Seq<u8>, index: nat, sum: nat)
    requires
        index <= stored.len(),
        sum == bits_below(Seq::new(stored.len(), |i: int| stored[i] as nat), index),
        stored_width_sum(stored, index, sum) is Ok,
    ensures
        stored_width_sum(stored, index, sum)->Ok_0 == bits_below(
            Seq::new(stored.len(), |i: int| stored[i] as nat),
            stored.len(),
        ),
        forall|i: int| index <= i < stored.len() ==> stored[i] > 0,
    decreases stored.len() - index,
{
    if index < stored.len() {
        lemma_bits_below_sum(stored, index + 1, sum + stored[index as int] as nat);
    }
}

proof fn lemma_bits_below_monotone(widths: Seq<nat>, small: nat, large: nat)
    requires
        small <= large,
    ensures
        bits_below(widths, small) <= bits_below(widths, large),
    decreases large,
{
    if small < large {
        lemma_bits_below_monotone(widths, small, (large - 1) as nat);
    }
}

proof fn lemma_bits_below_prefix(widths: Seq<nat>, longer: Seq<nat>, index: nat)
    requires
        index <= widths.len() <= longer.len(),
        forall|i: int| 0 <= i < widths.len() ==> widths[i] == longer[i],
    ensures
        bits_below(widths, index) == bits_below(longer, index),
    decreases index,
{
    if index > 0 {
        lemma_bits_below_prefix(widths, longer, (index - 1) as nat);
    }
}

/// The widths of the parts are positive and fill at most the output.
proof fn lemma_part_widths(output_bits: nat, stored: Seq<u8>, count: nat, variable_inputs: u32)
    requires
        part_widths(output_bits, stored, count, variable_inputs) is Ok,
    ensures
        ({
            let widths = part_widths(output_bits, stored, count, variable_inputs)->Ok_0;
            &&& widths.len() == count
            &&& count > 0
            &&& bits_below(widths, count) <= output_bits
            &&& forall|i: int| 0 <= i < count ==> #[trigger] widths[i] > 0
        }),
{
    let known = Seq::new(stored.len(), |i: int| stored[i] as nat);
    lemma_bits_below_sum(stored, 0, 0);
    let widths = part_widths(output_bits, stored, count, variable_inputs)->Ok_0;
    lemma_bits_below_prefix(known, widths, stored.len());
}

fn sum_stored_widths(stored: &[u8]) -> (result: Result<usize, Error>)
    ensures
        match result {
            Ok(sum) => stored_width_sum(stored@, 0, 0) == Ok::<nat, ErrorView>(sum as nat),
            Err(error) => stored_width_sum(stored@, 0, 0) == Err::<nat, ErrorView>(error@),
        },
{
    let mut sum: usize = 0;
    let mut index: usize = 0;
    while index < stored.len()
        invariant
            index <= stored.len(),
            stored_width_sum(stored@, 0, 0) == stored_width_sum(stored@, index as nat, sum as nat),
        decreases stored.len() - index,
    {
        if stored[index] == 0 {
            return Err(fail(ErrorKind::Malformed, "bitsplit width is zero"));
        }
        sum = match sum.checked_add(stored[index] as usize) {
            Some(sum) => sum,
            None => {
                return Err(Error::new(ErrorKind::IntegerOverflow));
            },
        };
        index = index + 1;
    }
    Ok(sum)
}

/// The contents of a list of bit widths.
pub open spec fn width_values(widths: Seq<usize>) -> Seq<nat> {
    Seq::new(widths.len(), |i: int| widths[i] as nat)
}

fn collect_part_widths(
    output_bits: usize,
    stored: &[u8],
    input_count: usize,
    variable_inputs: u32,
) -> (result: Result<Vec<usize>, Error>)
    ensures
        match result {
            Ok(widths) => part_widths(
                output_bits as nat,
                stored@,
                input_count as nat,
                variable_inputs,
            ) == Ok::<Seq<nat>, ErrorView>(width_values(widths@)),
            Err(error) => part_widths(
                output_bits as nat,
                stored@,
                input_count as nat,
                variable_inputs,
            ) == Err::<Seq<nat>, ErrorView>(error@),
        },
{
    let sum: usize = sum_stored_widths(stored)?;
    if sum > output_bits {
        return Err(fail(ErrorKind::Malformed, "bitsplit widths exceed output width"));
    }
    let inferred: bool = input_count > 0 && input_count - 1 == stored.len();
    if inferred && sum == output_bits {
        return Err(fail(ErrorKind::Malformed, "bitsplit inferred width is zero"));
    }
    if !inferred && input_count != stored.len() {
        return Err(fail(ErrorKind::InvalidGraph, "bitsplit input count does not match header"));
    }
    if input_count == 0 {
        return Err(fail(ErrorKind::Malformed, "bitsplit has no bit widths"));
    }
    if variable_inputs as usize != input_count {
        return Err(
            fail(ErrorKind::InvalidGraph, "bitsplit variable input count does not match inputs"),
        );
    }
    let mut widths: Vec<usize> = Vec::new();
    let mut index: usize = 0;
    while index < stored.len()
        invariant
            index <= stored.len(),
            widths@.len() == index,
            forall|i: int| 0 <= i < index ==> widths@[i] == stored@[i],
        decreases stored.len() - index,
    {
        widths.push(stored[index] as usize);
        index = index + 1;
    }
    let ghost known = Seq::new(stored@.len(), |i: int| stored@[i] as nat);
    proof {
        assert(width_values(widths@) =~= known);
    }
    if inferred {
        widths.push(output_bits - sum);
        proof {
            assert(width_values(widths@) =~= known.push((output_bits - sum) as nat));
        }
    }
    Ok(widths)
}

/// The width in bytes of a stream that holds parts of `bit_width` bits.
pub fn bitsplit_element_width(bit_width: usize) -> (result: Result<usize, Error>)
    ensures
        plain_outcome(result) == (if 1 <= bit_width <= 64 {
            Ok(part_element_width(bit_width as nat) as usize)
        } else {
            Err(detailed(ErrorKind::Malformed, "bitsplit bit width is unsupported"@))
        }),
{
    if bit_width == 0 || bit_width > 64 {
        return Err(fail(ErrorKind::Malformed, "bitsplit bit width is unsupported"));
    }
    if bit_width <= 8 {
        Ok(1)
    } else if bit_width <= 16 {
        Ok(2)
    } else if bit_width <= 32 {
        Ok(4)
    } else {
        Ok(8)
    }
}

/// Every input holds `count` elements of a supported width.
pub open spec fn parts_cover(inputs: Seq<StreamView>, count: nat) -> bool {
    forall|i: int|
        0 <= i < inputs.len() ==> numeric_width((#[trigger] inputs[i]).element_width as int)
            && inputs[i].bytes.len() == count * inputs[i].element_width
}

fn check_parts(inputs: &[StreamInput<'_>], widths: &[usize], count: usize) -> (result: Result<
    (),
    Error,
>)
    requires
        widths@.len() == inputs@.len(),
        forall|i: int| 0 <= i < widths@.len() ==> #[trigger] widths@[i] > 0,
    ensures
        match result {
            Ok(_) => parts_error(
                stream_views(inputs@),
                width_values(widths@),
                count as nat,
                0,
            ) is None && parts_cover(stream_views(inputs@), count as nat),
            Err(error) => parts_error(
                stream_views(inputs@),
                width_values(widths@),
                count as nat,
                0,
            ) == Some(error@),
        },
{
    let ghost views = stream_views(inputs@);
    let ghost values = width_values(widths@);
    let mut index: usize = 0;
    while index < inputs.len()
        invariant
            index <= inputs.len(),
            views == stream_views(inputs@),
            values == width_values(widths@),
            widths@.len() == inputs@.len(),
            forall|i: int| 0 <= i < widths@.len() ==> #[trigger] widths@[i] > 0,
            parts_error(views, values, count as nat, 0) == parts_error(
                views,
                values,
                count as nat,
                index as nat,
            ),
            forall|i: int|
                0 <= i < index ==> numeric_width((#[trigger] views[i]).element_width as int)
                    && views[i].bytes.len() == count * views[i].element_width,
        decreases inputs.len() - index,
    {
        let input = inputs[index];
        assert(views[index as int] == input@);
        validate_numeric_stream_width(input.element_width, "bitsplit input")?;
        if numeric_element_count(input.bytes, input.element_width)? != count {
            return Err(fail(ErrorKind::Malformed, "bitsplit input counts do not match"));
        }
        if widths[index] > input.element_width * 8 {
            return Err(fail(ErrorKind::Malformed, "bitsplit width exceeds input width"));
        }
        if input.element_width != bitsplit_element_width(widths[index])? {
            return Err(
                fail(ErrorKind::InvalidType, "bitsplit input width does not match bit width"),
            );
        }
        index = index + 1;
    }
    Ok(())
}

/// Decodes a bitsplit node.
pub fn decode_bitsplit_node(
    inputs: &[StreamInput<'_>],
    variable_inputs: u32,
    header: &[u8],
    limits: Limits,
) -> (result: Result<OwnedStream, Error>)
    ensures
        outcome(result) == bitsplit_node(stream_views(inputs@), variable_inputs, header@, limits),
        result is Ok ==> !result->Ok_0.recyclable,
{
    if header.len() == 0 {
        return Err(fail(ErrorKind::Malformed, "bitsplit header is missing output width"));
    }
    let output_width: usize = header[0] as usize;
    validate_numeric_stream_width(output_width, "bitsplit output")?;
    let stored = vstd::slice::slice_subrange(header, 1, header.len());
    let widths = collect_part_widths(output_width * 8, stored, inputs.len(), variable_inputs)?;
    let ghost views = stream_views(inputs@);
    let ghost values = width_values(widths@);
    proof {
        lemma_part_widths(
            (output_width * 8) as nat,
            stored@,
            inputs@.len() as nat,
            variable_inputs,
        );
        assert forall|i: int| 0 <= i < widths@.len() implies #[trigger] widths@[i] > 0 by {
            assert(values[i] > 0);
        }
    }
    if inputs[0].element_width == 0 {
        return Err(fail(ErrorKind::Malformed, "numeric stream has partial element"));
    }
    let count: usize = numeric_element_count(inputs[0].bytes, inputs[0].element_width)?;
    check_parts(inputs, widths.as_slice(), count)?;
    let output_len: usize = match count.checked_mul(output_width) {
        Some(output_len) => output_len,
        None => {
            return Err(Error::new(ErrorKind::IntegerOverflow));
        },
    };
    check_output_limit(output_len, limits)?;
    let mut output: Vec<u8> = Vec::new();
    let ghost merged = Seq::new(
        count as nat,
        |i: int| merged_parts(views, values, i, views.len()),
    );
    let mut place: usize = 0;
    proof {
        assert(merged.take(0) =~= Seq::empty());
    }
    while place < count
        invariant
            place <= count,
            views == stream_views(inputs@),
            values == width_values(widths@),
            values.len() == inputs@.len(),
            parts_cover(views, count as nat),
            bits_below(values, values.len()) <= 64,
            forall|i: int| 0 <= i < values.len() ==> #[trigger] values[i] > 0,
            merged == Seq::new(
                count as nat,
                |i: int| merged_parts(views, values, i, views.len()),
            ),
            output@ == packed(merged.take(place as int), output_width as nat),
        decreases count - place,
    {
        let mut value: u64 = 0;
        let mut bit_pos: usize = 0;
        let mut index: usize = 0;
        while index < inputs.len()
            invariant
                index <= inputs.len(),
                place < count,
                views == stream_views(inputs@),
                values == width_values(widths@),
                values.len() == inputs@.len(),
                parts_cover(views, count as nat),
                bits_below(values, values.len()) <= 64,
                forall|i: int| 0 <= i < values.len() ==> #[trigger] values[i] > 0,
                bit_pos == bits_below(values, index as nat),
                value == merged_parts(views, values, place as int, index as nat),
            decreases inputs.len() - index,
        {
            let input = inputs[index];
            proof {
                assert(views[index as int] == input@);
                lemma_element_inside(place as nat, count as nat, input.element_width as nat);
                assert(input.bytes@.len() == input.bytes.len());
                assert(values[index as int] > 0);
                lemma_bits_below_monotone(values, (index + 1) as nat, values.len());
            }
            let part: u64 = match read_numeric_element(input.bytes, input.element_width, place) {
                Ok(part) => part,
                Err(error) => {
                    return Err(error);
                },
            };
            value = value | (part << (bit_pos as u64));
            bit_pos = bit_pos + widths[index];
            index = index + 1;
        }
        push_element(&mut output, value, output_width, Ghost(merged.take(place as int)));
        proof {
            assert(merged.take(place + 1) =~= merged.take(place as int).push(value));
        }
        place = place + 1;
    }
    proof {
        assert(merged.take(place as int) =~= merged);
    }
    Ok(OwnedStream::typed(output, output_width))
}

} // verus!
