//! Literal and match lengths that share a byte, with a stream for the long ones.

use vstd::prelude::*;

use crate::bits::{bit_range, lemma_bit_range_monotone, lemma_bit_range_values, power_of_two};
use crate::error::{detailed, fail, plain, Error, ErrorKind, ErrorView};
use crate::limits::{check_output_limit, output_limit_error, Limits};
use crate::stream::{
    element, lemma_element_inside, lemma_whole_elements, numeric_width, outputs_outcome,
    owned_views, packed, push_element, read_numeric_element, stream_views, typed_stream,
    OwnedStream, StreamInput, StreamView,
};

verus! {

/// How a muxed byte splits: the low `split` bits are the literal length, the high
/// ones the match length less `bias`.
pub struct MuxShape {
    pub split: nat,
    pub bias: nat,
}

/// The error of running out of long lengths.
pub open spec fn long_lengths_error(width: nat) -> ErrorView {
    if width == 2 {
        detailed(ErrorKind::Malformed, "mux_lengths long-length stream is exhausted"@)
    } else {
        detailed(ErrorKind::Malformed, "numeric stream is truncated"@)
    }
}

/// A length of a muxed byte: `short`, to which the next long length is added
/// where `short` is the largest that fits. Gives the length and the number of
/// long lengths that are used up behind it.
pub open spec fn mux_length(long: StreamView, used: nat, short: nat, largest: nat) -> Result<
    (u64, nat),
    ErrorView,
> {
    if short != largest {
        Ok((short as u64, used))
    } else if used >= long.bytes.len() / long.element_width {
        Err(long_lengths_error(long.element_width))
    } else {
        let extra = element(long.bytes, long.element_width, used as int) as u64;
        Ok(((short as u64).wrapping_add(extra), used + 1))
    }
}

/// Separates the muxed bytes from `index` on.
pub open spec fn mux_from(
    muxed: Seq<u8>,
    long: StreamView,
    shape: MuxShape,
    index: nat,
    used: nat,
    literals: Seq<u64>,
    matches: Seq<u64>,
) -> Result<(Seq<u64>, Seq<u64>), ErrorView>
    decreases muxed.len() - index,
{
    if index >= muxed.len() {
        if used != long.bytes.len() / long.element_width {
            Err(
                detailed(
                    ErrorKind::Malformed,
                    "mux_lengths long-length stream was not fully consumed"@,
                ),
            )
        } else {
            Ok((literals, matches))
        }
    } else {
        let byte = muxed[index as int] as nat;
        match mux_length(
            long,
            used,
            byte % bit_range(shape.split),
            (bit_range(shape.split) - 1) as nat,
        ) {
            Err(error) => Err(error),
            Ok((literal, used)) => match mux_length(
                long,
                used,
                shape.bias + byte / bit_range(shape.split),
                (shape.bias + bit_range((8 - shape.split) as nat) - 1) as nat,
            ) {
                Err(error) => Err(error),
                Ok((matched, used)) => mux_from(
                    muxed,
                    long,
                    shape,
                    index + 1,
                    used,
                    literals.push(literal),
                    matches.push(matched),
                ),
            },
        }
    }
}

/// What a mux_lengths node produces: the literal lengths and the match lengths.
pub open spec fn mux_lengths_node(
    inputs: Seq<StreamView>,
    header: Seq<u8>,
    limits: Limits,
) -> Result<Seq<StreamView>, ErrorView> {
    if inputs.len() != 2 {
        Err(detailed(ErrorKind::InvalidGraph, "mux_lengths input count does not match node shape"@))
    } else if header.len() != 1 {
        Err(detailed(ErrorKind::Malformed, "mux_lengths header is malformed"@))
    } else {
        let muxed = inputs[0];
        let long = inputs[1];
        let width = long.element_width;
        let shape = MuxShape { split: header[0] as nat % 16, bias: header[0] as nat / 16 };
        if muxed.element_width != 1 {
            Err(detailed(ErrorKind::InvalidType, "mux_lengths muxed input must be serial bytes"@))
        } else if !numeric_width(width as int) {
            Err(detailed(ErrorKind::InvalidType, "mux_lengths long-length width is unsupported"@))
        } else if long.bytes.len() % width != 0 {
            Err(
                detailed(
                    ErrorKind::Malformed,
                    "mux_lengths long-length stream has partial element"@,
                ),
            )
        } else if shape.split > 8 {
            Err(detailed(ErrorKind::Malformed, "mux_lengths split point is invalid"@))
        } else if muxed.bytes.len() * width > usize::MAX {
            Err(plain(ErrorKind::IntegerOverflow))
        } else if !limits.admits((muxed.bytes.len() * width) as int) {
            Err(output_limit_error())
        } else {
            match mux_from(muxed.bytes, long, shape, 0, 0, Seq::empty(), Seq::empty()) {
                Err(error) => Err(error),
                Ok((literals, matches)) => Ok(
                    seq![
                        typed_stream(packed(literals, width), width),
                        typed_stream(packed(matches, width), width),
                    ],
                ),
            }
        }
    }
}

/// Literal and match lengths come out in pairs, one for each muxed byte.
pub proof fn law_mux_lengths_pair_up(inputs: Seq<StreamView>, header: Seq<u8>, limits: Limits)
    requires
        mux_lengths_node(inputs, header, limits) is Ok,
    ensures
        ({
            let outputs = mux_lengths_node(inputs, header, limits)->Ok_0;
            &&& outputs.len() == 2
            &&& outputs[0].bytes.len() == inputs[0].bytes.len() * inputs[1].element_width
            &&& outputs[1].bytes.len() == inputs[0].bytes.len() * inputs[1].element_width
        }),
{
    let shape = MuxShape { split: header[0] as nat % 16, bias: header[0] as nat / 16 };
    lemma_mux_counts(inputs[0].bytes, inputs[1], shape, 0, 0, Seq::empty(), Seq::empty());
    let (literals, matches) = mux_from(
        inputs[0].bytes,
        inputs[1],
        shape,
        0,
        0,
        Seq::empty(),
        Seq::empty(),
    )->Ok_0;
    crate::stream::lemma_packed_len(literals, inputs[1].element_width);
    crate::stream::lemma_packed_len(matches, inputs[1].element_width);
}

proof fn lemma_mux_counts(
    muxed: Seq<u8>,
    long: StreamView,
    shape: MuxShape,
    index: nat,
    used: nat,
    literals: Seq<u64>,
    matches: Seq<u64>,
)
    requires
        literals.len() == index,
        matches.len() == index,
        index <= muxed.len(),
        mux_from(muxed, long, shape, index, used, literals, matches) is Ok,
    ensures
        mux_from(muxed, long, shape, index, used, literals, matches)->Ok_0.0.len() == muxed.len(),
        mux_from(muxed, long, shape, index, used, literals, matches)->Ok_0.1.len() == muxed.len(),
    decreases muxed.len() - index,
{
    if index < muxed.len() {
        let byte = muxed[index as int] as nat;
        let (literal, used1) = mux_length(
            long,
            used,
            byte % bit_range(shape.split),
            (bit_range(shape.split) - 1) as nat,
        )->Ok_0;
        let (matched, used2) = mux_length(
            long,
            used1,
            shape.bias + byte / bit_range(shape.split),
            (shape.bias + bit_range((8 - shape.split) as nat) - 1) as nat,
        )->Ok_0;
        lemma_mux_counts(
            muxed,
            long,
            shape,
            index + 1,
            used2,
            literals.push(literal),
            matches.push(matched),
        );
    }
}

/// Completes a length that may continue among the long lengths.
fn read_mux_length(
    long: &StreamInput<'_>,
    long_count: usize,
    used: &mut usize,
    short: u64,
    largest: u64,
) -> (result: Result<u64, Error>)
    requires
        numeric_width(long.element_width as int),
        long.bytes@.len() == long_count * long.element_width,
        long_count == long.bytes@.len() / (long.element_width as nat),
        *old(used) <= long_count,
    ensures
        *final(used) <= long_count,
        match mux_length(long@, *old(used) as nat, short as nat, largest as nat) {
            Ok((length, next)) => result == Ok::<u64, Error>(length) && *final(used) == next,
            Err(error) => result is Err && result->Err_0@ == error,
        },
{
    if short != largest {
        return Ok(short);
    }
    if *used >= long_count {
        if long.element_width == 2 {
            return Err(fail(ErrorKind::Malformed, "mux_lengths long-length stream is exhausted"));
        }
        return Err(fail(ErrorKind::Malformed, "numeric stream is truncated"));
    }
    proof {
        lemma_element_inside(*used as nat, long_count as nat, long.element_width as nat);
        assert(long.bytes@.len() == long.bytes.len());
    }
    let extra: u64 = read_numeric_element(long.bytes, long.element_width, *used)?;
    *used = *used + 1;
    Ok(short.wrapping_add(extra))
}

/// Decodes a mux_lengths node into literal lengths and match lengths.
pub fn decode_mux_lengths_node(
    inputs: &[StreamInput<'_>],
    header: &[u8],
    limits: Limits,
) -> (result: Result<Vec<OwnedStream>, Error>)
    ensures
        outputs_outcome(result) == mux_lengths_node(stream_views(inputs@), header@, limits),
{
    if inputs.len() != 2 {
        return Err(
            fail(ErrorKind::InvalidGraph, "mux_lengths input count does not match node shape"),
        );
    }
    if header.len() != 1 {
        return Err(fail(ErrorKind::Malformed, "mux_lengths header is malformed"));
    }
    let muxed = inputs[0];
    let long = inputs[1];
    let width: usize = long.element_width;
    if muxed.element_width != 1 {
        return Err(fail(ErrorKind::InvalidType, "mux_lengths muxed input must be serial bytes"));
    }
    if !(width == 1 || width == 2 || width == 4 || width == 8) {
        return Err(fail(ErrorKind::InvalidType, "mux_lengths long-length width is unsupported"));
    }
    if long.bytes.len() % width != 0 {
        return Err(
            fail(ErrorKind::Malformed, "mux_lengths long-length stream has partial element"),
        );
    }
    let split_point: usize = (header[0] % 16) as usize;
    if split_point > 8 {
        return Err(fail(ErrorKind::Malformed, "mux_lengths split point is invalid"));
    }
    let bias: u64 = (header[0] / 16) as u64;
    let ghost shape = MuxShape { split: split_point as nat, bias: bias as nat };
    let output_len: usize = match muxed.bytes.len().checked_mul(width) {
        Some(output_len) => output_len,
        None => {
            return Err(Error::new(ErrorKind::IntegerOverflow));
        },
    };
    check_output_limit(output_len, limits)?;
    let literal_range: u64 = power_of_two(split_point);
    let match_range: u64 = power_of_two(8 - split_point);
    proof {
        lemma_whole_elements(long.bytes@.len(), width as nat);
        lemma_bit_range_monotone(split_point as nat, 8);
        lemma_bit_range_monotone((8 - split_point) as nat, 8);
        lemma_bit_range_values();
    }
    let long_count: usize = long.bytes.len() / width;
    let mut literal_lengths: Vec<u8> = Vec::new();
    let mut match_lengths: Vec<u8> = Vec::new();
    let ghost mut literals: Seq<u64> = Seq::empty();
    let ghost mut matches: Seq<u64> = Seq::empty();
    let ghost total = mux_from(muxed.bytes@, long@, shape, 0, 0, literals, matches);
    let ghost views = stream_views(inputs@);
    let mut used: usize = 0;
    let mut index: usize = 0;
    while index < muxed.bytes.len()
        invariant
            index <= muxed.bytes.len(),
            used <= long_count,
            views == stream_views(inputs@),
            width == long.element_width,
            numeric_width(width as int),
            long.bytes@.len() == long_count * width,
            long_count == long.bytes@.len() / (width as nat),
            shape == (MuxShape { split: split_point as nat, bias: bias as nat }),
            split_point <= 8,
            bias < 16,
            literal_range as nat == bit_range(shape.split),
            match_range as nat == bit_range((8 - shape.split) as nat),
            0 < literal_range <= 256,
            0 < match_range <= 256,
            literal_lengths@ == packed(literals, width as nat),
            match_lengths@ == packed(matches, width as nat),
            total == mux_from(
                muxed.bytes@,
                long@,
                shape,
                index as nat,
                used as nat,
                literals,
                matches,
            ),
            mux_lengths_node(views, header@, limits) == (match total {
                Err(error) => Err::<Seq<StreamView>, ErrorView>(error),
                Ok((literals, matches)) => Ok(
                    seq![
                        typed_stream(packed(literals, width as nat), width as nat),
                        typed_stream(packed(matches, width as nat), width as nat),
                    ],
                ),
            }),
        decreases muxed.bytes.len() - index,
    {
        let byte: u64 = muxed.bytes[index] as u64;
        let literal: u64 = read_mux_length(
            &long,
            long_count,
            &mut used,
            byte % literal_range,
            literal_range - 1,
        )?;
        proof {
            assert(byte / literal_range <= byte) by (nonlinear_arith)
                requires
                    literal_range > 0,
            ;
        }
        let matched: u64 = read_mux_length(
            &long,
            long_count,
            &mut used,
            bias + byte / literal_range,
            bias + match_range - 1,
        )?;
        push_element(&mut literal_lengths, literal, width, Ghost(literals));
        push_element(&mut match_lengths, matched, width, Ghost(matches));
        proof {
            literals = literals.push(literal);
            matches = matches.push(matched);
        }
        index = index + 1;
    }
    if used != long_count {
        return Err(
            fail(ErrorKind::Malformed, "mux_lengths long-length stream was not fully consumed"),
        );
    }
    let mut outputs: Vec<OwnedStream> = Vec::new();
    outputs.push(OwnedStream::typed(literal_lengths, width));
    outputs.push(OwnedStream::typed(match_lengths, width));
    proof {
        assert(owned_views(outputs@) =~= seq![
            typed_stream(packed(literals, width as nat), width as nat),
            typed_stream(packed(matches, width as nat), width as nat),
        ]);
    }
    Ok(outputs)
}

} // verus!
