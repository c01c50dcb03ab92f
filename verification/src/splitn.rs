//! Streams that were split before encoding are joined again.

use vstd::prelude::*;

use crate::bytes::{append_bytes, read_var_u64, var_u64};
use crate::concat::joined_bytes;
use crate::error::{detailed, fail, outcome, plain_outcome, Error, ErrorKind, ErrorView};
use crate::limits::{check_output_limit, output_limit_error, Limits};
use crate::stream::{stream_views, typed_stream, OwnedStream, StreamInput, StreamView};

verus! {

/// The element width of a splitn node without inputs.
pub open spec fn splitn_empty_width(header: Seq<u8>) -> Result<usize, ErrorView> {
    if header.len() == 0 {
        Ok(1)
    } else {
        match var_u64(header, 0) {
            Err(error) => Err(error),
            Ok((width, end)) => if end != header.len() {
                Err(detailed(ErrorKind::Malformed, "unexpected splitn header bytes"@))
            } else if width == 0 {
                Err(detailed(ErrorKind::Malformed, "splitn element width must be nonzero"@))
            } else if width > usize::MAX {
                Err(detailed(ErrorKind::LimitExceeded, "splitn width is too large"@))
            } else {
                Ok(width as usize)
            },
        }
    }
}

/// Adds up the sizes of the inputs from `index` on, which must all have whole
/// elements of one width.
pub open spec fn splitn_total(inputs: Seq<StreamView>, width: nat, index: nat, total: nat) -> Result<
    nat,
    ErrorView,
>
    decreases inputs.len() - index,
{
    if index >= inputs.len() {
        Ok(total)
    } else {
        let input = inputs[index as int];
        if input.element_width != width {
            Err(detailed(ErrorKind::InvalidType, "splitn input widths must match"@))
        } else if input.bytes.len() % width != 0 {
            Err(detailed(ErrorKind::Malformed, "splitn input has partial element"@))
        } else if total + input.bytes.len() > usize::MAX {
            Err(detailed(ErrorKind::IntegerOverflow, "splitn size overflowed"@))
        } else {
            splitn_total(inputs, width, index + 1, total + input.bytes.len())
        }
    }
}

/// What a splitn node produces.
pub open spec fn splitn_node(
    inputs: Seq<StreamView>,
    variable_inputs: u32,
    header: Seq<u8>,
    limits: Limits,
) -> Result<StreamView, ErrorView> {
    if inputs.len() != variable_inputs {
        Err(detailed(ErrorKind::InvalidGraph, "splitn input count does not match node shape"@))
    } else if inputs.len() == 0 {
        match splitn_empty_width(header) {
            Err(error) => Err(error),
            Ok(width) => Ok(typed_stream(Seq::empty(), width as nat)),
        }
    } else if header.len() != 0 {
        Err(detailed(ErrorKind::Unsupported, "splitn headers are unsupported"@))
    } else {
        let width = inputs[0].element_width;
        if width == 0 {
            Err(detailed(ErrorKind::InvalidType, "splitn element width is zero"@))
        } else {
            match splitn_total(inputs, width, 0, 0) {
                Err(error) => Err(error),
                Ok(total) => if !limits.admits(total as int) {
                    Err(output_limit_error())
                } else {
                    Ok(typed_stream(joined_bytes(inputs), width))
                },
            }
        }
    }
}

fn splitn_empty_element_width(header: &[u8]) -> (result: Result<usize, Error>)
    ensures
        plain_outcome(result) == splitn_empty_width(header@),
{
    if header.len() == 0 {
        return Ok(1);
    }
    let mut offset: usize = 0;
    let element_width: u64 = read_var_u64(header, &mut offset)?;
    if offset != header.len() {
        return Err(fail(ErrorKind::Malformed, "unexpected splitn header bytes"));
    }
    if element_width == 0 {
        return Err(fail(ErrorKind::Malformed, "splitn element width must be nonzero"));
    }
    if element_width > usize::MAX as u64 {
        return Err(fail(ErrorKind::LimitExceeded, "splitn width is too large"));
    }
    Ok(element_width as usize)
}

/// Decodes a splitn node over typed elements.
pub fn decode_splitn_typed_node(
    inputs: &[StreamInput<'_>],
    variable_inputs: u32,
    header: &[u8],
    limits: Limits,
) -> (result: Result<OwnedStream, Error>)
    ensures
        outcome(result) == splitn_node(stream_views(inputs@), variable_inputs, header@, limits),
        result is Ok ==> !result->Ok_0.recyclable,
{
    if inputs.len() != variable_inputs as usize {
        return Err(fail(ErrorKind::InvalidGraph, "splitn input count does not match node shape"));
    }
    if inputs.len() == 0 {
        let element_width: usize = splitn_empty_element_width(header)?;
        return Ok(OwnedStream::typed(Vec::new(), element_width));
    }
    if header.len() != 0 {
        return Err(fail(ErrorKind::Unsupported, "splitn headers are unsupported"));
    }
    let element_width: usize = inputs[0].element_width;
    if element_width == 0 {
        return Err(fail(ErrorKind::InvalidType, "splitn element width is zero"));
    }
    let ghost views = stream_views(inputs@);
    let mut total_len: usize = 0;
    let mut index: usize = 0;
    while index < inputs.len()
        invariant
            index <= inputs.len(),
            views == stream_views(inputs@),
            inputs.len() == variable_inputs,
            inputs.len() > 0,
            header@.len() == 0,
            element_width == views[0].element_width,
            element_width > 0,
            splitn_total(views, element_width as nat, 0, 0) == splitn_total(
                views,
                element_width as nat,
                index as nat,
                total_len as nat,
            ),
        decreases inputs.len() - index,
    {
        let input = inputs[index];
        assert(views[index as int] == input@);
        if input.element_width != element_width {
            return Err(fail(ErrorKind::InvalidType, "splitn input widths must match"));
        }
        if input.bytes.len() % element_width != 0 {
            return Err(fail(ErrorKind::Malformed, "splitn input has partial element"));
        }
        total_len = match total_len.checked_add(input.bytes.len()) {
            Some(total) => total,
            None => {
                return Err(fail(ErrorKind::IntegerOverflow, "splitn size overflowed"));
            },
        };
        index = index + 1;
    }
    check_output_limit(total_len, limits)?;
    let mut output: Vec<u8> = Vec::new();
    let mut index: usize = 0;
    proof {
        assert(views.take(0) =~= Seq::empty());
    }
    while index < inputs.len()
        invariant
            index <= inputs.len(),
            views == stream_views(inputs@),
            output@ == joined_bytes(views.take(index as int)),
        decreases inputs.len() - index,
    {
        append_bytes(&mut output, inputs[index].bytes);
        proof {
            assert(views.take(index + 1).drop_last() =~= views.take(index as int));
            assert(views.take(index + 1).last() == views[index as int]);
        }
        index = index + 1;
    }
    proof {
        assert(views.take(index as int) =~= views);
    }
    Ok(OwnedStream::typed(output, element_width))
}

/// Decodes a splitn node over bytes.
pub fn decode_splitn_node(
    inputs: &[StreamInput<'_>],
    variable_inputs: u32,
    header: &[u8],
    limits: Limits,
) -> (result: Result<Vec<u8>, Error>)
    ensures
        outcome(result) == splitn_bytes(stream_views(inputs@), variable_inputs, header@, limits),
{
    let stream = decode_splitn_typed_node(inputs, variable_inputs, header, limits)?;
    Ok(stream.bytes)
}

/// What a splitn node over bytes produces.
pub open spec fn splitn_bytes(
    inputs: Seq<StreamView>,
    variable_inputs: u32,
    header: Seq<u8>,
    limits: Limits,
) -> Result<Seq<u8>, ErrorView> {
    match splitn_node(inputs, variable_inputs, header, limits) {
        Err(error) => Err(error),
        Ok(stream) => Ok(stream.bytes),
    }
}

} // verus!
