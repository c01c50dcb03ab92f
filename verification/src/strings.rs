//! Strings as content bytes with a list of lengths.

use vstd::prelude::*;

use crate::bytes::copy_bytes;
use crate::error::{detailed, fail, outcome, plain, Error, ErrorKind, ErrorView};
use crate::limits::{check_output_limit, output_limit_error, Limits};
use crate::stream::{
    checked_sum_u32, element_count, numeric_element_count, numeric_width_error,
    read_usize_numeric_element, stream_views, sum_lengths, usize_element,
    validate_numeric_stream_width, OwnedStream, StreamInput, StreamView,
};

verus! {

/// Reads the string lengths from `index` on and adds them up.
pub open spec fn component_lengths_from(
    sizes: StreamView,
    index: nat,
    total: nat,
    lengths: Seq<u32>,
) -> Result<(Seq<u32>, nat), ErrorView>
    decreases sizes.bytes.len() / sizes.element_width - index,
{
    if index >= sizes.bytes.len() / sizes.element_width {
        Ok((lengths, total))
    } else {
        match usize_element(sizes.bytes, sizes.element_width, index as int) {
            Err(error) => Err(error),
            Ok(size) => if total + size > usize::MAX {
                Err(plain(ErrorKind::IntegerOverflow))
            } else if size > u32::MAX {
                Err(detailed(ErrorKind::LimitExceeded, "string field size is too large"@))
            } else {
                component_lengths_from(
                    sizes,
                    index + 1,
                    total + size as nat,
                    lengths.push(size as u32),
                )
            },
        }
    }
}

/// What a separate_string_components node produces.
pub open spec fn separate_string_components_node(
    inputs: Seq<StreamView>,
    header: Seq<u8>,
    limits: Limits,
) -> Result<StreamView, ErrorView> {
    if header.len() != 0 {
        Err(detailed(ErrorKind::Malformed, "separate_string_components header must be empty"@))
    } else if inputs.len() != 2 {
        Err(
            detailed(
                ErrorKind::InvalidGraph,
                "separate_string_components input count does not match node shape"@,
            ),
        )
    } else if inputs[0].element_width != 1 {
        Err(
            detailed(
                ErrorKind::InvalidType,
                "separate_string_components content must be serial bytes"@,
            ),
        )
    } else if let Some(error) = numeric_width_error(
        inputs[1].element_width as int,
        "string field sizes"@,
    ) {
        Err(error)
    } else if let Err(error) = element_count(inputs[1].bytes.len(), inputs[1].element_width) {
        Err(error)
    } else {
        match component_lengths_from(inputs[1], 0, 0, Seq::empty()) {
            Err(error) => Err(error),
            Ok((lengths, total)) => if total != inputs[0].bytes.len() {
                Err(
                    detailed(
                        ErrorKind::Malformed,
                        "string field sizes do not sum to content size"@,
                    ),
                )
            } else if !limits.admits(inputs[0].bytes.len() as int) {
                Err(output_limit_error())
            } else {
                Ok(
                    StreamView {
                        bytes: inputs[0].bytes,
                        element_width: 1,
                        string_lengths: Some(lengths),
                    },
                )
            },
        }
    }
}

/// The error, if any, of turning a stream of strings into bytes.
pub open spec fn string_to_serial_error(input: StreamView, header: Seq<u8>) -> Option<ErrorView> {
    if header.len() != 0 {
        Some(detailed(ErrorKind::Malformed, "convert_string_to_serial header must be empty"@))
    } else if input.element_width != 1 {
        Some(
            detailed(
                ErrorKind::InvalidType,
                "convert_string_to_serial input must be byte strings"@,
            ),
        )
    } else {
        match input.string_lengths {
            None => Some(
                detailed(
                    ErrorKind::InvalidType,
                    "convert_string_to_serial input is missing string lengths"@,
                ),
            ),
            Some(lengths) => if sum_lengths(lengths) > usize::MAX {
                Some(plain(ErrorKind::IntegerOverflow))
            } else if sum_lengths(lengths) != input.bytes.len() {
                Some(
                    detailed(
                        ErrorKind::Malformed,
                        "convert_string_to_serial lengths do not sum to content size"@,
                    ),
                )
            } else {
                None
            },
        }
    }
}

/// What a convert_string_to_serial node produces.
pub open spec fn string_to_serial_node(
    input: StreamView,
    header: Seq<u8>,
    limits: Limits,
) -> Result<Seq<u8>, ErrorView> {
    if let Some(error) = string_to_serial_error(input, header) {
        Err(error)
    } else if !limits.admits(input.bytes.len() as int) {
        Err(output_limit_error())
    } else {
        Ok(input.bytes)
    }
}

proof fn lemma_component_sum(sizes: StreamView, index: nat, total: nat, lengths: Seq<u32>)
    requires
        component_lengths_from(sizes, index, total, lengths) is Ok,
        total == sum_lengths(lengths),
    ensures
        component_lengths_from(sizes, index, total, lengths)->Ok_0.1 == sum_lengths(
            component_lengths_from(sizes, index, total, lengths)->Ok_0.0,
        ),
    decreases sizes.bytes.len() / sizes.element_width - index,
{
    if index < sizes.bytes.len() / sizes.element_width {
        let size = usize_element(sizes.bytes, sizes.element_width, index as int)->Ok_0;
        assert(lengths.push(size as u32).drop_last() =~= lengths);
        lemma_component_sum(sizes, index + 1, total + size as nat, lengths.push(size as u32));
    }
}

/// Strings that were put together from components turn back into their content
/// bytes.
pub proof fn law_separated_strings_serialize(
    inputs: Seq<StreamView>,
    header: Seq<u8>,
    limits: Limits,
)
    requires
        separate_string_components_node(inputs, header, limits) is Ok,
        inputs[0].bytes.len() <= usize::MAX,
    ensures
        string_to_serial_node(
            separate_string_components_node(inputs, header, limits)->Ok_0,
            Seq::empty(),
            limits,
        ) == Ok::<Seq<u8>, ErrorView>(inputs[0].bytes),
{
    lemma_component_sum(inputs[1], 0, 0, Seq::empty());
}

/// Reads string lengths and adds them up.
fn decode_string_component_lengths(field_sizes: &StreamInput<'_>, field_count: usize) -> (result:
    Result<(Vec<u32>, usize), Error>)
    requires
        field_sizes.element_width > 0,
        field_count == field_sizes.bytes@.len() / (field_sizes.element_width as nat),
    ensures
        match result {
            Ok((lengths, total)) => component_lengths_from(field_sizes@, 0, 0, Seq::empty()) == Ok::<
                (Seq<u32>, nat),
                ErrorView,
            >((lengths@, total as nat)),
            Err(error) => component_lengths_from(field_sizes@, 0, 0, Seq::empty()) == Err::<
                (Seq<u32>, nat),
                ErrorView,
            >(error@),
        },
{
    let mut lengths: Vec<u32> = Vec::new();
    let mut total: usize = 0;
    let mut index: usize = 0;
    proof {
        assert(lengths@ =~= Seq::empty());
    }
    while index < field_count
        invariant
            index <= field_count,
            field_count == field_sizes.bytes@.len() / (field_sizes.element_width as nat),
            component_lengths_from(field_sizes@, 0, 0, Seq::empty()) == component_lengths_from(
                field_sizes@,
                index as nat,
                total as nat,
                lengths@,
            ),
        decreases field_count - index,
    {
        let size: usize = read_usize_numeric_element(
            field_sizes.bytes,
            field_sizes.element_width,
            index,
        )?;
        total = match total.checked_add(size) {
            Some(total) => total,
            None => {
                return Err(Error::new(ErrorKind::IntegerOverflow));
            },
        };
        if size as u64 > u32::MAX as u64 {
            return Err(fail(ErrorKind::LimitExceeded, "string field size is too large"));
        }
        lengths.push(size as u32);
        index = index + 1;
    }
    Ok((lengths, total))
}

/// Decodes a separate_string_components node.
pub fn decode_separate_string_components_node(
    inputs: &[StreamInput<'_>],
    header: &[u8],
    limits: Limits,
) -> (result: Result<OwnedStream, Error>)
    ensures
        outcome(result) == separate_string_components_node(stream_views(inputs@), header@, limits),
        result is Ok ==> !result->Ok_0.recyclable,
{
    if header.len() != 0 {
        return Err(fail(ErrorKind::Malformed, "separate_string_components header must be empty"));
    }
    if inputs.len() != 2 {
        return Err(
            fail(
                ErrorKind::InvalidGraph,
                "separate_string_components input count does not match node shape",
            ),
        );
    }
    let content = inputs[0];
    let field_sizes = inputs[1];
    if content.element_width != 1 {
        return Err(
            fail(
                ErrorKind::InvalidType,
                "separate_string_components content must be serial bytes",
            ),
        );
    }
    validate_numeric_stream_width(field_sizes.element_width, "string field sizes")?;
    let field_count: usize = numeric_element_count(field_sizes.bytes, field_sizes.element_width)?;
    let (lengths, total) = decode_string_component_lengths(&field_sizes, field_count)?;
    if total != content.bytes.len() {
        return Err(fail(ErrorKind::Malformed, "string field sizes do not sum to content size"));
    }
    check_output_limit(content.bytes.len(), limits)?;
    Ok(
        OwnedStream {
            bytes: copy_bytes(content.bytes),
            element_width: 1,
            string_lengths: Some(lengths),
            recyclable: false,
        },
    )
}

/// Checks that a stream of strings turns into bytes.
pub(crate) fn check_string_to_serial(input: &StreamInput<'_>, header: &[u8]) -> (result: Result<
    (),
    Error,
>)
    ensures
        match result {
            Ok(_) => string_to_serial_error(input@, header@) is None,
            Err(error) => string_to_serial_error(input@, header@) == Some(error@),
        },
{
    if header.len() != 0 {
        return Err(fail(ErrorKind::Malformed, "convert_string_to_serial header must be empty"));
    }
    if input.element_width != 1 {
        return Err(
            fail(ErrorKind::InvalidType, "convert_string_to_serial input must be byte strings"),
        );
    }
    match input.string_lengths {
        None => Err(
            fail(
                ErrorKind::InvalidType,
                "convert_string_to_serial input is missing string lengths",
            ),
        ),
        Some(lengths) => {
            if checked_sum_u32(lengths)? != input.bytes.len() {
                return Err(
                    fail(
                        ErrorKind::Malformed,
                        "convert_string_to_serial lengths do not sum to content size",
                    ),
                );
            }
            Ok(())
        },
    }
}

/// Decodes a convert_string_to_serial node.
pub fn decode_string_to_serial_node(
    input: StreamInput<'_>,
    header: &[u8],
    limits: Limits,
) -> (result: Result<Vec<u8>, Error>)
    ensures
        outcome(result) == string_to_serial_node(input@, header@, limits),
{
    check_string_to_serial(&input, header)?;
    check_output_limit(input.bytes.len(), limits)?;
    Ok(copy_bytes(input.bytes))
}

} // verus!
