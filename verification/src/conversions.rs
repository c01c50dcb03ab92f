//! Conversions between bytes, structs and integers.

use vstd::prelude::*;

use crate::bytes::{copy_bytes, read_var_u64, var_u64};
use crate::error::{detailed, fail, outcome, plain_outcome, Error, ErrorKind, ErrorView};
use crate::limits::{check_output_limit, output_limit_error, Limits};
use crate::standard::{
    CONVERT_NUM_TO_SERIAL_LE_ID, CONVERT_NUM_TO_STRUCT_LE_ID, CONVERT_SERIAL_TO_NUM_LE_ID,
    CONVERT_SERIAL_TO_STRUCT_ID, CONVERT_STRING_TO_SERIAL_ID, CONVERT_STRUCT_TO_NUM_LE_ID,
    CONVERT_STRUCT_TO_SERIAL_ID,
};
use crate::stream::{
    join_text, lemma_element_inside, lemma_whole_elements, numeric_width, typed_stream,
    OwnedStream, StreamInput, StreamView,
};
use crate::strings::{check_string_to_serial, string_to_serial_error};

verus! {

/// The element width in the header of a conversion from bytes to structs.
pub open spec fn struct_width(header: Seq<u8>) -> Result<usize, ErrorView> {
    match var_u64(header, 0) {
        Err(error) => Err(error),
        Ok((width, end)) => if end != header.len() {
            Err(
                detailed(
                    ErrorKind::Malformed,
                    "convert_struct_to_serial header has trailing bytes"@,
                ),
            )
        } else if width > usize::MAX {
            Err(detailed(ErrorKind::LimitExceeded, "conversion element width is too large"@))
        } else if width == 0 {
            Err(detailed(ErrorKind::Malformed, "conversion element width must be nonzero"@))
        } else {
            Ok(width as usize)
        },
    }
}

/// Reads the element width in the header of a conversion from bytes to structs.
pub(crate) fn read_single_conversion_width(header: &[u8]) -> (result: Result<usize, Error>)
    ensures
        plain_outcome(result) == struct_width(header@),
        result is Ok ==> result->Ok_0 > 0,
{
    let mut offset: usize = 0;
    let width: u64 = read_var_u64(header, &mut offset)?;
    if offset != header.len() {
        return Err(
            fail(ErrorKind::Malformed, "convert_struct_to_serial header has trailing bytes"),
        );
    }
    if width > usize::MAX as u64 {
        return Err(fail(ErrorKind::LimitExceeded, "conversion element width is too large"));
    }
    if width == 0 {
        return Err(fail(ErrorKind::Malformed, "conversion element width must be nonzero"));
    }
    Ok(width as usize)
}

/// The integer width in the header of a conversion named `transform`.
pub open spec fn int_size(header: Seq<u8>, transform: Seq<char>) -> Result<usize, ErrorView> {
    if header.len() != 1 {
        Err(detailed(ErrorKind::Malformed, transform + " header is malformed"@))
    } else if header[0] > 3 {
        Err(detailed(ErrorKind::Malformed, transform + " integer width is invalid"@))
    } else if header[0] == 0 {
        Ok(1)
    } else if header[0] == 1 {
        Ok(2)
    } else if header[0] == 2 {
        Ok(4)
    } else {
        Ok(8)
    }
}

/// Reads the integer width in the header of a conversion named `transform`.
pub(crate) fn read_conversion_int_size(header: &[u8], transform: &str) -> (result: Result<
    usize,
    Error,
>)
    ensures
        plain_outcome(result) == int_size(header@, transform@),
        result is Ok ==> numeric_width(result->Ok_0 as int),
{
    if header.len() != 1 {
        let text = join_text(transform, " header is malformed");
        return Err(fail(ErrorKind::Malformed, text.as_str()));
    }
    match header[0] {
        0 => Ok(1),
        1 => Ok(2),
        2 => Ok(4),
        3 => Ok(8),
        _ => {
            let text = join_text(transform, " integer width is invalid");
            Err(fail(ErrorKind::Malformed, text.as_str()))
        },
    }
}

/// Whether a transform keeps the bytes of its input.
pub open spec fn byte_preserving(id: u32) -> bool {
    id == CONVERT_SERIAL_TO_STRUCT_ID || id == CONVERT_STRUCT_TO_SERIAL_ID || id
        == CONVERT_STRING_TO_SERIAL_ID || id == CONVERT_STRUCT_TO_NUM_LE_ID || id
        == CONVERT_NUM_TO_STRUCT_LE_ID || id == CONVERT_SERIAL_TO_NUM_LE_ID || id
        == CONVERT_NUM_TO_SERIAL_LE_ID
}

pub(crate) fn is_byte_preserving_conversion(id: u32) -> (result: bool)
    ensures
        result == byte_preserving(id),
{
    id == CONVERT_SERIAL_TO_STRUCT_ID || id == CONVERT_STRUCT_TO_SERIAL_ID || id
        == CONVERT_STRING_TO_SERIAL_ID || id == CONVERT_STRUCT_TO_NUM_LE_ID || id
        == CONVERT_NUM_TO_STRUCT_LE_ID || id == CONVERT_SERIAL_TO_NUM_LE_ID || id
        == CONVERT_NUM_TO_SERIAL_LE_ID
}

/// The element width behind a transform that keeps the bytes of its input, before
/// the size of the input is looked at.
pub open spec fn converted_width(id: u32, input: StreamView, header: Seq<u8>) -> Result<
    nat,
    ErrorView,
> {
    if id == CONVERT_SERIAL_TO_STRUCT_ID {
        if header.len() != 0 {
            Err(detailed(ErrorKind::Unsupported, "conversion headers are unsupported"@))
        } else {
            Ok(input.element_width)
        }
    } else if id == CONVERT_STRUCT_TO_SERIAL_ID {
        match struct_width(header) {
            Err(error) => Err(error),
            Ok(width) => if input.bytes.len() % width as nat != 0 {
                Err(
                    detailed(
                        ErrorKind::Malformed,
                        "serial stream size is not a multiple of struct width"@,
                    ),
                )
            } else {
                Ok(width as nat)
            },
        }
    } else if id == CONVERT_STRUCT_TO_NUM_LE_ID || id == CONVERT_NUM_TO_STRUCT_LE_ID {
        if header.len() != 0 {
            Err(
                detailed(
                    ErrorKind::Unsupported,
                    "convert_num_to_struct_le headers are unsupported"@,
                ),
            )
        } else {
            Ok(input.element_width)
        }
    } else if id == CONVERT_STRING_TO_SERIAL_ID {
        match string_to_serial_error(input, header) {
            Some(error) => Err(error),
            None => Ok(1),
        }
    } else if id == CONVERT_SERIAL_TO_NUM_LE_ID {
        if header.len() != 0 {
            Err(
                detailed(
                    ErrorKind::Unsupported,
                    "convert_serial_to_num_le headers are unsupported"@,
                ),
            )
        } else {
            Ok(1)
        }
    } else {
        match int_size(header, "convert_num_to_serial_le"@) {
            Err(error) => Err(error),
            Ok(width) => if input.bytes.len() % width as nat != 0 {
                Err(
                    detailed(
                        ErrorKind::Malformed,
                        "serial stream size is not a multiple of integer width"@,
                    ),
                )
            } else {
                Ok(width as nat)
            },
        }
    }
}

/// What a transform that keeps the bytes of its one input produces.
pub open spec fn byte_preserving_node(
    id: u32,
    input: StreamView,
    header: Seq<u8>,
    limits: Limits,
) -> Result<StreamView, ErrorView> {
    match converted_width(id, input, header) {
        Err(error) => Err(error),
        Ok(width) => if !limits.admits(input.bytes.len() as int) {
            Err(output_limit_error())
        } else {
            Ok(typed_stream(input.bytes, width))
        },
    }
}

/// A conversion that keeps bytes changes nothing but the element width.
pub proof fn law_conversion_keeps_bytes(
    id: u32,
    input: StreamView,
    header: Seq<u8>,
    limits: Limits,
)
    requires
        byte_preserving(id),
        byte_preserving_node(id, input, header, limits) is Ok,
    ensures
        ({
            let output = byte_preserving_node(id, input, header, limits)->Ok_0;
            &&& output.bytes == input.bytes
            &&& conversion_output_width(id, 1, input, header, limits) == Ok::<
                Option<nat>,
                ErrorView,
            >(Some(output.element_width))
        }),
{
}

/// The element width behind a transform that keeps the bytes of its input, or
/// nothing where the transform is another.
pub open spec fn conversion_output_width(
    id: u32,
    input_count: nat,
    input: StreamView,
    header: Seq<u8>,
    limits: Limits,
) -> Result<Option<nat>, ErrorView> {
    if !byte_preserving(id) {
        Ok(None)
    } else {
        match converted_width(id, input, header) {
            Err(error) => Err(error),
            Ok(width) => if input_count != 1 {
                Err(
                    detailed(
                        ErrorKind::InvalidGraph,
                        "single-input transform received the wrong input count"@,
                    ),
                )
            } else if !limits.admits(input.bytes.len() as int) {
                Err(output_limit_error())
            } else {
                Ok(Some(width))
            },
        }
    }
}

/// Finds the element width behind a transform that keeps the bytes of its input.
fn find_converted_width(id: u32, input: &StreamInput<'_>, header: &[u8]) -> (result: Result<
    usize,
    Error,
>)
    requires
        byte_preserving(id),
    ensures
        match result {
            Ok(width) => converted_width(id, input@, header@) == Ok::<nat, ErrorView>(width as nat),
            Err(error) => converted_width(id, input@, header@) == Err::<nat, ErrorView>(error@),
        },
{
    if id == CONVERT_SERIAL_TO_STRUCT_ID {
        if header.len() != 0 {
            return Err(fail(ErrorKind::Unsupported, "conversion headers are unsupported"));
        }
        Ok(input.element_width)
    } else if id == CONVERT_STRUCT_TO_SERIAL_ID {
        let width: usize = read_single_conversion_width(header)?;
        if input.bytes.len() % width != 0 {
            return Err(
                fail(ErrorKind::Malformed, "serial stream size is not a multiple of struct width"),
            );
        }
        Ok(width)
    } else if id == CONVERT_STRUCT_TO_NUM_LE_ID || id == CONVERT_NUM_TO_STRUCT_LE_ID {
        if header.len() != 0 {
            return Err(
                fail(ErrorKind::Unsupported, "convert_num_to_struct_le headers are unsupported"),
            );
        }
        Ok(input.element_width)
    } else if id == CONVERT_STRING_TO_SERIAL_ID {
        check_string_to_serial(input, header)?;
        Ok(1)
    } else if id == CONVERT_SERIAL_TO_NUM_LE_ID {
        if header.len() != 0 {
            return Err(
                fail(ErrorKind::Unsupported, "convert_serial_to_num_le headers are unsupported"),
            );
        }
        Ok(1)
    } else {
        let width: usize = read_conversion_int_size(header, "convert_num_to_serial_le")?;
        if input.bytes.len() % width != 0 {
            return Err(
                fail(ErrorKind::Malformed, "serial stream size is not a multiple of integer width"),
            );
        }
        Ok(width)
    }
}

/// Finds the element width behind a transform, where it keeps the bytes of its
/// input.
pub fn byte_preserving_conversion_output_width(
    standard_id: u32,
    input_count: usize,
    input: StreamInput<'_>,
    header: &[u8],
    limits: Limits,
) -> (result: Result<Option<usize>, Error>)
    ensures
        match conversion_output_width(standard_id, input_count as nat, input@, header@, limits) {
            Ok(Some(width)) => result is Ok && result->Ok_0 is Some && result->Ok_0->Some_0
                == width,
            Ok(None) => result is Ok && result->Ok_0 is None,
            Err(error) => result is Err && result->Err_0@ == error,
        },
{
    if !is_byte_preserving_conversion(standard_id) {
        return Ok(None);
    }
    let width: usize = find_converted_width(standard_id, &input, header)?;
    if input_count != 1 {
        return Err(
            fail(
                ErrorKind::InvalidGraph,
                "single-input transform received the wrong input count",
            ),
        );
    }
    check_output_limit(input.bytes.len(), limits)?;
    Ok(Some(width))
}

/// Copies a stream under another element width.
fn copy_byte_preserving_conversion(
    stored: StreamInput<'_>,
    element_width: usize,
    limits: Limits,
) -> (result: Result<OwnedStream, Error>)
    ensures
        outcome(result) == (if limits.admits(stored.bytes@.len() as int) {
            Ok(typed_stream(stored.bytes@, element_width as nat))
        } else {
            Err(output_limit_error())
        }),
        result is Ok ==> !result->Ok_0.recyclable,
{
    check_output_limit(stored.bytes.len(), limits)?;
    Ok(OwnedStream::typed(copy_bytes(stored.bytes), element_width))
}

/// Decodes a convert_serial_to_struct node.
pub fn decode_byte_preserving_conversion_chunk(
    stored: StreamInput<'_>,
    header: &[u8],
    limits: Limits,
) -> (result: Result<OwnedStream, Error>)
    ensures
        outcome(result) == byte_preserving_node(
            CONVERT_SERIAL_TO_STRUCT_ID,
            stored@,
            header@,
            limits,
        ),
        result is Ok ==> !result->Ok_0.recyclable,
{
    let width: usize = find_converted_width(CONVERT_SERIAL_TO_STRUCT_ID, &stored, header)?;
    copy_byte_preserving_conversion(stored, width, limits)
}

/// Decodes a convert_num_to_struct_le or convert_struct_to_num_le node.
pub fn decode_num_to_struct_le_chunk(
    stored: StreamInput<'_>,
    header: &[u8],
    limits: Limits,
) -> (result: Result<OwnedStream, Error>)
    ensures
        outcome(result) == byte_preserving_node(
            CONVERT_NUM_TO_STRUCT_LE_ID,
            stored@,
            header@,
            limits,
        ),
        result is Ok ==> !result->Ok_0.recyclable,
{
    let width: usize = find_converted_width(CONVERT_NUM_TO_STRUCT_LE_ID, &stored, header)?;
    copy_byte_preserving_conversion(stored, width, limits)
}

/// Decodes a convert_struct_to_serial node.
pub fn decode_serial_to_struct_chunk(
    stored: StreamInput<'_>,
    header: &[u8],
    limits: Limits,
) -> (result: Result<OwnedStream, Error>)
    ensures
        outcome(result) == byte_preserving_node(
            CONVERT_STRUCT_TO_SERIAL_ID,
            stored@,
            header@,
            limits,
        ),
        result is Ok ==> !result->Ok_0.recyclable,
{
    let width: usize = find_converted_width(CONVERT_STRUCT_TO_SERIAL_ID, &stored, header)?;
    copy_byte_preserving_conversion(stored, width, limits)
}

/// Decodes a convert_serial_to_num_le node.
pub fn decode_numeric_to_serial_le_chunk(
    stored: StreamInput<'_>,
    header: &[u8],
    limits: Limits,
) -> (result: Result<Vec<u8>, Error>)
    ensures
        outcome(result) == (match byte_preserving_node(
            CONVERT_SERIAL_TO_NUM_LE_ID,
            stored@,
            header@,
            limits,
        ) {
            Ok(stream) => Ok::<Seq<u8>, ErrorView>(stream.bytes),
            Err(error) => Err(error),
        }),
{
    let width: usize = find_converted_width(CONVERT_SERIAL_TO_NUM_LE_ID, &stored, header)?;
    let stream = copy_byte_preserving_conversion(stored, width, limits)?;
    Ok(stream.bytes)
}

/// Decodes a convert_num_to_serial_le node.
pub fn decode_serial_to_numeric_le_chunk(
    stored: StreamInput<'_>,
    header: &[u8],
    limits: Limits,
) -> (result: Result<OwnedStream, Error>)
    ensures
        outcome(result) == byte_preserving_node(
            CONVERT_NUM_TO_SERIAL_LE_ID,
            stored@,
            header@,
            limits,
        ),
        result is Ok ==> !result->Ok_0.recyclable,
{
    let width: usize = find_converted_width(CONVERT_NUM_TO_SERIAL_LE_ID, &stored, header)?;
    copy_byte_preserving_conversion(stored, width, limits)
}

/// Where byte `index` of a buffer goes when the bytes of each element are reversed.
pub open spec fn mirrored(index: int, width: int) -> int {
    index / width * width + (width - 1 - index % width)
}

/// A buffer with the bytes of each element reversed.
pub open spec fn swapped_elements(bytes: Seq<u8>, width: nat) -> Seq<u8> {
    Seq::new(bytes.len(), |i: int| bytes[mirrored(i, width as int)])
}

/// What a conversion of big-endian integers of `width` bytes produces.
pub open spec fn big_endian_conversion(bytes: Seq<u8>, width: nat, limits: Limits) -> Result<
    StreamView,
    ErrorView,
> {
    if !numeric_width(width as int) {
        Err(detailed(ErrorKind::InvalidType, "conversion numeric width is unsupported"@))
    } else if !limits.admits(bytes.len() as int) {
        Err(output_limit_error())
    } else if bytes.len() % width != 0 {
        Err(detailed(ErrorKind::Malformed, "numeric stream has partial element"@))
    } else {
        Ok(typed_stream(swapped_elements(bytes, width), width))
    }
}

/// What a convert_struct_to_num_be node produces.
pub open spec fn struct_to_num_be_node(
    stored: StreamView,
    header: Seq<u8>,
    limits: Limits,
) -> Result<StreamView, ErrorView> {
    if header.len() != 0 {
        Err(detailed(ErrorKind::Unsupported, "convert_struct_to_num_be headers are unsupported"@))
    } else {
        big_endian_conversion(stored.bytes, stored.element_width, limits)
    }
}

/// What a convert_serial_to_num_be node produces.
pub open spec fn serial_to_num_be_node(
    stored: StreamView,
    header: Seq<u8>,
    limits: Limits,
) -> Result<StreamView, ErrorView> {
    match int_size(header, "convert_serial_to_num_be"@) {
        Err(error) => Err(error),
        Ok(width) => if stored.bytes.len() % width as nat != 0 {
            Err(
                detailed(
                    ErrorKind::Malformed,
                    "serial stream size is not a multiple of integer width"@,
                ),
            )
        } else {
            big_endian_conversion(stored.bytes, width as nat, limits)
        },
    }
}

proof fn lemma_mirrored(index: int, width: int, len: int)
    requires
        width > 0,
        len % width == 0,
        0 <= index < len,
    ensures
        0 <= mirrored(index, width) < len,
        mirrored(mirrored(index, width), width) == index,
{
    let quotient = index / width;
    let rest = index % width;
    vstd::arithmetic::div_mod::lemma_fundamental_div_mod(index, width);
    vstd::arithmetic::mul::lemma_mul_is_commutative(quotient, width);
    lemma_whole_elements(len as nat, width as nat);
    let count = len / width;
    assert(quotient < count) by (nonlinear_arith)
        requires
            quotient * width + rest < count * width,
            rest >= 0,
            width > 0,
    ;
    assert(0 <= quotient) by (nonlinear_arith)
        requires
            0 <= quotient * width + rest,
            rest < width,
            width > 0,
    ;
    lemma_element_inside(quotient as nat, count as nat, width as nat);
    assert(0 <= quotient * width) by (nonlinear_arith)
        requires
            0 <= quotient,
            width > 0,
    ;
    let image = mirrored(index, width);
    vstd::arithmetic::div_mod::lemma_fundamental_div_mod_converse(
        image,
        width,
        quotient,
        width - 1 - rest,
    );
}

/// Reversing the bytes of each element twice gives the buffer back.
pub proof fn law_swapping_twice_is_identity(bytes: Seq<u8>, width: nat)
    requires
        width > 0,
        bytes.len() % width == 0,
    ensures
        swapped_elements(swapped_elements(bytes, width), width) == bytes,
{
    assert forall|i: int| 0 <= i < bytes.len() implies #[trigger] swapped_elements(
        swapped_elements(bytes, width),
        width,
    )[i] == bytes[i] by {
        lemma_mirrored(i, width as int, bytes.len() as int);
    }
    assert(swapped_elements(swapped_elements(bytes, width), width) =~= bytes);
}

/// A conversion of big-endian integers keeps the size, and the same conversion of what it
/// produces gives the bytes back.
pub proof fn law_big_endian_conversion_undoes_itself(bytes: Seq<u8>, width: nat, limits: Limits)
    requires
        big_endian_conversion(bytes, width, limits) is Ok,
    ensures
        ({
            let converted = big_endian_conversion(bytes, width, limits)->Ok_0;
            &&& converted.bytes.len() == bytes.len()
            &&& big_endian_conversion(converted.bytes, width, limits) == Ok::<
                StreamView,
                ErrorView,
            >(typed_stream(bytes, width))
        }),
{
    law_swapping_twice_is_identity(bytes, width);
}

/// Reverses the bytes of each element.
pub fn decode_big_endian_numeric_conversion(
    stored: StreamInput<'_>,
    element_width: usize,
    limits: Limits,
) -> (result: Result<OwnedStream, Error>)
    ensures
        outcome(result) == big_endian_conversion(stored.bytes@, element_width as nat, limits),
        result is Ok ==> !result->Ok_0.recyclable,
{
    if !(element_width == 1 || element_width == 2 || element_width == 4 || element_width == 8) {
        return Err(fail(ErrorKind::InvalidType, "conversion numeric width is unsupported"));
    }
    check_output_limit(stored.bytes.len(), limits)?;
    if stored.bytes.len() % element_width != 0 {
        return Err(fail(ErrorKind::Malformed, "numeric stream has partial element"));
    }
    let mut output: Vec<u8> = Vec::new();
    let mut index: usize = 0;
    while index < stored.bytes.len()
        invariant
            index <= stored.bytes@.len(),
            0 < element_width <= 8,
            stored.bytes@.len() % (element_width as nat) == 0,
            output@.len() == index,
            forall|i: int|
                0 <= i < index ==> #[trigger] output@[i] == swapped_elements(
                    stored.bytes@,
                    element_width as nat,
                )[i],
        decreases stored.bytes.len() - index,
    {
        proof {
            lemma_mirrored(index as int, element_width as int, stored.bytes@.len() as int);
            vstd::arithmetic::div_mod::lemma_fundamental_div_mod(
                index as int,
                element_width as int,
            );
            vstd::arithmetic::mul::lemma_mul_is_commutative(
                index as int / element_width as int,
                element_width as int,
            );
        }
        let source: usize = index - index % element_width + (element_width - 1 - index
            % element_width);
        output.push(stored.bytes[source]);
        index = index + 1;
    }
    proof {
        assert(output@ =~= swapped_elements(stored.bytes@, element_width as nat));
    }
    Ok(OwnedStream::typed(output, element_width))
}

/// Decodes a convert_struct_to_num_be node.
pub fn decode_struct_to_num_be_chunk(
    stored: StreamInput<'_>,
    header: &[u8],
    limits: Limits,
) -> (result: Result<OwnedStream, Error>)
    ensures
        outcome(result) == struct_to_num_be_node(stored@, header@, limits),
        result is Ok ==> !result->Ok_0.recyclable,
{
    if header.len() != 0 {
        return Err(
            fail(ErrorKind::Unsupported, "convert_struct_to_num_be headers are unsupported"),
        );
    }
    decode_big_endian_numeric_conversion(stored, stored.element_width, limits)
}

/// Decodes a convert_serial_to_num_be node.
pub fn decode_serial_to_num_be_chunk(
    stored: StreamInput<'_>,
    header: &[u8],
    limits: Limits,
) -> (result: Result<OwnedStream, Error>)
    ensures
        outcome(result) == serial_to_num_be_node(stored@, header@, limits),
        result is Ok ==> !result->Ok_0.recyclable,
{
    let width: usize = read_conversion_int_size(header, "convert_serial_to_num_be")?;
    if stored.bytes.len() % width != 0 {
        return Err(
            fail(ErrorKind::Malformed, "serial stream size is not a multiple of integer width"),
        );
    }
    decode_big_endian_numeric_conversion(stored, width, limits)
}

} // verus!
