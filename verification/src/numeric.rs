//! Transforms over integers: bit packing, constants, deltas, zigzag, ranges.

use vstd::prelude::*;

use crate::bits::{
    bit_field, bit_range, byte_bit, lemma_bit_field_bound, lemma_bit_range_monotone,
    lemma_bit_range_values, power_of_two, read_bit_field,
};
use crate::bytes::{
    byte_range, le_value, lemma_byte_range_values, lemma_le_value_bound, read_le, read_var_u64,
    var_u64,
};
use crate::error::{detailed, fail, outcome, plain, plain_outcome, Error, ErrorKind, ErrorView};
use crate::limits::{check_output_limit, output_limit_error, Limits};
use crate::scratch::DecodeScratch;
use crate::stream::{
    element, element_count, law_packed_element, lemma_element_bound, lemma_element_inside,
    lemma_whole_elements, max_numeric, max_numeric_value, numeric_element_count, numeric_width,
    numeric_width_error, packed, push_element, read_numeric_element, typed_stream,
    validate_numeric_stream_width, OwnedStream, StreamInput, StreamView,
};

verus! {

/// How integers are bit-packed.
#[derive(Clone, Copy, Debug, PartialEq, Eq, Structural)]
pub struct BitpackHeader {
    pub element_width: usize,
    pub bits: usize,
    pub elements: usize,
}

/// The width in bytes that two bits choose.
pub open spec fn chosen_width(log: int) -> nat {
    if log == 0 {
        1
    } else if log == 1 {
        2
    } else if log == 2 {
        4
    } else {
        8
    }
}

/// The header of a bit-packed buffer of `packed_len` bytes.
pub open spec fn bitpack_header(header: Seq<u8>, packed_len: nat) -> Result<
    BitpackHeader,
    ErrorView,
> {
    if header.len() == 0 || header.len() > 2 {
        Err(detailed(ErrorKind::Malformed, "bitpack header is malformed"@))
    } else {
        let width = chosen_width(header[0] as int / 64);
        let bits = header[0] as nat % 64 + 1;
        let extra = if header.len() == 2 {
            header[1] as int
        } else {
            0
        };
        if bits > width * 8 {
            Err(detailed(ErrorKind::Malformed, "bitpack width is too large"@))
        } else if packed_len * 8 > usize::MAX {
            Err(detailed(ErrorKind::IntegerOverflow, "bitpack size overflowed"@))
        } else if extra > packed_len * 8 / bits {
            Err(detailed(ErrorKind::Malformed, "bitpack header is corrupt"@))
        } else {
            Ok(
                BitpackHeader {
                    element_width: width as usize,
                    bits: bits as usize,
                    elements: (packed_len * 8 / bits - extra) as usize,
                },
            )
        }
    }
}

/// The integers of a bit-packed buffer.
pub open spec fn unpacked_integers(stored: Seq<u8>, parsed: BitpackHeader) -> Seq<u64> {
    Seq::new(
        parsed.elements as nat,
        |i: int| bit_field(stored, i * parsed.bits, parsed.bits as nat) as u64,
    )
}

/// The bytes that a bit-packed buffer stands for.
pub open spec fn bitpack_bytes(stored: Seq<u8>, parsed: BitpackHeader, limits: Limits) -> Result<
    Seq<u8>,
    ErrorView,
> {
    if parsed.elements * parsed.element_width > usize::MAX {
        Err(plain(ErrorKind::IntegerOverflow))
    } else if !limits.admits(parsed.elements * parsed.element_width) {
        Err(output_limit_error())
    } else {
        Ok(packed(unpacked_integers(stored, parsed), parsed.element_width as nat))
    }
}

/// What a bitpack_serial node produces.
pub open spec fn bitpack_serial_node(stored: Seq<u8>, header: Seq<u8>, limits: Limits) -> Result<
    Seq<u8>,
    ErrorView,
> {
    match bitpack_header(header, stored.len()) {
        Err(error) => Err(error),
        Ok(parsed) => if parsed.element_width != 1 {
            Err(
                detailed(
                    ErrorKind::Unsupported,
                    "only serial byte bitpack output is implemented"@,
                ),
            )
        } else {
            bitpack_bytes(stored, parsed, limits)
        },
    }
}

/// What a bitpack_int node produces.
pub open spec fn bitpack_int_node(stored: Seq<u8>, header: Seq<u8>, limits: Limits) -> Result<
    StreamView,
    ErrorView,
> {
    match bitpack_header(header, stored.len()) {
        Err(error) => Err(error),
        Ok(parsed) => match bitpack_bytes(stored, parsed, limits) {
            Err(error) => Err(error),
            Ok(bytes) => Ok(typed_stream(bytes, parsed.element_width as nat)),
        },
    }
}

/// Every integer that comes out of a bit-packed buffer reads back as its bit field.
pub proof fn law_bitpack_reads_every_field(
    stored: Seq<u8>,
    header: Seq<u8>,
    limits: Limits,
    index: nat,
)
    requires
        bitpack_int_node(stored, header, limits) is Ok,
        index < bitpack_header(header, stored.len())->Ok_0.elements,
    ensures
        ({
            let parsed = bitpack_header(header, stored.len())->Ok_0;
            let output = bitpack_int_node(stored, header, limits)->Ok_0;
            element(output.bytes, output.element_width, index as int) == bit_field(
                stored,
                index * parsed.bits,
                parsed.bits as nat,
            )
        }),
{
    let parsed = bitpack_header(header, stored.len())->Ok_0;
    let bits = parsed.bits as nat;
    lemma_bit_field_bound(stored, index * parsed.bits, bits);
    lemma_bit_range_monotone(bits, (parsed.element_width * 8) as nat);
    lemma_bit_range_values();
    lemma_byte_range_values();
    law_packed_element(
        unpacked_integers(stored, parsed),
        parsed.element_width as nat,
        index as int,
    );
}

fn parse_bitpack_header(header: &[u8], packed_len: usize) -> (result: Result<BitpackHeader, Error>)
    ensures
        plain_outcome(result) == bitpack_header(header@, packed_len as nat),
        match result {
            Ok(parsed) => 1 <= parsed.bits <= 64 && parsed.elements * parsed.bits <= packed_len * 8
                <= usize::MAX && numeric_width(parsed.element_width as int) && parsed.bits
                <= parsed.element_width * 8,
            Err(_) => true,
        },
{
    if header.len() == 0 || header.len() > 2 {
        return Err(fail(ErrorKind::Malformed, "bitpack header is malformed"));
    }
    let element_width: usize = match header[0] / 64 {
        0 => 1,
        1 => 2,
        2 => 4,
        _ => 8,
    };
    let bits: usize = (header[0] % 64) as usize + 1;
    if bits > element_width * 8 {
        return Err(fail(ErrorKind::Malformed, "bitpack width is too large"));
    }
    let packed_bits: usize = match packed_len.checked_mul(8) {
        Some(packed_bits) => packed_bits,
        None => {
            return Err(fail(ErrorKind::IntegerOverflow, "bitpack size overflowed"));
        },
    };
    let max_elements: usize = packed_bits / bits;
    let extra: usize = if header.len() == 2 {
        header[1] as usize
    } else {
        0
    };
    if extra > max_elements {
        return Err(fail(ErrorKind::Malformed, "bitpack header is corrupt"));
    }
    proof {
        vstd::arithmetic::div_mod::lemma_fundamental_div_mod(packed_bits as int, bits as int);
        assert((max_elements - extra) * bits <= packed_bits) by (nonlinear_arith)
            requires
                packed_bits == bits * max_elements + packed_bits % bits,
                0 <= packed_bits % bits,
                0 <= extra <= max_elements,
                bits > 0,
        ;
    }
    Ok(BitpackHeader { element_width, bits, elements: max_elements - extra })
}

/// Unpacks a bit-packed buffer.
fn decode_bitpack_chunk(
    stored: &[u8],
    parsed: BitpackHeader,
    limits: Limits,
    scratch: &mut DecodeScratch,
) -> (result: Result<Vec<u8>, Error>)
    requires
        old(scratch).well_formed(),
        1 <= parsed.bits <= 64,
        parsed.elements * parsed.bits <= stored@.len() * 8 <= usize::MAX,
    ensures
        outcome(result) == bitpack_bytes(stored@, parsed, limits),
        final(scratch).well_formed(),
{
    let output_len: usize = match parsed.elements.checked_mul(parsed.element_width) {
        Some(output_len) => output_len,
        None => {
            return Err(Error::new(ErrorKind::IntegerOverflow));
        },
    };
    check_output_limit(output_len, limits)?;
    let mut output = scratch.take_byte_buffer(output_len);
    let ghost values = unpacked_integers(stored@, parsed);
    let mut index: usize = 0;
    let mut position: usize = 0;
    proof {
        assert(values.take(0) =~= Seq::empty());
    }
    while index < parsed.elements
        invariant
            index <= parsed.elements,
            1 <= parsed.bits <= 64,
            parsed.elements * parsed.bits <= stored@.len() * 8 <= usize::MAX,
            position == index * parsed.bits,
            values == unpacked_integers(stored@, parsed),
            output@ == packed(values.take(index as int), parsed.element_width as nat),
        decreases parsed.elements - index,
    {
        proof {
            lemma_element_inside(index as nat, parsed.elements as nat, parsed.bits as nat);
        }
        let value: u64 = read_bit_field(stored, position, parsed.bits);
        push_element(&mut output, value, parsed.element_width, Ghost(values.take(index as int)));
        proof {
            assert(values.take(index + 1) =~= values.take(index as int).push(value));
        }
        position = position + parsed.bits;
        index = index + 1;
    }
    proof {
        assert(values.take(index as int) =~= values);
    }
    Ok(output)
}

/// Decodes a bitpack_serial node.
pub fn decode_bitpack_serial_chunk(
    stored: &[u8],
    header: &[u8],
    limits: Limits,
    scratch: &mut DecodeScratch,
) -> (result: Result<Vec<u8>, Error>)
    requires
        old(scratch).well_formed(),
    ensures
        outcome(result) == bitpack_serial_node(stored@, header@, limits),
        final(scratch).well_formed(),
{
    let parsed = parse_bitpack_header(header, stored.len())?;
    if parsed.element_width != 1 {
        return Err(fail(ErrorKind::Unsupported, "only serial byte bitpack output is implemented"));
    }
    decode_bitpack_chunk(stored, parsed, limits, scratch)
}

/// Decodes a bitpack_int node.
pub fn decode_bitpack_int_chunk(
    stored: &[u8],
    header: &[u8],
    limits: Limits,
    scratch: &mut DecodeScratch,
) -> (result: Result<OwnedStream, Error>)
    requires
        old(scratch).well_formed(),
    ensures
        outcome(result) == bitpack_int_node(stored@, header@, limits),
        result is Ok ==> result->Ok_0.recyclable,
        final(scratch).well_formed(),
{
    let parsed = parse_bitpack_header(header, stored.len())?;
    let bytes = decode_bitpack_chunk(stored, parsed, limits, scratch)?;
    Ok(OwnedStream::pooled(bytes, parsed.element_width))
}

/// What a constant_serial node produces.
pub open spec fn constant_serial_node(stored: Seq<u8>, header: Seq<u8>, limits: Limits) -> Result<
    Seq<u8>,
    ErrorView,
> {
    if stored.len() != 1 {
        Err(detailed(ErrorKind::Malformed, "constant_serial input must contain one byte"@))
    } else {
        match var_u64(header, 0) {
            Err(error) => Err(error),
            Ok((count, end)) => if end != header.len() {
                Err(detailed(ErrorKind::Malformed, "unexpected constant_serial header bytes"@))
            } else if count == 0 {
                Err(detailed(ErrorKind::Malformed, "constant_serial output count must be nonzero"@))
            } else if count > usize::MAX {
                Err(detailed(ErrorKind::LimitExceeded, "output count is too large"@))
            } else if !limits.admits(count as int) {
                Err(output_limit_error())
            } else {
                Ok(Seq::new(count as nat, |i: int| stored[0]))
            },
        }
    }
}

/// Decodes a constant_serial node.
pub fn decode_constant_serial_chunk(stored: &[u8], header: &[u8], limits: Limits) -> (result:
    Result<Vec<u8>, Error>)
    ensures
        outcome(result) == constant_serial_node(stored@, header@, limits),
{
    if stored.len() != 1 {
        return Err(fail(ErrorKind::Malformed, "constant_serial input must contain one byte"));
    }
    let mut offset: usize = 0;
    let count: u64 = read_var_u64(header, &mut offset)?;
    if offset != header.len() {
        return Err(fail(ErrorKind::Malformed, "unexpected constant_serial header bytes"));
    }
    if count == 0 {
        return Err(fail(ErrorKind::Malformed, "constant_serial output count must be nonzero"));
    }
    if count > usize::MAX as u64 {
        return Err(fail(ErrorKind::LimitExceeded, "output count is too large"));
    }
    let output_len: usize = count as usize;
    check_output_limit(output_len, limits)?;
    let mut output: Vec<u8> = Vec::new();
    while output.len() < output_len
        invariant
            stored@.len() == 1,
            output@.len() <= output_len,
            forall|i: int| 0 <= i < output@.len() ==> #[trigger] output@[i] == stored@[0],
        decreases output_len - output@.len(),
    {
        output.push(stored[0]);
    }
    proof {
        assert(output@ =~= Seq::new(count as nat, |i: int| stored@[0]));
    }
    Ok(output)
}

/// The integer that a zigzag code of `width` bytes stands for, as its bits: an even
/// code is a half of it, an odd one counts down from the largest.
pub open spec fn zigzag_value(code: nat, width: nat) -> u64 {
    if code % 2 == 0 {
        (code / 2) as u64
    } else {
        (max_numeric(width as int) - code / 2) as u64
    }
}

/// The zigzag code of a signed integer.
pub open spec fn zigzag_code(value: int) -> nat {
    if value >= 0 {
        (2 * value) as nat
    } else {
        (-2 * value - 1) as nat
    }
}

/// The code of a signed integer decodes to its two's complement bits.
pub proof fn law_zigzag_undoes_code(value: int, width: nat)
    requires
        numeric_width(width as int),
        -(byte_range(width) as int) <= 2 * value < byte_range(width),
    ensures
        zigzag_code(value) < byte_range(width),
        zigzag_value(zigzag_code(value), width) as int == value % byte_range(width) as int,
{
    lemma_byte_range_values();
    let range = byte_range(width) as int;
    if value < 0 {
        vstd::arithmetic::div_mod::lemma_mod_add_multiples_vanish(value, range);
        vstd::arithmetic::div_mod::lemma_small_mod((value + range) as nat, range as nat);
    } else {
        vstd::arithmetic::div_mod::lemma_small_mod(value as nat, range as nat);
    }
}

/// What a zigzag node produces.
pub open spec fn zigzag_node(stored: StreamView, header: Seq<u8>, limits: Limits) -> Result<
    StreamView,
    ErrorView,
> {
    let width = stored.element_width;
    if header.len() != 0 {
        Err(detailed(ErrorKind::Unsupported, "zigzag transform headers are unsupported"@))
    } else if let Some(error) = numeric_width_error(width as int, "zigzag"@) {
        Err(error)
    } else if stored.bytes.len() % width != 0 {
        Err(detailed(ErrorKind::Malformed, "zigzag input has partial element"@))
    } else if !limits.admits(stored.bytes.len() as int) {
        Err(output_limit_error())
    } else {
        Ok(
            typed_stream(
                packed(
                    Seq::new(
                        stored.bytes.len() / width,
                        |i: int| zigzag_value(element(stored.bytes, width, i), width),
                    ),
                    width,
                ),
                width,
            ),
        )
    }
}

/// Decodes a zigzag node.
pub fn decode_zigzag_numeric_chunk(
    stored: StreamInput<'_>,
    header: &[u8],
    limits: Limits,
) -> (result: Result<OwnedStream, Error>)
    ensures
        outcome(result) == zigzag_node(stored@, header@, limits),
        result is Ok ==> !result->Ok_0.recyclable,
{
    if header.len() != 0 {
        return Err(fail(ErrorKind::Unsupported, "zigzag transform headers are unsupported"));
    }
    let width: usize = stored.element_width;
    validate_numeric_stream_width(width, "zigzag")?;
    if stored.bytes.len() % width != 0 {
        return Err(fail(ErrorKind::Malformed, "zigzag input has partial element"));
    }
    check_output_limit(stored.bytes.len(), limits)?;
    let max_value: u64 = max_numeric_value(width)?;
    let count: usize = stored.bytes.len() / width;
    let mut output: Vec<u8> = Vec::new();
    let ghost values = Seq::new(
        count as nat,
        |i: int| zigzag_value(element(stored.bytes@, width as nat, i), width as nat),
    );
    let mut index: usize = 0;
    proof {
        assert(values.take(0) =~= Seq::empty());
        lemma_whole_elements(stored.bytes@.len(), width as nat);
    }
    while index < count
        invariant
            index <= count,
            numeric_width(width as int),
            max_value == max_numeric(width as int),
            stored.bytes@.len() == count * width,
            values == Seq::new(
                count as nat,
                |i: int| zigzag_value(element(stored.bytes@, width as nat, i), width as nat),
            ),
            output@ == packed(values.take(index as int), width as nat),
        decreases count - index,
    {
        proof {
            lemma_element_inside(index as nat, count as nat, width as nat);
            lemma_element_bound(stored.bytes@, width as nat, index as int);
            assert(stored.bytes@.len() == stored.bytes.len());
        }
        let code: u64 = match read_numeric_element(stored.bytes, width, index) {
            Ok(code) => code,
            Err(error) => {
                return Err(error);
            },
        };
        let value: u64 = if code % 2 == 0 {
            code / 2
        } else {
            max_value - code / 2
        };
        push_element(&mut output, value, width, Ghost(values.take(index as int)));
        proof {
            assert(values.take(index + 1) =~= values.take(index as int).push(value));
        }
        index = index + 1;
    }
    proof {
        assert(values.take(index as int) =~= values);
    }
    Ok(OwnedStream::typed(output, width))
}

/// The running sum at `index`: the first value and the deltas in front of `index`.
pub open spec fn delta_value(deltas: Seq<u8>, width: nat, first: nat, index: nat) -> nat
    decreases index,
{
    if index == 0 {
        first
    } else {
        (delta_value(deltas, width, first, (index - 1) as nat) + element(
            deltas,
            width,
            index - 1,
        )) % byte_range(width)
    }
}

/// The running sums of `count` values.
pub open spec fn delta_values(deltas: Seq<u8>, width: nat, first: nat, count: nat) -> Seq<u64> {
    Seq::new(count, |i: int| delta_value(deltas, width, first, i as nat) as u64)
}

/// What a delta node produces.
pub open spec fn delta_node(stored: StreamView, header: Seq<u8>, limits: Limits) -> Result<
    StreamView,
    ErrorView,
> {
    let width = stored.element_width;
    if let Some(error) = numeric_width_error(width as int, "delta input"@) {
        Err(error)
    } else {
        match element_count(stored.bytes.len(), width) {
            Err(error) => Err(error),
            Ok(deltas) => if header.len() == 0 && deltas != 0 {
                Err(detailed(ErrorKind::Malformed, "delta stream has no first value"@))
            } else if header.len() != 0 && header.len() != width {
                Err(detailed(ErrorKind::Malformed, "delta header must contain one element"@))
            } else if header.len() != 0 && deltas == usize::MAX {
                Err(detailed(ErrorKind::IntegerOverflow, "delta size overflowed"@))
            } else {
                let count = if header.len() == 0 {
                    0nat
                } else {
                    (deltas + 1) as nat
                };
                if count * width > usize::MAX {
                    Err(plain(ErrorKind::IntegerOverflow))
                } else if !limits.admits((count * width) as int) {
                    Err(output_limit_error())
                } else {
                    Ok(
                        typed_stream(
                            packed(
                                delta_values(stored.bytes, width, le_value(header), count),
                                width,
                            ),
                            width,
                        ),
                    )
                }
            },
        }
    }
}

proof fn lemma_delta_bound(deltas: Seq<u8>, width: nat, first: nat, index: nat)
    requires
        first < byte_range(width),
    ensures
        delta_value(deltas, width, first, index) < byte_range(width),
    decreases index,
{
    crate::bytes::lemma_byte_range_monotone(width, width);
    if index > 0 {
        vstd::arithmetic::div_mod::lemma_mod_bound(
            delta_value(deltas, width, first, (index - 1) as nat) + element(
                deltas,
                width,
                index - 1,
            ) as int,
            byte_range(width) as int,
        );
    }
}

/// The first value comes out as it stands in the header, and each later one is its
/// predecessor plus the delta between them, in the arithmetic of the width.
pub proof fn law_delta_steps(stored: StreamView, header: Seq<u8>, limits: Limits, index: nat)
    requires
        delta_node(stored, header, limits) is Ok,
        header.len() == stored.element_width,
        stored.bytes.len() < usize::MAX,
        index < stored.bytes.len() / stored.element_width,
    ensures
        ({
            let output = delta_node(stored, header, limits)->Ok_0.bytes;
            let width = stored.element_width;
            &&& element(output, width, 0) == le_value(header)
            &&& element(output, width, index as int + 1) == (element(output, width, index as int)
                + element(stored.bytes, width, index as int)) % byte_range(width)
        }),
{
    let width = stored.element_width;
    let first = le_value(header);
    lemma_whole_elements(stored.bytes.len(), width);
    let count = (stored.bytes.len() / width + 1) as nat;
    let values = delta_values(stored.bytes, width, first, count);
    lemma_le_value_bound(header);
    lemma_byte_range_values();
    lemma_delta_bound(stored.bytes, width, first, index);
    lemma_delta_bound(stored.bytes, width, first, index + 1);
    law_packed_element(values, width, 0);
    law_packed_element(values, width, index as int);
    law_packed_element(values, width, index as int + 1);
}

/// Decodes a delta node.
pub fn decode_delta_node(
    stored: StreamInput<'_>,
    header: &[u8],
    limits: Limits,
    scratch: &mut DecodeScratch,
) -> (result: Result<OwnedStream, Error>)
    requires
        old(scratch).well_formed(),
    ensures
        outcome(result) == delta_node(stored@, header@, limits),
        result is Ok ==> result->Ok_0.recyclable,
        final(scratch).well_formed(),
{
    let width: usize = stored.element_width;
    validate_numeric_stream_width(width, "delta input")?;
    let deltas: usize = numeric_element_count(stored.bytes, width)?;
    if header.len() == 0 && deltas != 0 {
        return Err(fail(ErrorKind::Malformed, "delta stream has no first value"));
    }
    if header.len() != 0 && header.len() != width {
        return Err(fail(ErrorKind::Malformed, "delta header must contain one element"));
    }
    if header.len() != 0 && deltas == usize::MAX {
        return Err(fail(ErrorKind::IntegerOverflow, "delta size overflowed"));
    }
    let count: usize = if header.len() == 0 {
        0
    } else {
        deltas + 1
    };
    let output_len: usize = match count.checked_mul(width) {
        Some(output_len) => output_len,
        None => {
            return Err(Error::new(ErrorKind::IntegerOverflow));
        },
    };
    check_output_limit(output_len, limits)?;
    let mut output = scratch.take_byte_buffer(output_len);
    if count == 0 {
        proof {
            assert(delta_values(stored.bytes@, width as nat, le_value(header@), 0)
                =~= Seq::empty());
        }
        return Ok(OwnedStream::pooled(output, width));
    }
    let max_value: u64 = max_numeric_value(width)?;
    let mut previous: u64 = read_le(header, 0, width);
    let ghost first = previous as nat;
    let ghost values = delta_values(stored.bytes@, width as nat, first, count as nat);
    proof {
        assert(header@.subrange(0, width as int) =~= header@);
        lemma_le_value_bound(header@);
        lemma_byte_range_values();
        assert(values.take(0) =~= Seq::empty());
        assert(values.take(1) =~= Seq::<u64>::empty().push(previous));
    }
    push_element(&mut output, previous, width, Ghost(Seq::empty()));
    let mut index: usize = 0;
    while index < deltas
        invariant
            index <= deltas,
            deltas < usize::MAX,
            count == deltas + 1,
            numeric_width(width as int),
            max_value == max_numeric(width as int),
            byte_range(width as nat) == max_value + 1,
            stored.bytes@.len() == deltas * width,
            first < byte_range(width as nat),
            previous as nat == delta_value(stored.bytes@, width as nat, first, index as nat),
            previous <= max_value,
            values == delta_values(stored.bytes@, width as nat, first, count as nat),
            output@ == packed(values.take(index + 1), width as nat),
        decreases deltas - index,
    {
        proof {
            lemma_element_inside(index as nat, deltas as nat, width as nat);
            lemma_element_bound(stored.bytes@, width as nat, index as int);
            lemma_delta_bound(stored.bytes@, width as nat, first, (index + 1) as nat);
            assert(stored.bytes@.len() == stored.bytes.len());
        }
        let delta: u64 = match read_numeric_element(stored.bytes, width, index) {
            Ok(delta) => delta,
            Err(error) => {
                return Err(error);
            },
        };
        let ghost sum = previous as nat + delta as nat;
        previous = if delta <= max_value - previous {
            previous + delta
        } else {
            delta - (max_value - previous) - 1
        };
        proof {
            let range = byte_range(width as nat);
            if sum < range {
                vstd::arithmetic::div_mod::lemma_small_mod(sum, range);
            } else {
                vstd::arithmetic::div_mod::lemma_mod_add_multiples_vanish(
                    sum - range,
                    range as int,
                );
                vstd::arithmetic::div_mod::lemma_small_mod((sum - range) as nat, range);
            }
        }
        push_element(&mut output, previous, width, Ghost(values.take(index + 1)));
        proof {
            assert(values.take(index + 2) =~= values.take(index + 1).push(previous));
        }
        index = index + 1;
    }
    proof {
        assert(values.take(index + 1) =~= values);
    }
    Ok(OwnedStream::pooled(output, width))
}

/// Bit `index` of values of `bits` bits laid end to end, with the bits of
/// `trailing` behind them.
pub open spec fn unpacked_bit(stored: Seq<u8>, bits: int, trailing: u8, index: int) -> bool {
    if index < stored.len() * bits {
        byte_bit(stored[index / bits], index % bits)
    } else {
        byte_bit(trailing, index - stored.len() * bits)
    }
}

/// The integer in the `count` bits from `start` on of values laid end to end.
pub open spec fn unpacked_field(
    stored: Seq<u8>,
    bits: int,
    trailing: u8,
    start: int,
    count: nat,
) -> nat
    decreases count,
{
    if count == 0 {
        0
    } else {
        (if unpacked_bit(stored, bits, trailing, start) {
            1nat
        } else {
            0nat
        }) + 2 * unpacked_field(stored, bits, trailing, start + 1, (count - 1) as nat)
    }
}

/// The bytes that hold values of `bits` bits laid end to end.
pub open spec fn bitunpack_bytes(stored: Seq<u8>, bits: int, trailing: u8) -> Seq<u8> {
    Seq::new(
        ((stored.len() * bits + 7) / 8) as nat,
        |i: int| unpacked_field(stored, bits, trailing, 8 * i, 8) as u8,
    )
}

/// What a bitunpack node produces.
pub open spec fn bitunpack_node(stored: Seq<u8>, header: Seq<u8>, limits: Limits) -> Result<
    Seq<u8>,
    ErrorView,
> {
    if header.len() == 0 || header.len() > 2 {
        Err(detailed(ErrorKind::Malformed, "bitunpack header is malformed"@))
    } else {
        let bits = header[0] as int;
        let bit_count = stored.len() * bits;
        let output_len = (bit_count + 7) / 8;
        let spare = 8 * output_len - bit_count;
        if bits == 0 || bits > 8 {
            Err(detailed(ErrorKind::Unsupported, "only byte-width bitunpack input is implemented"@))
        } else if bit_count + 7 > usize::MAX {
            Err(detailed(ErrorKind::IntegerOverflow, "bitunpack size overflowed"@))
        } else if !limits.admits(output_len) {
            Err(output_limit_error())
        } else if exists|i: int|
            0 <= i < stored.len() && #[trigger] stored[i] as nat >= bit_range(bits as nat) {
            Err(detailed(ErrorKind::Malformed, "bitunpack value exceeds bit width"@))
        } else if header.len() == 2 && (spare == 0 || header[1] as nat >= bit_range(spare as nat)) {
            Err(detailed(ErrorKind::Malformed, "bitunpack trailing bits are malformed"@))
        } else {
            Ok(
                bitunpack_bytes(
                    stored,
                    bits,
                    if header.len() == 2 {
                        header[1]
                    } else {
                        0
                    },
                ),
            )
        }
    }
}

proof fn lemma_unpacked_field_bound(
    stored: Seq<u8>,
    bits: int,
    trailing: u8,
    start: int,
    count: nat,
)
    ensures
        unpacked_field(stored, bits, trailing, start, count) < bit_range(count),
    decreases count,
{
    if count > 0 {
        lemma_unpacked_field_bound(stored, bits, trailing, start + 1, (count - 1) as nat);
    }
}

/// Collects eight bits of values laid end to end.
fn gather_byte(stored: &[u8], bits: usize, bit_count: usize, trailing: u8, start: usize) -> (byte:
    u8)
    requires
        1 <= bits <= 8,
        bit_count == stored@.len() * bits,
        start <= bit_count,
        start + 8 <= usize::MAX,
    ensures
        byte == unpacked_field(stored@, bits as int, trailing, start as int, 8) as u8,
{
    let mut value: u64 = 0;
    let mut left: usize = 8;
    while left > 0
        invariant
            left <= 8,
            1 <= bits <= 8,
            bit_count == stored@.len() * bits,
            start <= bit_count,
            start + 8 <= usize::MAX,
            value as nat == unpacked_field(
                stored@,
                bits as int,
                trailing,
                start + left,
                (8 - left) as nat,
            ),
        decreases left,
    {
        proof {
            lemma_unpacked_field_bound(
                stored@,
                bits as int,
                trailing,
                start + left,
                (8 - left) as nat,
            );
            lemma_bit_range_monotone((8 - left) as nat, 8);
            lemma_bit_range_values();
        }
        left = left - 1;
        let position: usize = start + left;
        let bit: bool = if position < bit_count {
            proof {
                assert(position / bits < stored@.len()) by (nonlinear_arith)
                    requires
                        position < stored@.len() * bits,
                        bits > 0,
                ;
            }
            (stored[position / bits] >> ((position % bits) as u8)) & 1 == 1
        } else {
            (trailing >> ((position - bit_count) as u8)) & 1 == 1
        };
        value = 2 * value + (if bit {
            1
        } else {
            0
        });
    }
    proof {
        lemma_unpacked_field_bound(stored@, bits as int, trailing, start as int, 8);
        lemma_bit_range_values();
    }
    value as u8
}

/// Decodes a bitunpack node.
pub fn decode_bitunpack_serial8_chunk(stored: &[u8], header: &[u8], limits: Limits) -> (result:
    Result<Vec<u8>, Error>)
    ensures
        outcome(result) == bitunpack_node(stored@, header@, limits),
{
    if header.len() == 0 || header.len() > 2 {
        return Err(fail(ErrorKind::Malformed, "bitunpack header is malformed"));
    }
    let bits: usize = header[0] as usize;
    if bits == 0 || bits > 8 {
        return Err(fail(ErrorKind::Unsupported, "only byte-width bitunpack input is implemented"));
    }
    let bit_count: usize = match stored.len().checked_mul(bits) {
        Some(bit_count) => bit_count,
        None => {
            return Err(fail(ErrorKind::IntegerOverflow, "bitunpack size overflowed"));
        },
    };
    let rounded: usize = match bit_count.checked_add(7) {
        Some(rounded) => rounded,
        None => {
            return Err(fail(ErrorKind::IntegerOverflow, "bitunpack size overflowed"));
        },
    };
    let output_len: usize = rounded / 8;
    check_output_limit(output_len, limits)?;
    let limit: u64 = power_of_two(bits);
    let mut index: usize = 0;
    while index < stored.len()
        invariant
            index <= stored.len(),
            1 <= bits <= 8,
            bits == header@[0],
            bit_count == stored@.len() * bits,
            rounded == bit_count + 7,
            output_len == rounded / 8,
            limits.admits(output_len as int),
            1 <= header@.len() <= 2,
            limit as nat == bit_range(bits as nat),
            forall|i: int| 0 <= i < index ==> (#[trigger] stored@[i] as nat) < limit,
        decreases stored.len() - index,
    {
        if stored[index] as u64 >= limit {
            return Err(fail(ErrorKind::Malformed, "bitunpack value exceeds bit width"));
        }
        index = index + 1;
    }
    let mut trailing: u8 = 0;
    if header.len() == 2 {
        let spare: usize = output_len * 8 - bit_count;
        if spare == 0 || header[1] as u64 >= power_of_two(spare) {
            return Err(fail(ErrorKind::Malformed, "bitunpack trailing bits are malformed"));
        }
        trailing = header[1];
    }
    let ghost expected = bitunpack_bytes(stored@, bits as int, trailing);
    let mut output: Vec<u8> = Vec::new();
    while output.len() < output_len
        invariant
            output@.len() <= output_len,
            1 <= bits <= 8,
            bit_count == stored@.len() * bits,
            rounded == bit_count + 7,
            output_len == rounded / 8,
            expected == bitunpack_bytes(stored@, bits as int, trailing),
            forall|i: int| 0 <= i < output@.len() ==> #[trigger] output@[i] == expected[i],
        decreases output_len - output@.len(),
    {
        let start: usize = 8 * output.len();
        let byte: u8 = gather_byte(stored, bits, bit_count, trailing, start);
        output.push(byte);
    }
    proof {
        assert(output@ =~= expected);
    }
    Ok(output)
}

/// What a range_pack node produces.
pub open spec fn range_pack_node(stored: Seq<u8>, header: Seq<u8>, limits: Limits) -> Result<
    Seq<u8>,
    ErrorView,
> {
    if header.len() == 0 {
        Err(detailed(ErrorKind::Malformed, "range_pack header is malformed"@))
    } else if header[0] != 1 {
        Err(detailed(ErrorKind::Unsupported, "only byte-width range_pack output is implemented"@))
    } else if header.len() > 2 {
        Err(detailed(ErrorKind::Malformed, "range_pack header is malformed"@))
    } else if !limits.admits(stored.len() as int) {
        Err(output_limit_error())
    } else {
        let least = if header.len() == 2 {
            header[1]
        } else {
            0
        };
        if exists|i: int| 0 <= i < stored.len() && #[trigger] stored[i] + least > 255 {
            Err(detailed(ErrorKind::Malformed, "range_pack value overflowed"@))
        } else {
            Ok(Seq::new(stored.len(), |i: int| (stored[i] + least) as u8))
        }
    }
}

/// Decodes a range_pack node.
pub fn decode_range_pack_serial8_chunk(stored: &[u8], header: &[u8], limits: Limits) -> (result:
    Result<Vec<u8>, Error>)
    ensures
        outcome(result) == range_pack_node(stored@, header@, limits),
{
    if header.len() == 0 {
        return Err(fail(ErrorKind::Malformed, "range_pack header is malformed"));
    }
    if header[0] != 1 {
        return Err(
            fail(ErrorKind::Unsupported, "only byte-width range_pack output is implemented"),
        );
    }
    if header.len() > 2 {
        return Err(fail(ErrorKind::Malformed, "range_pack header is malformed"));
    }
    let least: u8 = if header.len() == 2 {
        header[1]
    } else {
        0
    };
    check_output_limit(stored.len(), limits)?;
    let mut output: Vec<u8> = Vec::new();
    while output.len() < stored.len()
        invariant
            output@.len() <= stored@.len(),
            1 <= header@.len() <= 2,
            header@[0] == 1,
            least == (if header@.len() == 2 {
                header@[1]
            } else {
                0
            }),
            limits.admits(stored@.len() as int),
            forall|i: int|
                0 <= i < output@.len() ==> #[trigger] stored@[i] + least <= 255 && output@[i]
                    == stored@[i] + least,
        decreases stored@.len() - output@.len(),
    {
        let value: u8 = stored[output.len()];
        if value > 255 - least {
            proof {
                assert(stored@[output@.len() as int] + least > 255);
            }
            return Err(fail(ErrorKind::Malformed, "range_pack value overflowed"));
        }
        output.push(value + least);
    }
    proof {
        assert(output@ =~= Seq::new(stored@.len(), |i: int| (stored@[i] + least) as u8));
    }
    Ok(output)
}

} // verus!
