//! Little-endian integers and variable-length integers.

use vstd::prelude::*;

use crate::error::{located, located_detailed, Error, ErrorKind, ErrorView};

verus! {

/// The integer that `bytes` holds, least significant byte first.
pub open spec fn le_value(bytes: Seq<u8>) -> nat
    decreases bytes.len(),
{
    if bytes.len() == 0 {
        0
    } else {
        bytes[0] as nat + 256 * le_value(bytes.subrange(1, bytes.len() as int))
    }
}

/// The low `width` bytes of `value`, least significant byte first.
pub open spec fn le_bytes(value: nat, width: nat) -> Seq<u8>
    decreases width,
{
    if width == 0 {
        Seq::empty()
    } else {
        seq![(value % 256) as u8] + le_bytes(value / 256, (width - 1) as nat)
    }
}

/// The number of integers that `width` bytes can hold.
pub open spec fn byte_range(width: nat) -> nat
    decreases width,
{
    if width == 0 {
        1
    } else {
        256 * byte_range((width - 1) as nat)
    }
}

pub proof fn lemma_byte_range_values()
    ensures
        byte_range(0) == 1,
        byte_range(1) == 0x100,
        byte_range(2) == 0x1_0000,
        byte_range(4) == 0x1_0000_0000,
        byte_range(8) == 0x1_0000_0000_0000_0000,
{
    reveal_with_fuel(byte_range, 9);
}

pub proof fn lemma_byte_range_monotone(small: nat, large: nat)
    requires
        small <= large,
    ensures
        0 < byte_range(small) <= byte_range(large),
    decreases large,
{
    if small < large {
        lemma_byte_range_monotone(small, (large - 1) as nat);
    } else if small > 0 {
        lemma_byte_range_monotone((small - 1) as nat, (small - 1) as nat);
    }
}

/// An integer of `n` bytes is below `byte_range(n)`.
pub proof fn lemma_le_value_bound(bytes: Seq<u8>)
    ensures
        le_value(bytes) < byte_range(bytes.len()),
    decreases bytes.len(),
{
    if bytes.len() > 0 {
        lemma_le_value_bound(bytes.subrange(1, bytes.len() as int));
    }
}

pub proof fn lemma_le_bytes_len(value: nat, width: nat)
    ensures
        le_bytes(value, width).len() == width,
    decreases width,
{
    if width > 0 {
        lemma_le_bytes_len(value / 256, (width - 1) as nat);
    }
}

/// Reading what was written gives the value back, where it fits the width.
pub proof fn law_le_round_trip(value: nat, width: nat)
    requires
        value < byte_range(width),
    ensures
        le_value(le_bytes(value, width)) == value,
    decreases width,
{
    if width > 0 {
        let rest = le_bytes(value / 256, (width - 1) as nat);
        law_le_round_trip(value / 256, (width - 1) as nat);
        let all = le_bytes(value, width);
        assert(all.subrange(1, all.len() as int) =~= rest);
    }
}

/// Writing what was read gives the bytes back.
pub proof fn law_le_bytes_of_value(bytes: Seq<u8>)
    ensures
        le_bytes(le_value(bytes), bytes.len()) == bytes,
    decreases bytes.len(),
{
    if bytes.len() > 0 {
        let rest = bytes.subrange(1, bytes.len() as int);
        law_le_bytes_of_value(rest);
        let value = le_value(bytes);
        assert(value % 256 == bytes[0] as nat);
        assert(value / 256 == le_value(rest));
        assert(le_bytes(value, bytes.len()) =~= bytes);
    } else {
        assert(le_bytes(le_value(bytes), bytes.len()) =~= bytes);
    }
}

/// Reads `width` bytes from `start` as a little-endian integer.
pub(crate) fn read_le(bytes: &[u8], start: usize, width: usize) -> (value: u64)
    requires
        width <= 8,
        start + width <= bytes.len(),
    ensures
        value as nat == le_value(bytes@.subrange(start as int, start + width)),
{
    let mut value: u64 = 0;
    let mut left: usize = width;
    proof {
        assert(bytes@.subrange(start + width, start + width).len() == 0);
    }
    while left > 0
        invariant
            left <= width <= 8,
            start + width <= bytes.len(),
            value as nat == le_value(bytes@.subrange(start + left, start + width)),
        decreases left,
    {
        let ghost tail = bytes@.subrange(start + left, start + width);
        let ghost whole = bytes@.subrange(start + left - 1, start + width);
        proof {
            lemma_le_value_bound(tail);
            lemma_byte_range_monotone(tail.len(), 7);
            reveal_with_fuel(byte_range, 8);
            assert(whole.subrange(1, whole.len() as int) =~= tail);
            assert(whole[0] == bytes[start + left - 1]);
        }
        left = left - 1;
        value = value * 256 + bytes[start + left] as u64;
    }
    value
}

/// Appends the low `width` bytes of `value`, least significant byte first.
pub(crate) fn push_le(output: &mut Vec<u8>, value: u64, width: usize)
    ensures
        final(output)@ == old(output)@ + le_bytes(value as nat, width as nat),
{
    let mut rest: u64 = value;
    let mut left: usize = width;
    let ghost start = output@;
    proof {
        assert(start + le_bytes(value as nat, width as nat) =~= output@ + le_bytes(
            rest as nat,
            left as nat,
        ));
    }
    while left > 0
        invariant
            start + le_bytes(value as nat, width as nat) == output@ + le_bytes(
                rest as nat,
                left as nat,
            ),
        decreases left,
    {
        let ghost before = output@;
        let ghost remaining = rest as nat;
        output.push((rest % 256) as u8);
        rest = rest / 256;
        left = left - 1;
        proof {
            assert(output@ + le_bytes(rest as nat, left as nat) =~= before + le_bytes(
                remaining,
                (left + 1) as nat,
            ));
        }
    }
    proof {
        assert(output@ + le_bytes(rest as nat, 0) =~= output@);
    }
}

/// Appends `bytes` to `output`.
pub(crate) fn append_bytes(output: &mut Vec<u8>, bytes: &[u8])
    ensures
        final(output)@ == old(output)@ + bytes@,
{
    let ghost before = output@;
    output.extend_from_slice(bytes);
    proof {
        assert(output@ =~= before + bytes@);
    }
}

/// Copies `bytes` into a vector of its own.
pub(crate) fn copy_bytes(bytes: &[u8]) -> (copy: Vec<u8>)
    ensures
        copy@ == bytes@,
{
    let mut copy: Vec<u8> = Vec::new();
    append_bytes(&mut copy, bytes);
    proof {
        assert(copy@ =~= bytes@);
    }
    copy
}

/// What a variable-length integer reads as: the value and the offset after it.
pub open spec fn var_u64(input: Seq<u8>, start: int) -> Result<(u64, int), ErrorView> {
    var_u64_from(input, start, 0, 0)
}

/// Reads on from the byte `index` of a variable-length integer whose earlier
/// bytes hold `value`.
pub open spec fn var_u64_from(input: Seq<u8>, start: int, index: nat, value: nat) -> Result<
    (u64, int),
    ErrorView,
>
    decreases 10 - index,
{
    let position = start + index;
    if index >= 10 {
        Err(located_detailed(ErrorKind::Malformed, start, "u64 varint is too long"@))
    } else if position >= input.len() {
        Err(located(ErrorKind::Truncated, position))
    } else {
        let payload = input[position] as nat % 128;
        if index == 9 && payload > 1 {
            Err(
                located_detailed(
                    ErrorKind::IntegerOverflow,
                    start,
                    "u64 varint payload overflows"@,
                ),
            )
        } else {
            let next = value + payload * group_weight(index);
            if input[position] < 128 {
                Ok((next as u64, position + 1))
            } else {
                var_u64_from(input, start, index + 1, next)
            }
        }
    }
}

/// The weight of the 7-bit group at `index`.
pub open spec fn group_weight(index: nat) -> nat
    decreases index,
{
    if index == 0 {
        1
    } else {
        128 * group_weight((index - 1) as nat)
    }
}

proof fn lemma_group_weight_values()
    ensures
        group_weight(0) == 1,
        group_weight(9) == 0x8000_0000_0000_0000,
        group_weight(10) == 0x40_0000_0000_0000_0000,
{
    reveal_with_fuel(group_weight, 11);
}

/// An integer as its 7-bit groups, least significant group first, each but the last with
/// its top bit set.
pub open spec fn var_bytes(value: nat) -> Seq<u8>
    decreases value,
{
    if value < 128 {
        seq![value as u8]
    } else {
        seq![(value % 128 + 128) as u8] + var_bytes(value / 128)
    }
}

/// A variable-length integer that was written anywhere in a buffer reads back, and reading
/// ends behind its bytes.
pub proof fn law_var_u64_round_trip(front: Seq<u8>, value: u64, back: Seq<u8>)
    ensures
        var_u64(front + var_bytes(value as nat) + back, front.len() as int) == Ok::<
            (u64, int),
            ErrorView,
        >((value, (front + var_bytes(value as nat)).len() as int)),
{
    lemma_group_weight_values();
    let input = front + var_bytes(value as nat) + back;
    assert(input.subrange(
        front.len() as int,
        (front.len() + var_bytes(value as nat).len()) as int,
    ) =~= var_bytes(value as nat));
    assert(value as nat * 1 == value);
    lemma_var_groups(input, front.len() as int, 0, 0, value as nat);
}

proof fn lemma_var_groups(input: Seq<u8>, start: int, index: nat, value: nat, rest: nat)
    requires
        0 <= start,
        index <= 9,
        start + index + var_bytes(rest).len() <= input.len(),
        input.subrange(start + index, start + index + var_bytes(rest).len()) == var_bytes(rest),
        value + rest * group_weight(index) <= u64::MAX,
    ensures
        var_u64_from(input, start, index, value) == Ok::<(u64, int), ErrorView>(
            (
                (value + rest * group_weight(index)) as u64,
                start + index + var_bytes(rest).len(),
            ),
        ),
    decreases rest,
{
    lemma_group_weight_values();
    let weight = group_weight(index);
    lemma_group_weight_monotone(index, 9);
    let written = var_bytes(rest);
    let position = start + index;
    assert(written[0] == input[position]) by {
        assert(input.subrange(position, position + written.len())[0] == input[position]);
    }
    if index == 9 {
        assert(rest <= 1) by (nonlinear_arith)
            requires
                rest * weight <= u64::MAX,
                weight == 0x8000_0000_0000_0000,
        ;
    }
    if rest >= 128 {
        let more = var_bytes(rest / 128);
        assert(written.len() == 1 + more.len());
        assert(more =~= written.subrange(1, written.len() as int));
        assert(input.subrange(position + 1, position + 1 + more.len()) =~= input.subrange(
            position,
            position + written.len(),
        ).subrange(1, written.len() as int));
        assert(input[position] as nat % 128 == rest % 128);
        let next = value + rest % 128 * weight;
        assert(rest * weight == rest % 128 * weight + rest / 128 * (128 * weight))
            by (nonlinear_arith)
            requires
                rest == 128 * (rest / 128) + rest % 128,
        ;
        assert(group_weight(index + 1) == 128 * weight);
        lemma_var_groups(input, start, index + 1, next, rest / 128);
    }
}

proof fn lemma_group_weight_monotone(small: nat, large: nat)
    requires
        small <= large,
    ensures
        0 < group_weight(small) <= group_weight(large),
    decreases large,
{
    if small < large {
        lemma_group_weight_monotone(small, (large - 1) as nat);
    } else if small > 0 {
        lemma_group_weight_monotone((small - 1) as nat, (small - 1) as nat);
    }
}

/// Reads a variable-length integer at `*offset` and moves `*offset` past the
/// bytes that were read.
pub fn read_var_u64(input: &[u8], offset: &mut usize) -> (result: Result<u64, Error>)
    ensures
        match result {
            Ok(value) => var_u64(input@, *old(offset) as int) == Ok::<(u64, int), ErrorView>(
                (value, *final(offset) as int),
            ),
            Err(error) => var_u64(input@, *old(offset) as int) == Err::<(u64, int), ErrorView>(
                error@,
            ),
        },
        *old(offset) <= *final(offset),
        *old(offset) <= input.len() ==> *final(offset) <= input.len(),
{
    let start: usize = *offset;
    if start > input.len() {
        return Err(Error::at(ErrorKind::Truncated, start));
    }
    let mut index: u32 = 0;
    let mut value: u64 = 0;
    let mut weight: u64 = 1;
    while index < 10
        invariant
            start == *old(offset),
            start <= *offset <= input.len(),
            *offset == start + index,
            index <= 10,
            index < 10 ==> weight as nat == group_weight(index as nat),
            (value as nat) < group_weight(index as nat) || index == 10,
            var_u64(input@, start as int) == var_u64_from(
                input@,
                start as int,
                index as nat,
                value as nat,
            ),
        decreases 10 - index,
    {
        proof {
            lemma_group_weight_values();
            lemma_group_weight_monotone(index as nat, 9);
        }
        if *offset >= input.len() {
            return Err(Error::at(ErrorKind::Truncated, *offset));
        }
        let byte: u8 = input[*offset];
        *offset = *offset + 1;
        let payload: u64 = (byte % 128) as u64;
        if index == 9 && payload > 1 {
            return Err(
                Error::at(ErrorKind::IntegerOverflow, start).with_detail(
                    "u64 varint payload overflows",
                ),
            );
        }
        proof {
            let ghost_weight = group_weight(index as nat);
            if index == 9 {
                assert(payload * weight <= weight) by (nonlinear_arith)
                    requires
                        payload <= 1,
                ;
            } else {
                lemma_group_weight_monotone((index + 1) as nat, 9);
                assert(payload * weight <= 127 * weight) by (nonlinear_arith)
                    requires
                        payload <= 127,
                ;
                assert(value + payload * weight < 128 * ghost_weight);
            }
        }
        value = value + payload * weight;
        if byte < 128 {
            return Ok(value);
        }
        index = index + 1;
        if index < 10 {
            weight = weight * 128;
        }
    }
    Err(Error::at(ErrorKind::Malformed, start).with_detail("u64 varint is too long"))
}

} // verus!
