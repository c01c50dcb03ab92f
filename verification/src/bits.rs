//! Bits of byte buffers, least significant bit of the first byte first.

use vstd::prelude::*;

use crate::error::{detailed, fail, plain, plain_outcome, Error, ErrorKind, ErrorView};

verus! {

/// Whether bit `index` of a byte is set.
pub open spec fn byte_bit(byte: u8, index: int) -> bool {
    (byte >> (index as u8)) & 1 == 1
}

/// Whether bit `index` of a buffer is set.
pub open spec fn bit_at(bytes: Seq<u8>, index: int) -> bool {
    byte_bit(bytes[index / 8], index % 8)
}

/// The integer in the `count` bits from `start` on, least significant bit first.
pub open spec fn bit_field(bytes: Seq<u8>, start: int, count: nat) -> nat
    decreases count,
{
    if count == 0 {
        0
    } else {
        (if bit_at(bytes, start) {
            1nat
        } else {
            0nat
        }) + 2 * bit_field(bytes, start + 1, (count - 1) as nat)
    }
}

/// The number of integers that `count` bits can hold.
pub open spec fn bit_range(count: nat) -> nat
    decreases count,
{
    if count == 0 {
        1
    } else {
        2 * bit_range((count - 1) as nat)
    }
}

pub proof fn lemma_bit_range_values()
    ensures
        bit_range(0) == 1,
        bit_range(1) == 2,
        bit_range(2) == 4,
        bit_range(3) == 8,
        bit_range(4) == 0x10,
        bit_range(5) == 0x20,
        bit_range(6) == 0x40,
        bit_range(7) == 0x80,
        bit_range(8) == 0x100,
        bit_range(16) == 0x1_0000,
        bit_range(31) == 0x8000_0000,
        bit_range(32) == 0x1_0000_0000,
        bit_range(63) == 0x8000_0000_0000_0000,
        bit_range(64) == 0x1_0000_0000_0000_0000,
{
    reveal_with_fuel(bit_range, 65);
}

pub proof fn lemma_bit_range_monotone(small: nat, large: nat)
    requires
        small <= large,
    ensures
        0 < bit_range(small) <= bit_range(large),
    decreases large,
{
    if small < large {
        lemma_bit_range_monotone(small, (large - 1) as nat);
    } else if small > 0 {
        lemma_bit_range_monotone((small - 1) as nat, (small - 1) as nat);
    }
}

/// A field of `count` bits is below `bit_range(count)`.
pub proof fn lemma_bit_field_bound(bytes: Seq<u8>, start: int, count: nat)
    ensures
        bit_field(bytes, start, count) < bit_range(count),
    decreases count,
{
    if count > 0 {
        lemma_bit_field_bound(bytes, start + 1, (count - 1) as nat);
    }
}

/// Reads `count` bits from `start` on.
pub(crate) fn read_bit_field(bytes: &[u8], start: usize, count: usize) -> (value: u64)
    requires
        count <= 64,
        start + count <= usize::MAX,
        start + count <= 8 * bytes@.len(),
    ensures
        value as nat == bit_field(bytes@, start as int, count as nat),
{
    let mut value: u64 = 0;
    let mut left: usize = count;
    while left > 0
        invariant
            left <= count <= 64,
            start + count <= usize::MAX,
            start + count <= 8 * bytes@.len(),
            value as nat == bit_field(bytes@, start + left, (count - left) as nat),
        decreases left,
    {
        proof {
            lemma_bit_field_bound(bytes@, start + left, (count - left) as nat);
            lemma_bit_range_monotone((count - left) as nat, 63);
            lemma_bit_range_values();
        }
        left = left - 1;
        let position: usize = start + left;
        let byte: u8 = bytes[position / 8];
        if (byte >> ((position % 8) as u8)) & 1 == 1 {
            value = 2 * value + 1;
        } else {
            value = 2 * value;
        }
    }
    value
}

/// Two to the power of `exponent`.
pub(crate) fn power_of_two(exponent: usize) -> (value: u64)
    requires
        exponent < 64,
    ensures
        value as nat == bit_range(exponent as nat),
{
    let mut value: u64 = 1;
    let mut index: usize = 0;
    while index < exponent
        invariant
            index <= exponent < 64,
            value as nat == bit_range(index as nat),
        decreases exponent - index,
    {
        proof {
            lemma_bit_range_monotone((index + 1) as nat, 63);
            lemma_bit_range_values();
        }
        value = value * 2;
        index = index + 1;
    }
    value
}

/// The number of bits of `value` up to its highest set one.
pub open spec fn bit_length(value: nat) -> nat
    decreases value,
{
    if value == 0 {
        0
    } else {
        1 + bit_length(value / 2)
    }
}

pub proof fn lemma_bit_length_bound(value: nat, count: nat)
    requires
        value < bit_range(count),
    ensures
        bit_length(value) <= count,
    decreases value,
{
    if value > 0 {
        if count > 0 {
            lemma_bit_length_bound(value / 2, (count - 1) as nat);
        }
    }
}

/// Counts the bits of `value` up to its highest set one.
pub(crate) fn count_bits(value: u64) -> (count: usize)
    ensures
        count as nat == bit_length(value as nat),
        count <= 64,
{
    let mut rest: u64 = value;
    let mut count: usize = 0;
    proof {
        lemma_bit_range_values();
        lemma_bit_length_bound(value as nat, 64);
    }
    while rest > 0
        invariant
            bit_length(value as nat) == count + bit_length(rest as nat),
            bit_length(value as nat) <= 64,
        decreases rest,
    {
        rest = rest / 2;
        count = count + 1;
    }
    count
}

/// What reading `count` bits at `position` of a forward bit stream gives.
pub open spec fn forward_bits(bytes: Seq<u8>, position: int, count: nat) -> Result<
    u64,
    ErrorView,
> {
    if count > 64 {
        Err(detailed(ErrorKind::Malformed, "forward bit width is unsupported"@))
    } else if position + count > usize::MAX || 8 * bytes.len() > usize::MAX {
        Err(plain(ErrorKind::IntegerOverflow))
    } else if position + count > 8 * bytes.len() {
        Err(detailed(ErrorKind::Malformed, "forward bitstream is truncated"@))
    } else {
        Ok(bit_field(bytes, position, count) as u64)
    }
}

/// Whether a bit from `position` on is set.
pub open spec fn set_bit_from(bytes: Seq<u8>, position: int) -> bool {
    exists|i: int| position <= i < 8 * bytes.len() && #[trigger] bit_at(bytes, i)
}

/// Reads a bit stream from its first bit on.
pub struct ForwardBitReader<'a> {
    bytes: &'a [u8],
    bit_pos: usize,
}

impl<'a> ForwardBitReader<'a> {
    /// The buffer that is read.
    pub closed spec fn source(self) -> Seq<u8> {
        self.bytes@
    }

    /// How many bits were read.
    pub closed spec fn position(self) -> nat {
        self.bit_pos as nat
    }

    pub fn new(bytes: &'a [u8]) -> (reader: Self)
        ensures
            reader.source() == bytes@,
            reader.position() == 0,
    {
        ForwardBitReader { bytes, bit_pos: 0 }
    }

    /// Reads up to 31 bits.
    pub fn read(&mut self, bits: u32) -> (result: Result<u32, Error>)
        ensures
            final(self).source() == old(self).source(),
            match result {
                Ok(value) => bits <= 31 && forward_bits(
                    old(self).source(),
                    old(self).position() as int,
                    bits as nat,
                ) == Ok::<u64, ErrorView>(value as u64) && final(self).position() == old(
                    self,
                ).position() + bits,
                Err(error) => final(self).position() == old(self).position() && (if bits > 31 {
                    error@ == detailed(ErrorKind::Malformed, "forward bit width is unsupported"@)
                } else {
                    forward_bits(old(self).source(), old(self).position() as int, bits as nat)
                        == Err::<u64, ErrorView>(error@)
                }),
            },
    {
        if bits > 31 {
            return Err(fail(ErrorKind::Malformed, "forward bit width is unsupported"));
        }
        let value: u64 = self.read_u64(bits as usize)?;
        proof {
            lemma_bit_field_bound(old(self).source(), old(self).position() as int, bits as nat);
            lemma_bit_range_monotone(bits as nat, 31);
            lemma_bit_range_values();
        }
        Ok(value as u32)
    }

    /// Reads up to 64 bits.
    pub fn read_u64(&mut self, bits: usize) -> (result: Result<u64, Error>)
        ensures
            final(self).source() == old(self).source(),
            plain_outcome(result) == forward_bits(
                old(self).source(),
                old(self).position() as int,
                bits as nat,
            ),
            result is Ok ==> result->Ok_0 as nat == bit_field(
                old(self).source(),
                old(self).position() as int,
                bits as nat,
            ),
            final(self).position() == old(self).position() + (if result is Ok {
                bits as nat
            } else {
                0nat
            }),
    {
        if bits > 64 {
            return Err(fail(ErrorKind::Malformed, "forward bit width is unsupported"));
        }
        let end: usize = match self.bit_pos.checked_add(bits) {
            Some(end) => end,
            None => {
                return Err(Error::new(ErrorKind::IntegerOverflow));
            },
        };
        let total_bits: usize = match self.bytes.len().checked_mul(8) {
            Some(total_bits) => total_bits,
            None => {
                return Err(Error::new(ErrorKind::IntegerOverflow));
            },
        };
        if end > total_bits {
            return Err(fail(ErrorKind::Malformed, "forward bitstream is truncated"));
        }
        let value: u64 = read_bit_field(self.bytes, self.bit_pos, bits);
        self.bit_pos = end;
        Ok(value)
    }

    /// Checks that every bit that was not read is zero.
    pub fn finish_zero_padding(&self) -> (result: Result<(), Error>)
        ensures
            match result {
                Ok(_) => 8 * self.source().len() <= usize::MAX && !set_bit_from(
                    self.source(),
                    self.position() as int,
                ),
                Err(error) => if 8 * self.source().len() > usize::MAX {
                    error@ == plain(ErrorKind::IntegerOverflow)
                } else {
                    set_bit_from(self.source(), self.position() as int) && error@ == detailed(
                        ErrorKind::Malformed,
                        "forward bitstream has nonzero padding"@,
                    )
                },
            },
    {
        let total_bits: usize = match self.bytes.len().checked_mul(8) {
            Some(total_bits) => total_bits,
            None => {
                return Err(Error::new(ErrorKind::IntegerOverflow));
            },
        };
        let mut absolute: usize = self.bit_pos;
        while absolute < total_bits
            invariant
                self.bit_pos <= absolute,
                total_bits == 8 * self.bytes@.len(),
                forall|i: int|
                    self.bit_pos <= i < absolute && i < total_bits ==> !#[trigger] bit_at(
                        self.bytes@,
                        i,
                    ),
            decreases total_bits - absolute,
        {
            let byte: u8 = self.bytes[absolute / 8];
            if (byte >> ((absolute % 8) as u8)) & 1 == 1 {
                assert(bit_at(self.bytes@, absolute as int));
                return Err(fail(ErrorKind::Malformed, "forward bitstream has nonzero padding"));
            }
            absolute = absolute + 1;
        }
        Ok(())
    }
}

} // verus!
