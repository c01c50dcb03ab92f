//! What bits stand for, and where the transforms on bits put them.

use vstd::prelude::*;

use crate::bits::{
    bit_at, bit_field, bit_length, bit_range, byte_bit, lemma_bit_field_bound,
    lemma_bit_range_monotone, lemma_bit_range_values,
};
use crate::error::ErrorView;
use crate::flatpack::{flatpack_serial, letter_bits, marker_position, unpack_letters};
use crate::limits::Limits;
use crate::numeric::{
    bitpack_int_node, bitpack_serial_node, bitunpack_bytes, bitunpack_node,
    law_bitpack_reads_every_field, unpacked_bit, unpacked_field, unpacked_integers,
};
use crate::pivco_order::lemma_top_bit;
use crate::reverse_bits::marked_bits;
use crate::stream::{element, law_packed_element, lemma_packed_len, packed};

verus! {

/// Binary digit `index` of a number.
pub open spec fn digit(value: nat, index: nat) -> bool {
    value / bit_range(index) % 2 == 1
}

proof fn lemma_digit_zero(value: nat)
    ensures
        digit(value, 0) == (value % 2 == 1),
{
    lemma_bit_range_values();
    assert(value / 1 == value);
}

proof fn lemma_digit_up(value: nat, index: nat)
    ensures
        digit(value, index + 1) == digit(value / 2, index),
{
    lemma_bit_range_monotone(0, index);
    lemma_bit_range_values();
    let unit = bit_range(index) as int;
    vstd::arithmetic::div_mod::lemma_div_denominator(value as int, 2, unit);
    assert(bit_range(index + 1) == 2 * unit);
    assert(value as int / (2 * unit) == (value as int / 2) / unit);
}

/// Numbers of `count` bits with the same digits are the same.
proof fn lemma_same_digits(one: nat, other: nat, count: nat)
    requires
        one < bit_range(count),
        other < bit_range(count),
        forall|k: nat| k < count ==> #[trigger] digit(one, k) == digit(other, k),
    ensures
        one == other,
    decreases count,
{
    if count > 0 {
        lemma_digit_zero(one);
        lemma_digit_zero(other);
        assert(digit(one, 0) == digit(other, 0));
        assert forall|k: nat| k < count - 1 implies #[trigger] digit(one / 2, k) == digit(
            other / 2,
            k,
        ) by {
            lemma_digit_up(one, k);
            lemma_digit_up(other, k);
            assert(digit(one, k + 1) == digit(other, k + 1));
        }
        lemma_same_digits(one / 2, other / 2, (count - 1) as nat);
    } else {
        lemma_bit_range_values();
    }
}

/// A bit of a byte is the byte's binary digit.
pub proof fn law_byte_bit_is_binary_digit(byte: u8, index: int)
    requires
        0 <= index < 8,
    ensures
        byte_bit(byte, index) == digit(byte as nat, index as nat),
{
    lemma_bit_range_values();
    assert((byte >> 0u8) & 1 == byte % 2 && (byte >> 1u8) & 1 == (byte / 2) % 2 && (byte >> 2u8) & 1
        == (byte / 4) % 2 && (byte >> 3u8) & 1 == (byte / 8) % 2 && (byte >> 4u8) & 1 == (byte / 16)
        % 2 && (byte >> 5u8) & 1 == (byte / 32) % 2 && (byte >> 6u8) & 1 == (byte / 64) % 2 && (byte
        >> 7u8) & 1 == (byte / 128) % 2) by (bit_vector);
    lemma_digit_zero(byte as nat);
    if index == 0 {
    } else if index == 1 {
    } else if index == 2 {
    } else if index == 3 {
    } else if index == 4 {
    } else if index == 5 {
    } else if index == 6 {
    } else {
        assert(index == 7);
    }
}

/// The digits of a field are its bits, the first the least significant.
pub proof fn law_field_digits_are_its_bits(bytes: Seq<u8>, start: int, count: nat, index: nat)
    requires
        index < count,
    ensures
        digit(bit_field(bytes, start, count), index) == bit_at(bytes, start + index),
        bit_field(bytes, start, count) < bit_range(count),
    decreases count,
{
    let value = bit_field(bytes, start, count);
    let rest = bit_field(bytes, start + 1, (count - 1) as nat);
    lemma_bit_field_bound(bytes, start, count);
    if index == 0 {
        lemma_digit_zero(value);
    } else {
        assert(value / 2 == rest);
        lemma_digit_up(value, (index - 1) as nat);
        law_field_digits_are_its_bits(bytes, start + 1, (count - 1) as nat, (index - 1) as nat);
    }
}

/// The eight bits of a byte are the byte.
pub proof fn law_byte_is_its_field(bytes: Seq<u8>, index: int)
    requires
        0 <= index < bytes.len(),
    ensures
        bit_field(bytes, 8 * index, 8) == bytes[index],
{
    let byte = bytes[index] as nat;
    let field = bit_field(bytes, 8 * index, 8);
    lemma_bit_range_values();
    lemma_bit_field_bound(bytes, 8 * index, 8);
    assert forall|k: nat| k < 8 implies #[trigger] digit(field, k) == digit(byte, k) by {
        law_field_digits_are_its_bits(bytes, 8 * index, 8, k);
        law_byte_bit_is_binary_digit(bytes[index], k as int);
        assert((8 * index + k) / 8 == index);
        assert((8 * index + k) % 8 == k);
    }
    lemma_same_digits(field, byte, 8);
}

proof fn lemma_top_digit(byte: u8)
    requires
        byte > 0,
    ensures
        1 <= bit_length(byte as nat) <= 8,
        byte_bit(byte, bit_length(byte as nat) - 1),
        forall|k: int| bit_length(byte as nat) <= k < 8 ==> !#[trigger] byte_bit(byte, k),
{
    let value = byte as nat;
    let top = (bit_length(value) - 1) as nat;
    lemma_top_bit(value);
    lemma_bit_range_values();
    if top >= 8 {
        lemma_bit_range_monotone(8, top);
    }
    law_byte_bit_is_binary_digit(byte, top as int);
    assert(value / bit_range(top) == 1) by {
        vstd::arithmetic::div_mod::lemma_fundamental_div_mod_converse(
            value as int,
            bit_range(top) as int,
            1,
            value - bit_range(top),
        );
    }
    assert forall|k: int| bit_length(value) <= k < 8 implies !#[trigger] byte_bit(byte, k) by {
        law_byte_bit_is_binary_digit(byte, k);
        lemma_bit_range_monotone(top + 1, k as nat);
        vstd::arithmetic::div_mod::lemma_basic_div(value as int, bit_range(k as nat) as int);
    }
}

/// Whether the highest set bit of a buffer is at a place.
pub open spec fn highest_bit(bytes: Seq<u8>, place: int) -> bool {
    &&& 0 <= place < 8 * bytes.len()
    &&& bit_at(bytes, place)
    &&& forall|i: int| place < i < 8 * bytes.len() ==> !#[trigger] bit_at(bytes, i)
}

pub proof fn lemma_highest_bit(bytes: Seq<u8>)
    requires
        bytes.len() > 0,
        bytes.last() != 0,
    ensures
        highest_bit(bytes, 8 * (bytes.len() - 1) + bit_length(bytes.last() as nat) - 1),
{
    let last = bytes.len() - 1;
    let place = 8 * last + bit_length(bytes.last() as nat) - 1;
    lemma_top_digit(bytes.last());
    assert(place / 8 == last && place % 8 == bit_length(bytes.last() as nat) - 1);
    assert forall|i: int| place < i < 8 * bytes.len() implies !#[trigger] bit_at(bytes, i) by {
        assert(i / 8 == last);
        assert(i % 8 == i - 8 * last);
        assert(!byte_bit(bytes.last(), i % 8));
    }
}

/// The bits that a reverse bit stream hands out are those below its highest set one, from
/// the top down.
pub proof fn law_marked_bits_stand_below_the_mark(data: Seq<u8>)
    requires
        data.len() > 0,
        data.last() != 0,
    ensures
        highest_bit(data, marked_bits(data).len() as int),
        forall|i: int|
            0 <= i < marked_bits(data).len() ==> #[trigger] marked_bits(data)[i] == bit_at(
                data,
                marked_bits(data).len() - 1 - i,
            ),
{
    lemma_highest_bit(data);
}

/// Whether `bits` bits are just enough to tell `len` letters apart.
pub open spec fn letters_need(len: nat, bits: nat) -> bool {
    &&& bits >= 1
    &&& len <= bit_range(bits)
    &&& bits == 1 || bit_range((bits - 1) as nat) < len
}

proof fn lemma_letters_need(len: nat)
    requires
        0 < len <= 256,
    ensures
        letters_need(len, letter_bits(len)),
        letter_bits(len) <= 8,
{
    lemma_bit_range_values();
    if len > 1 {
        lemma_top_bit((len - 1) as nat);
        let bits = letter_bits(len);
        if bits > 8 {
            lemma_bit_range_monotone(8, (bits - 1) as nat);
        }
    }
}

proof fn lemma_letters_unique(len: nat, one: nat, other: nat)
    requires
        len > 0,
        letters_need(len, one),
        letters_need(len, other),
    ensures
        one == other,
{
    lemma_bit_range_values();
    if one < other {
        lemma_bit_range_monotone(one, (other - 1) as nat);
    } else if other < one {
        lemma_bit_range_monotone(other, (one - 1) as nat);
    }
}

proof fn lemma_letters(alphabet: Seq<u8>, stored: Seq<u8>, count: nat)
    ensures
        ({
            let bits = letter_bits(alphabet.len());
            let letters = unpack_letters(alphabet, stored, count);
            &&& letters is Some <==> forall|i: int|
                0 <= i < count ==> #[trigger] bit_field(stored, i * bits, bits) < alphabet.len()
            &&& letters is Some ==> {
                &&& letters->Some_0.len() == count
                &&& forall|i: int|
                    0 <= i < count ==> #[trigger] letters->Some_0[i] == alphabet[bit_field(
                        stored,
                        i * bits,
                        bits,
                    ) as int]
            }
        }),
    decreases count,
{
    if count > 0 {
        let bits = letter_bits(alphabet.len());
        let last = count - 1;
        lemma_letters(alphabet, stored, last as nat);
        let front = unpack_letters(alphabet, stored, last as nat);
        let letters = unpack_letters(alphabet, stored, count);
        let letter = bit_field(stored, last * bits, bits);
        if letters is Some {
            assert forall|i: int| 0 <= i < count implies #[trigger] bit_field(
                stored,
                i * bits,
                bits,
            ) < alphabet.len() by {}
            assert forall|i: int| 0 <= i < count implies #[trigger] letters->Some_0[i]
                == alphabet[bit_field(stored, i * bits, bits) as int] by {
                if i < last {
                    assert(letters->Some_0[i] == front->Some_0[i]);
                }
            }
        } else {
            if front is Some {
                assert(!(bit_field(stored, last * bits, bits) < alphabet.len()));
            }
        }
    }
}

/// A flatpack node gives one letter of its alphabet for each field of bits below the highest
/// set one: the letter at the number that the field holds, with just as many bits to a field
/// as the alphabet needs.
pub proof fn law_flatpack_looks_letters_up(
    alphabet: Seq<u8>,
    stored: Seq<u8>,
    limits: Limits,
    bits: nat,
)
    requires
        alphabet.len() > 0,
        stored.len() > 0,
        letters_need(alphabet.len(), bits),
        flatpack_serial(alphabet, stored, limits) is Ok,
    ensures
        ({
            let output = flatpack_serial(alphabet, stored, limits)->Ok_0;
            &&& highest_bit(stored, output.len() * bits as int)
            &&& forall|i: int|
                0 <= i < output.len() ==> bit_field(stored, i * bits, bits) < alphabet.len()
                    && #[trigger] output[i] == alphabet[bit_field(stored, i * bits, bits) as int]
        }),
{
    let output = flatpack_serial(alphabet, stored, limits)->Ok_0;
    lemma_letters_need(alphabet.len());
    lemma_letters_unique(alphabet.len(), bits, letter_bits(alphabet.len()));
    let place = marker_position(stored);
    lemma_highest_bit(stored);
    let count = place / bits as int;
    vstd::arithmetic::div_mod::lemma_fundamental_div_mod(place, bits as int);
    lemma_top_digit(stored.last());
    assert(place >= 0);
    vstd::arithmetic::div_mod::lemma_div_pos_is_pos(place, bits as int);
    lemma_letters(alphabet, stored, count as nat);
    assert(bits * count == count * bits) by (nonlinear_arith);
    assert forall|i: int| 0 <= i < output.len() implies bit_field(stored, i * bits, bits)
        < alphabet.len() && #[trigger] output[i] == alphabet[bit_field(
        stored,
        i * bits,
        bits,
    ) as int] by {
        assert(bit_field(stored, i * bits, bits) < alphabet.len());
    }
}

/// Letters that were packed into fields of bits, with a set bit behind the last, come back.
pub proof fn law_flatpack_gives_letters_back(
    alphabet: Seq<u8>,
    stored: Seq<u8>,
    limits: Limits,
    bits: nat,
    letters: Seq<u8>,
)
    requires
        0 < alphabet.len() <= 256,
        letters_need(alphabet.len(), bits),
        8 * stored.len() <= usize::MAX,
        limits.admits(letters.len() as int),
        highest_bit(stored, letters.len() * bits as int),
        stored.last() != 0,
        forall|i: int|
            0 <= i < letters.len() ==> bit_field(stored, i * bits, bits) < alphabet.len()
                && #[trigger] letters[i] == alphabet[bit_field(stored, i * bits, bits) as int],
    ensures
        flatpack_serial(alphabet, stored, limits) == Ok::<Seq<u8>, ErrorView>(letters),
{
    lemma_letters_need(alphabet.len());
    lemma_letters_unique(alphabet.len(), bits, letter_bits(alphabet.len()));
    let place = marker_position(stored);
    let count = letters.len();
    lemma_highest_bit(stored);
    if place < count * bits {
        assert(!bit_at(stored, count * bits as int));
    } else if place > count * bits {
        assert(!bit_at(stored, place));
    }
    assert(place == count * bits);
    vstd::arithmetic::div_mod::lemma_div_by_multiple(count as int, bits as int);
    vstd::arithmetic::div_mod::lemma_mod_multiples_basic(count as int, bits as int);
    lemma_letters(alphabet, stored, count);
    assert forall|i: int| 0 <= i < count implies #[trigger] bit_field(stored, i * bits, bits)
        < alphabet.len() by {
        assert(letters[i] == alphabet[bit_field(stored, i * bits, bits) as int]);
    }
    let result = unpack_letters(alphabet, stored, count);
    assert forall|i: int| 0 <= i < count implies result->Some_0[i] == #[trigger] letters[i] by {
        assert(result->Some_0[i] == alphabet[bit_field(stored, i * bits, bits) as int]);
    }
    assert(result->Some_0 =~= letters);
}

/// A bitpack_int node gives the fields of its bits one after the other: the first byte of the
/// header holds one less than the bits of a field, and above them the power of two of the
/// bytes of an integer; a second byte says how many whole fields at the end are left out.
pub proof fn law_bitpack_header_shapes_the_fields(
    stored: Seq<u8>,
    header: Seq<u8>,
    limits: Limits,
)
    requires
        bitpack_int_node(stored, header, limits) is Ok,
    ensures
        ({
            let output = bitpack_int_node(stored, header, limits)->Ok_0;
            let bits = header[0] as nat % 64 + 1;
            let width = bit_range(header[0] as nat / 64);
            let dropped = if header.len() == 2 {
                header[1] as nat
            } else {
                0
            };
            let count = output.bytes.len() / width;
            &&& 1 <= header.len() <= 2
            &&& output.element_width == width
            &&& output.bytes.len() == count * width
            &&& (count + dropped) * bits <= 8 * stored.len() < (count + dropped + 1) * bits
            &&& forall|i: int|
                0 <= i < count ==> #[trigger] element(output.bytes, width, i) == bit_field(
                    stored,
                    i * bits,
                    bits,
                )
        }),
{
    let output = bitpack_int_node(stored, header, limits)->Ok_0;
    let parsed = crate::numeric::bitpack_header(header, stored.len())->Ok_0;
    let bits = parsed.bits as nat;
    let width = parsed.element_width as nat;
    lemma_bit_range_values();
    let log = header[0] as nat / 64;
    assert(log == 0 || log == 1 || log == 2 || log == 3);
    assert(width == bit_range(log));
    let values = unpacked_integers(stored, parsed);
    lemma_packed_len(values, width);
    let count = parsed.elements as nat;
    vstd::arithmetic::div_mod::lemma_div_by_multiple(count as int, width as int);
    let whole = 8 * stored.len() / bits;
    vstd::arithmetic::div_mod::lemma_fundamental_div_mod(8 * stored.len() as int, bits as int);
    vstd::arithmetic::div_mod::lemma_mod_bound(8 * stored.len() as int, bits as int);
    assert(whole * bits == bits * whole) by (nonlinear_arith);
    assert((whole + 1) * bits == bits * whole + bits) by (nonlinear_arith);
    assert forall|i: int| 0 <= i < count implies #[trigger] element(output.bytes, width, i)
        == bit_field(stored, i * bits, bits) by {
        law_bitpack_reads_every_field(stored, header, limits, i as nat);
    }
}

proof fn lemma_unpacked_digit(
    stored: Seq<u8>,
    bits: int,
    trailing: u8,
    start: int,
    count: nat,
    index: nat,
)
    requires
        index < count,
    ensures
        digit(unpacked_field(stored, bits, trailing, start, count), index) == unpacked_bit(
            stored,
            bits,
            trailing,
            start + index,
        ),
    decreases count,
{
    let value = unpacked_field(stored, bits, trailing, start, count);
    let rest = unpacked_field(stored, bits, trailing, start + 1, (count - 1) as nat);
    if index == 0 {
        lemma_digit_zero(value);
    } else {
        assert(value / 2 == rest);
        lemma_digit_up(value, (index - 1) as nat);
        lemma_unpacked_digit(
            stored,
            bits,
            trailing,
            start + 1,
            (count - 1) as nat,
            (index - 1) as nat,
        );
    }
}

proof fn lemma_unpacked_bound(
    stored: Seq<u8>,
    bits: int,
    trailing: u8,
    start: int,
    count: nat,
)
    ensures
        unpacked_field(stored, bits, trailing, start, count) < bit_range(count),
    decreases count,
{
    if count > 0 {
        lemma_unpacked_bound(stored, bits, trailing, start + 1, (count - 1) as nat);
    }
}

proof fn lemma_unpacked_output(stored: Seq<u8>, bits: int, trailing: u8, place: int)
    requires
        0 <= place < 8 * bitunpack_bytes(stored, bits, trailing).len(),
    ensures
        bit_at(bitunpack_bytes(stored, bits, trailing), place) == unpacked_bit(
            stored,
            bits,
            trailing,
            place,
        ),
{
    let output = bitunpack_bytes(stored, bits, trailing);
    let index = place / 8;
    let offset = (place % 8) as nat;
    let value = unpacked_field(stored, bits, trailing, 8 * index, 8);
    lemma_unpacked_bound(stored, bits, trailing, 8 * index, 8);
    lemma_bit_range_values();
    assert(output[index] == value);
    law_byte_bit_is_binary_digit(output[index], offset as int);
    lemma_unpacked_digit(stored, bits, trailing, 8 * index, 8, offset);
}

/// A bitunpack node lays its values end to end, each in the bits that the header's first byte
/// names; its second byte fills the bits that are left in the last byte.
pub proof fn law_bitunpack_lays_values_end_to_end(
    stored: Seq<u8>,
    header: Seq<u8>,
    limits: Limits,
)
    requires
        bitunpack_node(stored, header, limits) is Ok,
    ensures
        ({
            let output = bitunpack_node(stored, header, limits)->Ok_0;
            let bits = header[0] as nat;
            let spare = 8 * output.len() - stored.len() * bits;
            &&& 0 <= spare < 8
            &&& forall|i: int|
                0 <= i < stored.len() ==> bit_field(output, i * bits, bits) == #[trigger] stored[i]
            &&& bit_field(output, stored.len() * bits as int, spare as nat) == (if header.len()
                == 2 {
                header[1] as nat
            } else {
                0
            })
        }),
{
    let output = bitunpack_node(stored, header, limits)->Ok_0;
    let bits = header[0] as nat;
    let trailing = if header.len() == 2 {
        header[1]
    } else {
        0
    };
    let used = stored.len() * bits;
    assert(stored.len() * header[0] as int == used);
    let spare = 8 * output.len() - used;
    assert forall|i: int| 0 <= i < stored.len() implies bit_field(output, i * bits, bits)
        == #[trigger] stored[i] by {
        let field = bit_field(output, i * bits, bits);
        lemma_bit_field_bound(output, i * bits, bits);
        assert(0 <= i * bits && i * bits + bits <= used) by (nonlinear_arith)
            requires
                0 <= i < stored.len(),
                used == stored.len() * bits,
        ;
        assert forall|k: nat| k < bits implies #[trigger] digit(field, k) == digit(
            stored[i] as nat,
            k,
        ) by {
            law_field_digits_are_its_bits(output, i * bits, bits, k);
            lemma_unpacked_output(stored, bits as int, trailing, i * bits + k);
            vstd::arithmetic::div_mod::lemma_fundamental_div_mod_converse(
                i * bits + k,
                bits as int,
                i,
                k as int,
            );
            law_byte_bit_is_binary_digit(stored[i], k as int);
        }
        lemma_same_digits(field, stored[i] as nat, bits);
    }
    let field = bit_field(output, used as int, spare as nat);
    lemma_bit_field_bound(output, used as int, spare as nat);
    lemma_bit_range_monotone(0, spare as nat);
    assert forall|k: nat| k < spare implies #[trigger] digit(field, k) == digit(
        trailing as nat,
        k,
    ) by {
        law_field_digits_are_its_bits(output, used as int, spare as nat, k);
        lemma_unpacked_output(stored, bits as int, trailing, used + k as int);
        law_byte_bit_is_binary_digit(trailing, k as int);
    }
    lemma_same_digits(field, trailing as nat, spare as nat);
}

/// Values that a bitunpack node laid end to end come back from a bitpack_serial node.
pub proof fn law_bitpack_undoes_bitunpack(
    stored: Seq<u8>,
    bits: u8,
    dropped: u8,
    limits: Limits,
)
    requires
        1 <= bits <= 8,
        bitunpack_node(stored, seq![bits], limits) is Ok,
        limits.admits(stored.len() as int),
        ({
            let laid = bitunpack_node(stored, seq![bits], limits)->Ok_0;
            &&& 8 * laid.len() <= usize::MAX
            &&& stored.len() + dropped == 8 * laid.len() / (bits as nat)
        }),
    ensures
        bitpack_serial_node(
            bitunpack_node(stored, seq![bits], limits)->Ok_0,
            seq![(bits - 1) as u8, dropped],
            limits,
        ) == Ok::<Seq<u8>, ErrorView>(stored),
{
    let laid = bitunpack_node(stored, seq![bits], limits)->Ok_0;
    let header = seq![(bits - 1) as u8, dropped];
    law_bitunpack_lays_values_end_to_end(stored, seq![bits], limits);
    assert(laid.len() * 8 == 8 * laid.len());
    let parsed = crate::numeric::bitpack_header(header, laid.len())->Ok_0;
    assert(parsed.bits == bits && parsed.element_width == 1 && parsed.elements == stored.len());
    let values = unpacked_integers(laid, parsed);
    lemma_packed_len(values, 1);
    let output = packed(values, 1);
    crate::bytes::lemma_byte_range_values();
    assert forall|i: int| 0 <= i < stored.len() implies output[i] == #[trigger] stored[i] by {
        assert(bit_field(laid, i * (bits as nat), bits as nat) == stored[i]);
        assert(values[i] == stored[i]);
        law_packed_element(values, 1, i);
        let part = output.subrange(i, i + 1);
        assert(part[0] == output[i]);
        assert(output.subrange(i * 1, i * 1 + 1) =~= part);
        assert(element(output, 1, i) == crate::bytes::le_value(part));
        assert(part.subrange(1, 1).len() == 0);
        assert(crate::bytes::le_value(part.subrange(1, 1)) == 0);
        assert(crate::bytes::le_value(part) == part[0]);
    }
    assert(output =~= stored);
}

} // verus!
