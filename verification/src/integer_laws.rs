//! What the transforms on integers make of every value.

use vstd::prelude::*;

use crate::bits::{bit_range, lemma_bit_range_monotone, lemma_bit_range_values};
use crate::bitsplit::{
    bits_below, bitsplit_node, law_disjoint_parts_add, merged_parts, part_widths, stored_width_sum,
};
use crate::bytes::{byte_range, law_var_u64_round_trip, lemma_byte_range_values, var_bytes};
use crate::dispatch_order::{string_at, string_start};
use crate::error::ErrorView;
use crate::limits::Limits;
use crate::numeric::{
    constant_serial_node, law_zigzag_undoes_code, range_pack_node, zigzag_code, zigzag_node,
    zigzag_value,
};
use crate::parse_int::{
    decimal, digits, digits_value, law_digits_read_back, lemma_decimal_len, parse_int_from,
    parse_int_node, signed,
};
use crate::stream::{
    element, law_packed_element, lemma_element_bound, lemma_element_inside, lemma_packed_len,
    lemma_whole_elements, numeric_width, sum_lengths, usize_element, StreamView,
};
use crate::strings::{component_lengths_from, separate_string_components_node};

verus! {

/// A zigzag node gives the two's complement of every signed integer whose code it reads: 0,
/// -1, 1, -2, 2 and so on are the codes 0, 1, 2, 3, 4.
pub proof fn law_zigzag_decodes_every_code(
    stored: StreamView,
    header: Seq<u8>,
    limits: Limits,
    index: nat,
    value: int,
)
    requires
        zigzag_node(stored, header, limits) is Ok,
        index < stored.bytes.len() / stored.element_width,
        element(stored.bytes, stored.element_width, index as int) == (if value >= 0 {
            2 * value
        } else {
            -2 * value - 1
        }),
    ensures
        ({
            let output = zigzag_node(stored, header, limits)->Ok_0;
            let width = stored.element_width;
            &&& output.element_width == width
            &&& output.bytes.len() == stored.bytes.len()
            &&& element(output.bytes, width, index as int) as int == value % byte_range(
                width,
            ) as int
        }),
{
    let width = stored.element_width;
    let count = stored.bytes.len() / width;
    lemma_whole_elements(stored.bytes.len(), width);
    lemma_element_inside(index, count, width);
    lemma_element_bound(stored.bytes, width, index as int);
    lemma_byte_range_values();
    let values = Seq::new(
        count,
        |i: int| zigzag_value(element(stored.bytes, width, i), width),
    );
    lemma_packed_len(values, width);
    assert(zigzag_code(value) == element(stored.bytes, width, index as int));
    law_zigzag_undoes_code(value, width);
    assert(values[index as int] as int == value % byte_range(width) as int);
    law_packed_element(values, width, index as int);
}

/// A constant_serial node gives its byte as often as the header says.
pub proof fn law_constant_serial_repeats(byte: u8, count: usize, limits: Limits)
    requires
        count > 0,
        limits.admits(count as int),
    ensures
        constant_serial_node(seq![byte], var_bytes(count as nat), limits) is Ok,
        constant_serial_node(seq![byte], var_bytes(count as nat), limits)->Ok_0.len() == count,
        forall|i: int|
            0 <= i < count ==> #[trigger] constant_serial_node(
                seq![byte],
                var_bytes(count as nat),
                limits,
            )->Ok_0[i] == byte,
{
    let header = var_bytes(count as nat);
    let none = Seq::<u8>::empty();
    law_var_u64_round_trip(none, count as u64, none);
    assert(none + header + none =~= header);
    assert(none + header =~= header);
}

/// A range_pack node adds the least value to every byte, and accepts bytes for which no sum
/// leaves a byte, and no others.
pub proof fn law_range_pack_adds_the_least(stored: Seq<u8>, least: u8, limits: Limits)
    requires
        limits.admits(stored.len() as int),
    ensures
        ({
            let result = range_pack_node(stored, seq![1u8, least], limits);
            &&& result is Ok <==> forall|i: int|
                0 <= i < stored.len() ==> (#[trigger] stored[i]) + least < 256
            &&& result is Ok ==> {
                &&& result->Ok_0.len() == stored.len()
                &&& forall|i: int|
                    0 <= i < stored.len() ==> result->Ok_0[i] as int == (#[trigger] stored[i])
                        + least
            }
        }),
        range_pack_node(stored, seq![1u8], limits) == Ok::<Seq<u8>, ErrorView>(stored),
{
    let header = seq![1u8, least];
    assert(header.len() == 2 && header[0] == 1 && header[1] == least);
    if exists|i: int| 0 <= i < stored.len() && #[trigger] stored[i] + least > 255 {
        let i = choose|i: int| 0 <= i < stored.len() && #[trigger] stored[i] + least > 255;
        assert(!(stored[i] + least < 256));
    }
    assert(range_pack_node(stored, seq![1u8], limits)->Ok_0 =~= stored);
}

/// The bits of the first `count` stored parts of a bitsplit header.
pub open spec fn stored_below(header: Seq<u8>, count: nat) -> nat
    decreases count,
{
    if count == 0 {
        0
    } else {
        stored_below(header, (count - 1) as nat) + header[count as int] as nat
    }
}

/// How many bits a part has: as many as the header says, or what is left for the last.
pub open spec fn part_bits(header: Seq<u8>, index: nat) -> nat {
    if index + 1 < header.len() {
        header[index as int + 1] as nat
    } else {
        (8 * header[0] as nat - stored_below(header, (header.len() - 1) as nat)) as nat
    }
}

/// The first `index` parts at a place, each above the bits of those before it.
pub open spec fn parts_sum(
    inputs: Seq<StreamView>,
    header: Seq<u8>,
    place: int,
    index: nat,
) -> nat
    decreases index,
{
    if index == 0 {
        0
    } else {
        let part = inputs[index - 1];
        parts_sum(inputs, header, place, (index - 1) as nat) + element(
            part.bytes,
            part.element_width,
            place,
        ) * bit_range(stored_below(header, (index - 1) as nat))
    }
}

proof fn lemma_stored_sum(header: Seq<u8>, index: nat)
    requires
        header.len() > 0,
        index < header.len(),
        stored_width_sum(
            header.subrange(1, header.len() as int),
            index,
            stored_below(header, index),
        ) is Ok,
    ensures
        stored_width_sum(
            header.subrange(1, header.len() as int),
            index,
            stored_below(header, index),
        )->Ok_0 == stored_below(header, (header.len() - 1) as nat),
        forall|i: int| index < i < header.len() ==> (#[trigger] header[i]) > 0,
    decreases header.len() - index,
{
    let stored = header.subrange(1, header.len() as int);
    if index < stored.len() {
        assert(stored[index as int] == header[index as int + 1]);
        lemma_stored_sum(header, index + 1);
    }
}

proof fn lemma_below(header: Seq<u8>, widths: Seq<nat>, index: nat)
    requires
        header.len() > 0,
        index < header.len(),
        index <= widths.len(),
        forall|i: int|
            0 <= i < widths.len() && i + 1 < header.len() ==> (#[trigger] widths[i]) == header[i
                + 1],
    ensures
        bits_below(widths, index) == stored_below(header, index),
    decreases index,
{
    if index > 0 {
        lemma_below(header, widths, (index - 1) as nat);
        assert(widths[index - 1] == header[index as int]);
    }
}

proof fn lemma_below_up(header: Seq<u8>, small: nat, large: nat)
    requires
        small <= large,
    ensures
        stored_below(header, small) <= stored_below(header, large),
    decreases large,
{
    if small < large {
        lemma_below_up(header, small, (large - 1) as nat);
    }
}

proof fn lemma_range_add(left: nat, right: nat)
    ensures
        bit_range(left + right) == bit_range(left) * bit_range(right),
    decreases left,
{
    if left == 0 {
        assert(bit_range(0) == 1);
        assert(1 * bit_range(right) == bit_range(right));
    } else {
        lemma_range_add((left - 1) as nat, right);
        assert(2 * (bit_range((left - 1) as nat) * bit_range(right)) == (2 * bit_range(
            (left - 1) as nat,
        )) * bit_range(right)) by (nonlinear_arith);
    }
}

proof fn lemma_pow2(count: nat)
    ensures
        vstd::arithmetic::power2::pow2(count) == bit_range(count),
    decreases count,
{
    if count == 0 {
        vstd::arithmetic::power2::lemma2_to64();
    } else {
        lemma_pow2((count - 1) as nat);
        vstd::arithmetic::power2::lemma_pow2_unfold(count);
    }
}

proof fn lemma_part_added(low: u64, part: u64, shift: nat, bits: nat)
    requires
        shift < 64,
        shift + bits <= 64,
        low < bit_range(shift),
        part < bit_range(bits),
    ensures
        low | (part << (shift as u64)) == low + part * bit_range(shift),
        low + part * bit_range(shift) < bit_range(shift + bits),
        low + part * bit_range(shift) <= u64::MAX,
{
    let by = shift as u64;
    lemma_pow2(shift);
    lemma_bit_range_monotone(shift, 63);
    lemma_bit_range_monotone(0, shift);
    lemma_bit_range_values();
    assert(1 * bit_range(shift) == bit_range(shift));
    vstd::bits::lemma_u64_shl_is_mul(1, by);
    vstd::bits::lemma_u64_shr_is_div(u64::MAX, by);
    lemma_range_add(shift, bits);
    lemma_bit_range_monotone(shift + bits, 64);
    assert(bit_range(64) == 2 * bit_range(63));
    let unit = bit_range(shift);
    assert(part * unit + unit <= bit_range(bits) * unit) by (nonlinear_arith)
        requires
            part + 1 <= bit_range(bits),
    ;
    assert(bit_range(bits) * unit == unit * bit_range(bits)) by (nonlinear_arith);
    assert(part <= u64::MAX as nat / unit) by {
        vstd::arithmetic::div_mod::lemma_div_is_ordered(
            part * unit as int,
            u64::MAX as int,
            unit as int,
        );
        vstd::arithmetic::div_mod::lemma_div_by_multiple(part as int, unit as int);
    }
    law_disjoint_parts_add(low, part, by);
}

proof fn lemma_merged(
    inputs: Seq<StreamView>,
    header: Seq<u8>,
    widths: Seq<nat>,
    place: int,
    index: nat,
)
    requires
        header.len() > 0,
        index <= inputs.len(),
        widths.len() == inputs.len(),
        inputs.len() <= header.len(),
        stored_below(header, (header.len() - 1) as nat) <= 8 * header[0] as nat <= 64,
        forall|i: int|
            0 <= i < widths.len() ==> (#[trigger] widths[i]) == part_bits(header, i as nat)
                && widths[i] > 0,
        forall|i: int|
            0 <= i < inputs.len() ==> element(
                (#[trigger] inputs[i]).bytes,
                inputs[i].element_width,
                place,
            ) < bit_range(part_bits(header, i as nat)),
    ensures
        merged_parts(inputs, widths, place, index) as nat == parts_sum(
            inputs,
            header,
            place,
            index,
        ),
        index < header.len() ==> parts_sum(inputs, header, place, index) < bit_range(
            stored_below(header, index),
        ),
        parts_sum(inputs, header, place, index) < bit_range(8 * header[0] as nat),
    decreases index,
{
    lemma_bit_range_values();
    if index == 0 {
        lemma_bit_range_monotone(0, 8 * header[0] as nat);
    } else {
        let last = (index - 1) as nat;
        lemma_merged(inputs, header, widths, place, last);
        assert forall|i: int|
            0 <= i < widths.len() && i + 1 < header.len() implies (#[trigger] widths[i])
            == header[i + 1] by {
            assert(widths[i] == part_bits(header, i as nat));
        }
        lemma_below(header, widths, last);
        let shift = stored_below(header, last);
        let bits = part_bits(header, last);
        lemma_below_up(header, last, (header.len() - 1) as nat);
        assert(widths[last as int] == bits && bits > 0);
        if index < header.len() {
            lemma_below_up(header, index, (header.len() - 1) as nat);
            assert(stored_below(header, index) == shift + bits);
        }
        assert(shift + bits <= 8 * header[0]);
        assert(shift < 64);
        let input = inputs[last as int];
        let part = element(input.bytes, input.element_width, place);
        lemma_bit_range_monotone(bits, 64);
        assert(bit_range(64) == 2 * bit_range(63));
        let low = merged_parts(inputs, widths, place, last);
        lemma_part_added(low, part as u64, shift, bits);
        lemma_bit_range_monotone(shift + bits, 8 * header[0] as nat);
    }
}

/// A bitsplit node puts the parts of every integer together: each part that fits the bits it
/// has stands above the bits of the parts before it.
pub proof fn law_bitsplit_adds_parts(
    inputs: Seq<StreamView>,
    variable_inputs: u32,
    header: Seq<u8>,
    limits: Limits,
    place: int,
)
    requires
        bitsplit_node(inputs, variable_inputs, header, limits) is Ok,
        inputs[0].bytes.len() <= usize::MAX,
        0 <= place < inputs[0].bytes.len() / inputs[0].element_width,
        forall|i: int|
            0 <= i < inputs.len() ==> element(
                (#[trigger] inputs[i]).bytes,
                inputs[i].element_width,
                place,
            ) < bit_range(part_bits(header, i as nat)),
    ensures
        ({
            let output = bitsplit_node(inputs, variable_inputs, header, limits)->Ok_0;
            let width = header[0] as nat;
            &&& output.element_width == width
            &&& output.bytes.len() == (inputs[0].bytes.len() / inputs[0].element_width) * width
            &&& inputs.len() == header.len() || inputs.len() + 1 == header.len()
            &&& element(output.bytes, width, place) == parts_sum(
                inputs,
                header,
                place,
                inputs.len(),
            )
        }),
{
    let width = header[0] as nat;
    let stored = header.subrange(1, header.len() as int);
    let widths = part_widths(width * 8, stored, inputs.len(), variable_inputs)->Ok_0;
    assert(part_widths(width * 8, stored, inputs.len(), variable_inputs) is Ok);
    assert(stored_below(header, 0) == 0);
    lemma_stored_sum(header, 0);
    lemma_whole_elements(inputs[0].bytes.len(), inputs[0].element_width);
    let count = inputs[0].bytes.len() / inputs[0].element_width;
    assert forall|i: int| 0 <= i < widths.len() implies (#[trigger] widths[i]) == part_bits(
        header,
        i as nat,
    ) && widths[i] > 0 by {
        if i < stored.len() {
            assert(widths[i] == stored[i] as nat);
            assert(stored[i] == header[i + 1]);
        }
    }
    lemma_merged(inputs, header, widths, place, inputs.len());
    let values = Seq::new(count, |i: int| merged_parts(inputs, widths, i, inputs.len()));
    lemma_packed_len(values, width);
    lemma_byte_range_values();
    lemma_bit_range_values();
    assert(bit_range(8 * width) == byte_range(width)) by {
        if width == 8 {
            assert(bit_range(64) == 2 * bit_range(63));
        }
    }
    law_packed_element(values, width, place);
}

/// Whether a text is the decimal writing of an integer: a minus sign in front of negative
/// ones, then digits that read as the integer, the first of which is zero only for zero.
pub open spec fn writes(text: Seq<u8>, value: int) -> bool {
    let plain = if value < 0 {
        text.skip(1)
    } else {
        text
    };
    &&& value < 0 ==> text.len() > 0 && text[0] == 45
    &&& plain.len() > 0
    &&& forall|i: int| 0 <= i < plain.len() ==> 48 <= #[trigger] plain[i] <= 57
    &&& plain[0] == 48 ==> value == 0 && plain.len() == 1
    &&& digits_value(plain) == (if value < 0 {
        -value
    } else {
        value
    })
}

proof fn lemma_first_digit(value: nat)
    ensures
        digits(value).len() > 0,
        digits(value)[0] == 48 ==> value == 0 && digits(value).len() == 1,
    decreases value,
{
    if value >= 10 {
        lemma_first_digit(value / 10);
    }
}

proof fn lemma_decimal_writes(value: int)
    ensures
        writes(decimal(value), value),
{
    let size = if value < 0 {
        (-value) as nat
    } else {
        value as nat
    };
    law_digits_read_back(size);
    lemma_first_digit(size);
    if value < 0 {
        assert(decimal(value).skip(1) =~= digits(size));
    }
}

/// Whether the string at `index` is the decimal text of its integer.
spec fn written_at(bytes: Seq<u8>, text: Seq<u8>, lengths: Seq<u32>, index: int) -> bool {
    &&& string_start(lengths, index) + lengths[index] <= text.len()
    &&& string_at(text, lengths, index) == decimal(signed(element(bytes, 8, index)))
}

proof fn lemma_parse_int(
    bytes: Seq<u8>,
    limits: Limits,
    index: nat,
    text: Seq<u8>,
    lengths: Seq<u32>,
)
    requires
        bytes.len() % 8 == 0,
        index <= bytes.len() / 8,
        lengths.len() == index,
        sum_lengths(lengths) == text.len(),
        parse_int_from(bytes, limits, index, text, lengths) is Ok,
        forall|i: int| 0 <= i < index ==> #[trigger] written_at(bytes, text, lengths, i),
    ensures
        ({
            let (all, sizes) = parse_int_from(bytes, limits, index, text, lengths)->Ok_0;
            &&& sizes.len() == bytes.len() / 8
            &&& sum_lengths(sizes) == all.len()
            &&& forall|i: int|
                0 <= i < sizes.len() ==> #[trigger] written_at(bytes, all, sizes, i)
        }),
    decreases bytes.len() / 8 - index,
{
    if index < bytes.len() / 8 {
        let value = signed(element(bytes, 8, index as int));
        let number = decimal(value);
        lemma_whole_elements(bytes.len(), 8);
        lemma_element_inside(index, bytes.len() / 8, 8);
        lemma_element_bound(bytes, 8, index as int);
        lemma_decimal_len(value);
        let more = text + number;
        let sizes = lengths.push(number.len() as u32);
        assert(sizes.drop_last() =~= lengths);
        assert forall|i: int| 0 <= i < index + 1 implies #[trigger] written_at(
            bytes,
            more,
            sizes,
            i,
        ) by {
            assert(sizes.take(i) =~= lengths.take(i));
            if i < index {
                assert(written_at(bytes, text, lengths, i));
                assert(string_at(more, sizes, i) =~= string_at(text, lengths, i));
            } else {
                assert(lengths.take(i) =~= lengths);
                assert(string_at(more, sizes, i) =~= number);
            }
        }
        lemma_parse_int(bytes, limits, index + 1, more, sizes);
    }
}

/// A parse_int node writes every integer of 64 bits, as two's complement, in decimal, one
/// string to each.
pub proof fn law_parse_int_writes_every_integer(
    input: StreamView,
    header: Seq<u8>,
    limits: Limits,
    index: int,
    value: int,
)
    requires
        parse_int_node(input, header, limits) is Ok,
        0 <= index < input.bytes.len() / 8,
        -0x8000_0000_0000_0000 <= value < 0x8000_0000_0000_0000,
        element(input.bytes, 8, index) as int == value % 0x1_0000_0000_0000_0000,
    ensures
        ({
            let output = parse_int_node(input, header, limits)->Ok_0;
            let lengths = output.string_lengths->Some_0;
            &&& output.string_lengths is Some
            &&& output.element_width == 1
            &&& lengths.len() == input.bytes.len() / 8
            &&& sum_lengths(lengths) == output.bytes.len()
            &&& writes(string_at(output.bytes, lengths, index), value)
        }),
{
    lemma_parse_int(input.bytes, limits, 0, Seq::empty(), Seq::empty());
    let (text, lengths) =
        parse_int_from(input.bytes, limits, 0, Seq::empty(), Seq::empty())->Ok_0;
    assert(written_at(input.bytes, text, lengths, index));
    assert(signed(element(input.bytes, 8, index)) == value);
    lemma_decimal_writes(value);
}

proof fn lemma_component_lengths(
    sizes: StreamView,
    index: nat,
    total: nat,
    lengths: Seq<u32>,
)
    requires
        numeric_width(sizes.element_width as int),
        sizes.bytes.len() % sizes.element_width == 0,
        index <= sizes.bytes.len() / sizes.element_width,
        lengths.len() == index,
        sum_lengths(lengths) == total,
        component_lengths_from(sizes, index, total, lengths) is Ok,
        forall|i: int|
            0 <= i < index ==> #[trigger] lengths[i] == element(
                sizes.bytes,
                sizes.element_width,
                i,
            ),
    ensures
        ({
            let (all, sum) = component_lengths_from(sizes, index, total, lengths)->Ok_0;
            &&& all.len() == sizes.bytes.len() / sizes.element_width
            &&& sum == sum_lengths(all)
            &&& forall|i: int|
                0 <= i < all.len() ==> #[trigger] all[i] == element(
                    sizes.bytes,
                    sizes.element_width,
                    i,
                )
        }),
    decreases sizes.bytes.len() / sizes.element_width - index,
{
    if index < sizes.bytes.len() / sizes.element_width {
        let size = usize_element(sizes.bytes, sizes.element_width, index as int)->Ok_0;
        let more = lengths.push(size as u32);
        assert(more.drop_last() =~= lengths);
        lemma_component_lengths(sizes, index + 1, total + size as nat, more);
    }
}

/// A separate_string_components node cuts its first input into strings of the lengths that
/// its second holds, which add up to all of it.
pub proof fn law_string_components_have_their_lengths(
    inputs: Seq<StreamView>,
    header: Seq<u8>,
    limits: Limits,
)
    requires
        separate_string_components_node(inputs, header, limits) is Ok,
    ensures
        ({
            let output = separate_string_components_node(inputs, header, limits)->Ok_0;
            let lengths = output.string_lengths->Some_0;
            let sizes = inputs[1];
            &&& output.string_lengths is Some
            &&& output.bytes == inputs[0].bytes
            &&& output.element_width == 1
            &&& lengths.len() == sizes.bytes.len() / sizes.element_width
            &&& sum_lengths(lengths) == inputs[0].bytes.len()
            &&& forall|i: int|
                0 <= i < lengths.len() ==> #[trigger] lengths[i] == element(
                    sizes.bytes,
                    sizes.element_width,
                    i,
                )
        }),
{
    lemma_component_lengths(inputs[1], 0, 0, Seq::empty());
}

} // verus!
