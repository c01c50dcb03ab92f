//! What the codes of quantize and partition nodes stand for.

use vstd::prelude::*;

use crate::bit_laws::{highest_bit, lemma_highest_bit};
use crate::bits::{
    bit_field, bit_length, bit_range, forward_bits, lemma_bit_field_bound, lemma_bit_range_monotone,
    lemma_bit_range_values, set_bit_from,
};
use crate::bytes::{law_var_u64_round_trip, lemma_byte_range_values, var_bytes, var_u64};
use crate::error::ErrorView;
use crate::limits::Limits;
use crate::numeric::chosen_width;
use crate::partition::{
    bucket_base, offset_bits, partition_from, partition_header, partition_node, pow2_sizes,
    preset_sizes, quantize_base, quantize_bits, quantize_codes, quantize_from, quantize_node,
    sizes_error, varint_sizes_from, QuantizeTable,
};
use crate::pivco_order::lemma_top_bit;
use crate::stream::{
    element, law_packed_element, lemma_packed_len, max_numeric, packed, required_width_error,
    typed_stream, StreamView,
};

verus! {

/// The place of the highest set bit of a number.
pub open spec fn floor_log(value: nat) -> nat {
    (bit_length(value) - 1) as nat
}

/// The code of a value: the place of its highest set bit; lengths below 16 are their own
/// codes, and those of longer ones follow.
pub open spec fn value_code(table: QuantizeTable, value: nat) -> nat {
    match table {
        QuantizeTable::Offsets => floor_log(value),
        QuantizeTable::Lengths => if value < 16 {
            value
        } else {
            floor_log(value) + 12
        },
    }
}

/// How many bits of a value stand beside its code: those below the highest set one.
pub open spec fn value_bits(table: QuantizeTable, value: nat) -> nat {
    match table {
        QuantizeTable::Offsets => floor_log(value),
        QuantizeTable::Lengths => if value < 16 {
            0
        } else {
            floor_log(value)
        },
    }
}

/// What these bits hold.
pub open spec fn value_rest(table: QuantizeTable, value: nat) -> nat {
    if value_bits(table, value) == 0 {
        0
    } else {
        (value - bit_range(floor_log(value))) as nat
    }
}

/// Where the bits of the value at `index` start.
pub open spec fn value_bits_at(table: QuantizeTable, values: Seq<u64>, index: nat) -> nat
    decreases index,
{
    if index == 0 {
        0
    } else {
        value_bits_at(table, values, (index - 1) as nat) + value_bits(
            table,
            values[index - 1] as nat,
        )
    }
}

/// Whether a code and the bits beside it stand for the value at `index`.
pub open spec fn value_quantized(
    table: QuantizeTable,
    codes: Seq<u8>,
    extra: Seq<u8>,
    values: Seq<u64>,
    index: int,
) -> bool {
    let value = values[index] as nat;
    let start = value_bits_at(table, values, index as nat);
    &&& value < 0x1_0000_0000
    &&& table is Offsets ==> value > 0
    &&& codes[index] == value_code(table, value)
    &&& start + value_bits(table, value) <= 8 * extra.len()
    &&& bit_field(extra, start as int, value_bits(table, value)) == value_rest(table, value)
}

/// Whether codes and bits stand for some values, with nothing but zeros behind.
pub open spec fn values_quantized(
    table: QuantizeTable,
    codes: Seq<u8>,
    extra: Seq<u8>,
    values: Seq<u64>,
) -> bool {
    &&& codes.len() == values.len()
    &&& forall|i: int|
        0 <= i < values.len() ==> #[trigger] value_quantized(table, codes, extra, values, i)
    &&& !set_bit_from(extra, value_bits_at(table, values, values.len()) as int)
}

pub proof fn lemma_floor_log(value: nat, log: nat)
    requires
        bit_range(log) <= value < 2 * bit_range(log),
    ensures
        floor_log(value) == log,
{
    lemma_bit_range_monotone(0, log);
    lemma_top_bit(value);
    let other = floor_log(value);
    if other < log {
        lemma_bit_range_monotone(other + 1, log);
    } else if log < other {
        lemma_bit_range_monotone(log + 1, other);
    }
}

/// The value of a code and its bits has that code.
proof fn lemma_code_value(table: QuantizeTable, code: nat, rest: nat)
    requires
        code < quantize_codes(table),
        rest < bit_range(quantize_bits(table, code)),
    ensures
        ({
            let value = quantize_base(table, code) + rest;
            &&& value < 0x1_0000_0000
            &&& table is Offsets ==> value > 0
            &&& value_code(table, value) == code
            &&& value_bits(table, value) == quantize_bits(table, code)
            &&& value_rest(table, value) == rest
        }),
{
    lemma_bit_range_values();
    let value = quantize_base(table, code) + rest;
    let bits = quantize_bits(table, code);
    lemma_bit_range_monotone(bits, 31);
    lemma_bit_range_monotone(0, bits);
    match table {
        QuantizeTable::Offsets => {
            lemma_floor_log(value, code);
        },
        QuantizeTable::Lengths => {
            if code >= 16 {
                lemma_bit_range_monotone(4, bits);
                lemma_floor_log(value, bits);
            }
        },
    }
}

/// A value is what its code and its bits stand for.
proof fn lemma_value_code(table: QuantizeTable, value: nat)
    requires
        value < 0x1_0000_0000,
        table is Offsets ==> value > 0,
    ensures
        ({
            let code = value_code(table, value);
            &&& code < quantize_codes(table)
            &&& quantize_bits(table, code) == value_bits(table, value)
            &&& value_bits(table, value) <= 31
            &&& value_rest(table, value) < bit_range(value_bits(table, value))
            &&& quantize_base(table, code) + value_rest(table, value) == value
        }),
{
    lemma_bit_range_values();
    if value > 0 {
        lemma_top_bit(value);
        let log = floor_log(value);
        if log > 31 {
            lemma_bit_range_monotone(32, log);
        }
        if value >= 16 && log < 4 {
            lemma_bit_range_monotone(log + 1, 4);
        }
    }
}

proof fn lemma_bits_at_prefix(
    table: QuantizeTable,
    values: Seq<u64>,
    longer: Seq<u64>,
    index: nat,
)
    requires
        index <= values.len() <= longer.len(),
        forall|i: int| 0 <= i < values.len() ==> longer[i] == #[trigger] values[i],
    ensures
        value_bits_at(table, values, index) == value_bits_at(table, longer, index),
    decreases index,
{
    if index > 0 {
        lemma_bits_at_prefix(table, values, longer, (index - 1) as nat);
        assert(longer[index - 1] == values[index - 1]);
    }
}

proof fn lemma_quantized(
    table: QuantizeTable,
    codes: Seq<u8>,
    extra: Seq<u8>,
    values: Seq<u64>,
)
    requires
        values.len() <= codes.len(),
        forall|i: int|
            0 <= i < values.len() ==> #[trigger] value_quantized(table, codes, extra, values, i),
        quantize_from(
            table,
            codes,
            extra,
            values.len(),
            value_bits_at(table, values, values.len()),
            values,
        ) is Ok,
    ensures
        values_quantized(
            table,
            codes,
            extra,
            quantize_from(
                table,
                codes,
                extra,
                values.len(),
                value_bits_at(table, values, values.len()),
                values,
            )->Ok_0,
        ),
    decreases codes.len() - values.len(),
{
    let index = values.len();
    if index < codes.len() {
        let code = codes[index as int] as nat;
        let start = value_bits_at(table, values, index);
        let bits = quantize_bits(table, code);
        let rest = bit_field(extra, start as int, bits);
        lemma_bit_field_bound(extra, start as int, bits);
        lemma_code_value(table, code, rest);
        lemma_bit_range_monotone(bits, 31);
        lemma_bit_range_values();
        let value = quantize_base(table, code) + rest;
        assert(forward_bits(extra, start as int, bits) == Ok::<u64, ErrorView>(rest as u64));
        let more = values.push(value as u64);
        assert forall|i: int| 0 <= i < more.len() implies #[trigger] value_quantized(
            table,
            codes,
            extra,
            more,
            i,
        ) by {
            lemma_bits_at_prefix(table, values, more, i as nat);
            if i < index {
                assert(value_quantized(table, codes, extra, values, i));
            }
        }
        lemma_bits_at_prefix(table, values, more, index);
        lemma_quantized(table, codes, extra, more);
    }
}

proof fn lemma_quantized_back(
    table: QuantizeTable,
    codes: Seq<u8>,
    extra: Seq<u8>,
    values: Seq<u64>,
    index: nat,
)
    requires
        8 * extra.len() <= usize::MAX,
        values_quantized(table, codes, extra, values),
        index <= values.len(),
    ensures
        quantize_from(
            table,
            codes,
            extra,
            index,
            value_bits_at(table, values, index),
            values.take(index as int),
        ) == Ok::<Seq<u64>, ErrorView>(values),
    decreases values.len() - index,
{
    if index == values.len() {
        assert(values.take(index as int) =~= values);
    } else {
        assert(value_quantized(table, codes, extra, values, index as int));
        let value = values[index as int] as nat;
        lemma_value_code(table, value);
        lemma_bit_range_monotone(value_bits(table, value), 31);
        lemma_bit_range_values();
        assert(values.take(index as int).push(values[index as int]) =~= values.take(
            index as int + 1,
        ));
        lemma_quantized_back(table, codes, extra, values, index + 1);
    }
}

/// A quantize node that decodes gives the values that its codes and the bits beside them
/// stand for.
pub proof fn law_quantize_output_has_its_codes(
    inputs: Seq<StreamView>,
    header: Seq<u8>,
    limits: Limits,
    table: QuantizeTable,
) -> (values: Seq<u64>)
    requires
        quantize_node(inputs, header, limits, table) is Ok,
    ensures
        ({
            let output = quantize_node(inputs, header, limits, table)->Ok_0;
            &&& values_quantized(table, inputs[0].bytes, inputs[1].bytes, values)
            &&& output.element_width == 4
            &&& output.bytes.len() == 4 * values.len()
            &&& forall|i: int|
                0 <= i < values.len() ==> element(output.bytes, 4, i) == #[trigger] values[i]
        }),
{
    lemma_quantized(table, inputs[0].bytes, inputs[1].bytes, Seq::empty());
    let values =
        quantize_from(table, inputs[0].bytes, inputs[1].bytes, 0, 0, Seq::empty())->Ok_0;
    lemma_packed_len(values, 4);
    lemma_byte_range_values();
    assert forall|i: int| 0 <= i < values.len() implies element(packed(values, 4), 4, i)
        == #[trigger] values[i] by {
        assert(value_quantized(table, inputs[0].bytes, inputs[1].bytes, values, i));
        law_packed_element(values, 4, i);
    }
    values
}

/// Values that were written as their codes and bits come back from a quantize node.
pub proof fn law_quantize_round_trip(
    inputs: Seq<StreamView>,
    limits: Limits,
    table: QuantizeTable,
    values: Seq<u64>,
)
    requires
        inputs.len() == 2,
        required_width_error(inputs[0], 1, "quantize codes"@) is None,
        inputs[1].element_width == 1,
        8 * inputs[1].bytes.len() <= usize::MAX,
        values.len() * 4 <= usize::MAX,
        limits.admits((values.len() * 4) as int),
        values_quantized(table, inputs[0].bytes, inputs[1].bytes, values),
    ensures
        quantize_node(inputs, Seq::empty(), limits, table) == Ok::<StreamView, ErrorView>(
            typed_stream(packed(values, 4), 4),
        ),
{
    lemma_quantized_back(table, inputs[0].bytes, inputs[1].bytes, values, 0);
    assert(values.take(0) =~= Seq::<u64>::empty());
}

/// How many bits tell `size` integers apart.
pub open spec fn needed_bits(size: nat) -> nat
    decreases size,
{
    if size <= 1 {
        0
    } else {
        1 + needed_bits((size + 1) / 2)
    }
}

proof fn lemma_needed_bits(size: u64)
    ensures
        offset_bits(size) == needed_bits(size as nat),
        size <= bit_range(needed_bits(size as nat)),
        needed_bits(size as nat) <= 64,
    decreases size,
{
    lemma_bit_range_values();
    if size > 1 {
        let half = ((size as nat + 1) / 2) as u64;
        assert(half < size);
        lemma_needed_bits(half);
        assert((size - 1) as nat / 2 == (half - 1) as nat);
        if half == 1 {
            assert(bit_length(1) == 1 + bit_length(0));
        }
        assert(bit_range(64) == 2 * bit_range(63));
        crate::bits::lemma_bit_length_bound((size - 1) as nat, 64);
    }
}

/// How many integers the first `count` buckets hold.
pub open spec fn integers_before(sizes: Seq<u64>, count: nat) -> nat
    decreases count,
{
    if count == 0 {
        0
    } else {
        integers_before(sizes, (count - 1) as nat) + sizes[count - 1] as nat
    }
}

/// Where the bits of the offset at `index` start.
pub open spec fn offset_at(sizes: Seq<u64>, buckets: Seq<u8>, index: nat) -> nat
    decreases index,
{
    if index == 0 {
        0
    } else {
        offset_at(sizes, buckets, (index - 1) as nat) + needed_bits(
            sizes[buckets[index - 1] as int] as nat,
        )
    }
}

/// The integer at `index`: that many into its bucket, behind the start and the buckets in
/// front.
pub open spec fn bucket_integer(
    start: u64,
    sizes: Seq<u64>,
    buckets: Seq<u8>,
    offsets: Seq<u8>,
    index: int,
) -> nat {
    let bucket = buckets[index] as nat;
    start as nat + integers_before(sizes, bucket) + bit_field(
        offsets,
        offset_at(sizes, buckets, index as nat) as int,
        needed_bits(sizes[bucket as int] as nat),
    )
}

/// Whether the integer at `index` can be read and fits the width.
pub open spec fn bucket_readable(
    start: u64,
    sizes: Seq<u64>,
    width: nat,
    buckets: Seq<u8>,
    offsets: Seq<u8>,
    index: int,
) -> bool {
    &&& buckets[index] < sizes.len()
    &&& offset_at(sizes, buckets, index as nat + 1) <= 8 * offsets.len()
    &&& bucket_integer(start, sizes, buckets, offsets, index) <= max_numeric(width as int)
}

proof fn lemma_bucket_base(start: u64, sizes: Seq<u64>, bucket: nat)
    ensures
        bucket_base(start, sizes, bucket) == start as nat + integers_before(sizes, bucket),
    decreases bucket,
{
    if bucket > 0 {
        lemma_bucket_base(start, sizes, (bucket - 1) as nat);
    }
}

proof fn lemma_partition(
    start: u64,
    sizes: Seq<u64>,
    width: nat,
    buckets: Seq<u8>,
    offsets: Seq<u8>,
    values: Seq<u64>,
)
    requires
        8 * offsets.len() <= usize::MAX,
        values.len() <= buckets.len(),
        forall|i: int|
            0 <= i < values.len() ==> #[trigger] bucket_readable(
                start,
                sizes,
                width,
                buckets,
                offsets,
                i,
            ),
        forall|i: int|
            0 <= i < values.len() ==> #[trigger] values[i] == bucket_integer(
                start,
                sizes,
                buckets,
                offsets,
                i,
            ),
    ensures
        ({
            let result = partition_from(
                start,
                sizes,
                width,
                buckets,
                offsets,
                values.len(),
                offset_at(sizes, buckets, values.len()),
                values,
            );
            &&& result is Ok <==> forall|i: int|
                0 <= i < buckets.len() ==> #[trigger] bucket_readable(
                    start,
                    sizes,
                    width,
                    buckets,
                    offsets,
                    i,
                )
            &&& result is Ok ==> {
                &&& result->Ok_0.len() == buckets.len()
                &&& forall|i: int|
                    0 <= i < buckets.len() ==> #[trigger] result->Ok_0[i] == bucket_integer(
                        start,
                        sizes,
                        buckets,
                        offsets,
                        i,
                    )
            }
        }),
    decreases buckets.len() - values.len(),
{
    let index = values.len();
    if index < buckets.len() {
        let bucket = buckets[index as int] as nat;
        let position = offset_at(sizes, buckets, index);
        let result = partition_from(
            start,
            sizes,
            width,
            buckets,
            offsets,
            index,
            position,
            values,
        );
        if bucket < sizes.len() {
            lemma_needed_bits(sizes[bucket as int]);
            lemma_bucket_base(start, sizes, bucket);
            let bits = needed_bits(sizes[bucket as int] as nat);
            lemma_bit_field_bound(offsets, position as int, bits);
            lemma_bit_range_monotone(bits, 64);
            lemma_bit_range_values();
            assert(bit_range(64) == 2 * bit_range(63));
            if bucket_readable(start, sizes, width, buckets, offsets, index as int) {
                let value = bucket_integer(start, sizes, buckets, offsets, index as int);
                lemma_partition(
                    start,
                    sizes,
                    width,
                    buckets,
                    offsets,
                    values.push(value as u64),
                );
            } else {
                assert(result is Err);
            }
        } else {
            assert(!bucket_readable(start, sizes, width, buckets, offsets, index as int));
        }
    }
}

/// A partition node gives for each bucket the integer that its offset bits name: just as many
/// bits as the bucket's size needs, counted from where the bucket starts. It succeeds if and
/// only if every bucket is there, its bits are, and the integer fits the width.
pub proof fn law_partition_output_is_in_its_buckets(
    inputs: Seq<StreamView>,
    header: Seq<u8>,
    limits: Limits,
)
    requires
        inputs.len() == 2,
        required_width_error(inputs[0], 1, "partition buckets"@) is None,
        inputs[1].element_width == 1,
        8 * inputs[1].bytes.len() <= usize::MAX,
        partition_header(header) is Ok,
        inputs[0].bytes.len() * partition_header(header)->Ok_0.2 <= usize::MAX,
        limits.admits((inputs[0].bytes.len() * partition_header(header)->Ok_0.2) as int),
    ensures
        ({
            let (start, sizes, width) = partition_header(header)->Ok_0;
            let buckets = inputs[0].bytes;
            let offsets = inputs[1].bytes;
            let result = partition_node(inputs, header, limits);
            &&& result is Ok <==> forall|i: int|
                0 <= i < buckets.len() ==> #[trigger] bucket_readable(
                    start,
                    sizes,
                    width,
                    buckets,
                    offsets,
                    i,
                )
            &&& result is Ok ==> {
                &&& result->Ok_0.element_width == width
                &&& result->Ok_0.bytes.len() == buckets.len() * width
                &&& forall|i: int|
                    0 <= i < buckets.len() ==> #[trigger] element(result->Ok_0.bytes, width, i)
                        == bucket_integer(start, sizes, buckets, offsets, i)
            }
        }),
{
    let (start, sizes, width) = partition_header(header)->Ok_0;
    let buckets = inputs[0].bytes;
    let offsets = inputs[1].bytes;
    lemma_partition(start, sizes, width, buckets, offsets, Seq::empty());
    let result = partition_from(start, sizes, width, buckets, offsets, 0, 0, Seq::empty());
    if result is Ok {
        let values = result->Ok_0;
        lemma_packed_len(values, width);
        lemma_byte_range_values();
        assert forall|i: int| 0 <= i < buckets.len() implies #[trigger] element(
            packed(values, width),
            width,
            i,
        ) == bucket_integer(start, sizes, buckets, offsets, i) by {
            assert(bucket_readable(start, sizes, width, buckets, offsets, i));
            assert(values[i] == bucket_integer(start, sizes, buckets, offsets, i));
            law_packed_element(values, width, i);
        }
    }
}

/// Bucket sizes as variable-length integers, one behind the other.
pub open spec fn sizes_bytes(sizes: Seq<u64>) -> Seq<u8>
    decreases sizes.len(),
{
    if sizes.len() == 0 {
        Seq::empty()
    } else {
        var_bytes(sizes[0] as nat) + sizes_bytes(sizes.skip(1))
    }
}

proof fn lemma_sizes_read(sizes: Seq<u64>, front: Seq<u64>)
    requires
        front.len() + sizes.len() <= 256,
    ensures
        varint_sizes_from(sizes_bytes(sizes), front) == Ok::<Seq<u64>, ErrorView>(front + sizes),
    decreases sizes.len(),
{
    if sizes.len() == 0 {
        assert(front + sizes =~= front);
    } else {
        let rest = sizes_bytes(sizes.skip(1));
        let bytes = sizes_bytes(sizes);
        let none = Seq::<u8>::empty();
        law_var_u64_round_trip(none, sizes[0], rest);
        let word = var_bytes(sizes[0] as nat);
        assert(none + word + rest =~= bytes);
        assert(none + word =~= word);
        assert(var_u64(bytes, 0) == Ok::<(u64, int), ErrorView>((sizes[0], word.len() as int)));
        assert(bytes.len() > 0) by {
            if word.len() == 0 {
                assert(var_bytes(sizes[0] as nat).len() > 0);
            }
        }
        assert(bytes.subrange(word.len() as int, bytes.len() as int) =~= rest);
        lemma_sizes_read(sizes.skip(1), front.push(sizes[0]));
        assert(front.push(sizes[0]) + sizes.skip(1) =~= front + sizes);
    }
}

/// Whether bucket sizes can be used from a start on: none is zero, and no bucket but the last
/// ends above 64 bits.
pub open spec fn sizes_usable(start: u64, sizes: Seq<u64>) -> bool {
    &&& 0 < sizes.len() <= 256
    &&& sizes.len() > 1 || start > 0
    &&& forall|i: int| 0 <= i < sizes.len() ==> (#[trigger] sizes[i]) > 0
    &&& forall|i: nat|
        0 < i < sizes.len() ==> start as nat + #[trigger] integers_before(sizes, i) <= u64::MAX
}

proof fn lemma_sizes_usable(start: u64, sizes: Seq<u64>, index: nat)
    requires
        sizes_usable(start, sizes),
        index <= sizes.len(),
    ensures
        sizes_error(sizes, index, start as nat + integers_before(sizes, index)) is None,
    decreases sizes.len() - index,
{
    if index < sizes.len() {
        assert(sizes[index as int] > 0);
        if index + 1 < sizes.len() {
            assert(start as nat + integers_before(sizes, index + 1) <= u64::MAX);
        }
        lemma_sizes_usable(start, sizes, index + 1);
    }
}

/// A partition header of a start and bucket sizes reads back: its first byte holds the power
/// of two of the bytes of an integer, and a flag where there is no start.
pub proof fn law_partition_header_reads_back(log: u8, start: u64, sizes: Seq<u64>)
    requires
        log < 4,
        sizes_usable(start, sizes),
    ensures
        partition_header(seq![log] + var_bytes(start as nat) + sizes_bytes(sizes)) == Ok::<
            (u64, Seq<u64>, nat),
            ErrorView,
        >((start, sizes, bit_range(log as nat))),
        start == 0 ==> partition_header(seq![(log + 8) as u8] + sizes_bytes(sizes)) == Ok::<
            (u64, Seq<u64>, nat),
            ErrorView,
        >((start, sizes, bit_range(log as nat))),
{
    let none = Seq::<u8>::empty();
    let word = var_bytes(start as nat);
    let tail = sizes_bytes(sizes);
    lemma_bit_range_values();
    assert(chosen_width(log as int) == bit_range(log as nat)) by {
        assert(log == 0 || log == 1 || log == 2 || log == 3);
    }
    lemma_sizes_usable(start, sizes, 0);
    lemma_sizes_read(sizes, Seq::empty());
    assert(Seq::<u64>::empty() + sizes =~= sizes);
    law_var_u64_round_trip(none, start, tail);
    assert(none + word + tail =~= word + tail);
    assert(none + word =~= word);
    let header = seq![log] + word + tail;
    let rest = header.subrange(1, header.len() as int);
    assert(rest =~= word + tail);
    assert(rest.subrange(word.len() as int, rest.len() as int) =~= tail);
    assert(header[0] == log);
    if start == 0 {
        let short = seq![(log + 8) as u8] + tail;
        let after = short.subrange(1, short.len() as int);
        assert(after =~= tail);
        assert(after.subrange(0, after.len() as int) =~= tail);
        assert(short[0] == log + 8);
    }
}

/// Bucket sizes that are powers of two are told by fields of bits below the highest set one:
/// each holds the exponent of one size.
pub proof fn law_pow2_sizes_are_told_by_exponents(bytes: Seq<u8>, width: nat)
    requires
        3 <= width <= 6,
        pow2_sizes(bytes, width) is Ok,
    ensures
        ({
            let sizes = pow2_sizes(bytes, width)->Ok_0;
            &&& highest_bit(bytes, sizes.len() * width as int)
            &&& forall|i: int|
                0 <= i < sizes.len() ==> #[trigger] sizes[i] == bit_range(
                    bit_field(bytes, i * width, width),
                )
        }),
{
    let sizes = pow2_sizes(bytes, width)->Ok_0;
    lemma_highest_bit(bytes);
    lemma_bit_range_values();
    lemma_top_bit(bytes.last() as nat);
    let place = 8 * (bytes.len() - 1) + bit_length(bytes.last() as nat) - 1;
    vstd::arithmetic::div_mod::lemma_fundamental_div_mod(place, width as int);
    vstd::arithmetic::div_mod::lemma_div_pos_is_pos(place, width as int);
    assert(width * (place / width as int) == (place / width as int) * width) by (nonlinear_arith);
    assert forall|i: int| 0 <= i < sizes.len() implies #[trigger] sizes[i] == bit_range(
        bit_field(bytes, i * width, width),
    ) by {
        lemma_bit_field_bound(bytes, i * width, width);
        lemma_bit_range_monotone(width, 6);
        lemma_bit_range_monotone(bit_field(bytes, i * width, width), 63);
    }
}

proof fn lemma_preset_base(preset: int, bucket: nat)
    requires
        0 <= preset <= 2,
        bucket <= preset_sizes(preset)->Ok_0.1.len(),
    ensures
        ({
            let (start, sizes) = preset_sizes(preset)->Ok_0;
            start as nat + integers_before(sizes, bucket) == (if preset == 0 {
                bit_range(bucket)
            } else if preset == 1 {
                if bucket < 16 {
                    bucket
                } else {
                    bit_range((bucket - 12) as nat)
                }
            } else {
                if bucket == 0 {
                    0
                } else {
                    bit_range(bucket)
                }
            })
        }),
    decreases bucket,
{
    lemma_bit_range_values();
    if bucket > 0 {
        lemma_preset_base(preset, (bucket - 1) as nat);
        let last = (bucket - 1) as nat;
        if preset == 0 {
            lemma_bit_range_monotone(last, 31);
        } else if preset == 1 && last >= 16 {
            lemma_bit_range_monotone((last - 12) as nat, 31);
        } else if preset == 2 {
            lemma_bit_range_monotone(last, 31);
        }
    }
}

/// The first two fixed partitions are those of the quantizers: a bucket starts at the least
/// value of its code, and holds as many as its bits tell apart. The third cuts the 16-bit
/// integers in two at every power of two.
pub proof fn law_presets_are_powers_of_two(bucket: nat)
    ensures
        ({
            let (start, sizes) = preset_sizes(0)->Ok_0;
            let table = QuantizeTable::Offsets;
            &&& sizes.len() == quantize_codes(table)
            &&& bucket < sizes.len() ==> {
                &&& start as nat + integers_before(sizes, bucket) == quantize_base(table, bucket)
                &&& sizes[bucket as int] == bit_range(quantize_bits(table, bucket))
            }
        }),
        ({
            let (start, sizes) = preset_sizes(1)->Ok_0;
            let table = QuantizeTable::Lengths;
            &&& sizes.len() == quantize_codes(table)
            &&& bucket < sizes.len() ==> {
                &&& start as nat + integers_before(sizes, bucket) == quantize_base(table, bucket)
                &&& sizes[bucket as int] == bit_range(quantize_bits(table, bucket))
            }
        }),
        ({
            let (start, sizes) = preset_sizes(2)->Ok_0;
            &&& start == 0
            &&& sizes.len() == 16
            &&& 0 < bucket <= 16 ==> integers_before(sizes, bucket) == bit_range(bucket)
        }),
{
    lemma_bit_range_values();
    if bucket <= 32 {
        lemma_preset_base(0, bucket);
        if bucket < 32 {
            lemma_bit_range_monotone(bucket, 31);
        }
    }
    if bucket <= 44 {
        lemma_preset_base(1, bucket);
        if 16 <= bucket < 44 {
            lemma_bit_range_monotone((bucket - 12) as nat, 31);
        }
    }
    if bucket <= 16 {
        lemma_preset_base(2, bucket);
    }
}

} // verus!
