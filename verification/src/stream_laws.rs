//! Where the transforms that cut, join and fill in streams put every element.

use vstd::prelude::*;

use crate::bits::bit_range;
use crate::bytes::{
    byte_range, le_bytes, le_value, lemma_byte_range_values, lemma_le_bytes_len,
    lemma_le_value_bound,
};
use crate::concat::{concat_from, concat_node, joined_bytes};
use crate::error::ErrorView;
use crate::limits::Limits;
use crate::mux_lengths::{mux_from, mux_length, mux_lengths_node, MuxShape};
use crate::sentinel::{sentinel_from, sentinel_node, sentinel_value};
use crate::sparse_num::{sparse_num_node, sparse_output, sparse_values};
use crate::splitn::{splitn_node, splitn_total};
use crate::stream::{
    element, lemma_element_bound, lemma_element_inside, lemma_packed_len, lemma_whole_elements,
    max_numeric, numeric_width, packed, typed_stream, usize_element, StreamView,
};

verus! {

proof fn lemma_le_low(value: nat, width: nat)
    ensures
        le_value(le_bytes(value, width)) == value % byte_range(width),
    decreases width,
{
    if width > 0 {
        let rest = le_bytes(value / 256, (width - 1) as nat);
        lemma_le_low(value / 256, (width - 1) as nat);
        let all = le_bytes(value, width);
        assert(all.subrange(1, all.len() as int) =~= rest);
        lemma_range_positive((width - 1) as nat);
        vstd::arithmetic::div_mod::lemma_mod_breakdown(
            value as int,
            256,
            byte_range((width - 1) as nat) as int,
        );
    }
}

proof fn lemma_range_positive(width: nat)
    ensures
        byte_range(width) > 0,
    decreases width,
{
    if width > 0 {
        lemma_range_positive((width - 1) as nat);
    }
}

/// An integer that was laid out reads back without the bits that do not fit.
pub proof fn law_packed_element_low(values: Seq<u64>, width: nat, index: int)
    requires
        0 <= index < values.len(),
    ensures
        packed(values, width).len() == values.len() * width,
        element(packed(values, width), width, index) == values[index] as nat % byte_range(width),
    decreases values.len(),
{
    let count = values.len();
    let last = count - 1;
    let shorter = values.drop_last();
    let bytes = packed(values, width);
    lemma_packed_len(values, width);
    lemma_packed_len(shorter, width);
    lemma_le_bytes_len(values.last() as nat, width);
    lemma_element_inside(index as nat, count, width);
    assert(0 <= index * width) by (nonlinear_arith)
        requires
            0 <= index,
    ;
    if index == last {
        assert(bytes.subrange(index * width, index * width + width) =~= le_bytes(
            values.last() as nat,
            width,
        ));
        lemma_le_low(values.last() as nat, width);
    } else {
        lemma_element_inside(index as nat, last as nat, width);
        assert(bytes.subrange(index * width, index * width + width) =~= packed(
            shorter,
            width,
        ).subrange(index * width, index * width + width));
        law_packed_element_low(shorter, width, index);
    }
}

/// The sum of the first `count` sizes of four bytes each.
pub open spec fn sizes_sum(sizes: Seq<u8>, count: nat) -> nat
    decreases count,
{
    if count == 0 {
        0
    } else {
        sizes_sum(sizes, (count - 1) as nat) + element(sizes, 4, count - 1)
    }
}

/// The part of some bytes that one size names, behind those before it.
pub open spec fn sized_part(joined: StreamView, sizes: Seq<u8>, index: nat) -> StreamView {
    let width = joined.element_width;
    StreamView {
        bytes: joined.bytes.subrange(
            sizes_sum(sizes, index) * width as int,
            sizes_sum(sizes, index + 1) * width as int,
        ),
        element_width: width,
        string_lengths: None,
    }
}

proof fn lemma_sizes_up(sizes: Seq<u8>, small: nat, large: nat)
    requires
        small <= large,
    ensures
        sizes_sum(sizes, small) <= sizes_sum(sizes, large),
    decreases large,
{
    if small < large {
        lemma_sizes_up(sizes, small, (large - 1) as nat);
    }
}

proof fn lemma_size_bound(sizes: Seq<u8>, index: nat)
    requires
        sizes.len() % 4 == 0,
        index < sizes.len() / 4,
    ensures
        element(sizes, 4, index as int) <= u32::MAX,
{
    lemma_whole_elements(sizes.len(), 4);
    lemma_element_inside(index, sizes.len() / 4, 4);
    lemma_element_bound(sizes, 4, index as int);
}

proof fn lemma_concat(
    sizes: Seq<u8>,
    joined: StreamView,
    limits: Limits,
    index: nat,
    outputs: Seq<StreamView>,
)
    requires
        joined.element_width > 0,
        joined.bytes.len() % joined.element_width == 0,
        joined.bytes.len() <= usize::MAX,
        sizes.len() <= usize::MAX,
        sizes.len() % 4 == 0,
        index <= sizes.len() / 4,
        outputs.len() == index,
        sizes_sum(sizes, index) * joined.element_width <= joined.bytes.len(),
    ensures
        ({
            let count = sizes.len() / 4;
            let result = concat_from(
                sizes,
                joined,
                limits,
                index,
                sizes_sum(sizes, index),
                outputs,
            );
            let fits = sizes_sum(sizes, count) * joined.element_width == joined.bytes.len()
                && forall|i: int|
                index <= i < count ==> limits.admits(
                    #[trigger] element(sizes, 4, i) * joined.element_width as int,
                );
            &&& result is Ok <==> fits
            &&& result is Ok ==> {
                &&& result->Ok_0.len() == count
                &&& forall|i: int| 0 <= i < index ==> #[trigger] result->Ok_0[i] == outputs[i]
                &&& forall|i: int|
                    index <= i < count ==> #[trigger] result->Ok_0[i] == sized_part(
                        joined,
                        sizes,
                        i as nat,
                    )
            }
        }),
    decreases sizes.len() / 4 - index,
{
    let width = joined.element_width;
    let count = sizes.len() / 4;
    let used = sizes_sum(sizes, index);
    let total = joined.bytes.len() / width;
    lemma_whole_elements(joined.bytes.len(), width);
    if index >= count {
        assert(used * width == total * width <==> used == total) by (nonlinear_arith)
            requires
                width > 0,
        ;
    } else {
        let size = element(sizes, 4, index as int);
        let next = used + size;
        lemma_size_bound(sizes, index);
        lemma_whole_elements(sizes.len(), 4);
        lemma_element_inside(index, count, 4);
        assert(usize_element(sizes, 4, index as int) == Ok::<usize, ErrorView>(size as usize));
        lemma_sizes_up(sizes, index + 1, count);
        assert(next * width == used * width + size * width) by (nonlinear_arith)
            requires
                next == used + size,
        ;
        assert(next * width <= sizes_sum(sizes, count) * width) by (nonlinear_arith)
            requires
                next <= sizes_sum(sizes, count),
        ;
        assert(next <= next * width) by (nonlinear_arith)
            requires
                width > 0,
        ;
        if next * width <= joined.bytes.len() && limits.admits(size * width as int) {
            let part = typed_stream(
                joined.bytes.subrange((used * width) as int, (next * width) as int),
                width,
            );
            lemma_concat(sizes, joined, limits, index + 1, outputs.push(part));
            let result = concat_from(sizes, joined, limits, index, used, outputs);
            assert(result == concat_from(
                sizes,
                joined,
                limits,
                index + 1,
                next,
                outputs.push(part),
            ));
            if result is Ok {
                assert(result->Ok_0[index as int] == outputs.push(part)[index as int]);
                assert forall|i: int| 0 <= i < index implies #[trigger] result->Ok_0[i]
                    == outputs[i] by {
                    assert(outputs.push(part)[i] == outputs[i]);
                }
                assert forall|i: int| index <= i < count implies limits.admits(
                    #[trigger] element(sizes, 4, i) * width as int,
                ) by {}
            }
        }
    }
}

/// A concat node cuts its second input into as many parts as its first holds sizes, each of
/// the size it names, one behind the other and nothing left.
pub proof fn law_concat_cuts_by_size(inputs: Seq<StreamView>, header: Seq<u8>, limits: Limits)
    requires
        inputs.len() == 2,
        inputs[0].bytes.len() <= usize::MAX,
        inputs[1].bytes.len() <= usize::MAX,
        concat_node(inputs, header, limits) is Ok,
    ensures
        ({
            let sizes = inputs[0].bytes;
            let outputs = concat_node(inputs, header, limits)->Ok_0;
            &&& outputs.len() == sizes.len() / 4
            &&& sizes_sum(sizes, sizes.len() / 4) * inputs[1].element_width
                == inputs[1].bytes.len()
            &&& forall|i: int|
                0 <= i < outputs.len() ==> #[trigger] outputs[i] == sized_part(
                    inputs[1],
                    sizes,
                    i as nat,
                )
        }),
{
    assert(0 * inputs[1].element_width == 0);
    lemma_concat(inputs[0].bytes, inputs[1], limits, 0, Seq::empty());
}

/// A concat node accepts every list of sizes that names all of its second input.
pub proof fn law_concat_takes_all_sizes(inputs: Seq<StreamView>, limits: Limits)
    requires
        inputs.len() == 2,
        inputs[0].element_width == 1 || inputs[0].element_width == 4,
        inputs[0].bytes.len() % 4 == 0,
        0 < inputs[0].bytes.len() <= usize::MAX,
        inputs[1].element_width > 0,
        inputs[1].bytes.len() % inputs[1].element_width == 0,
        inputs[1].bytes.len() <= usize::MAX,
        sizes_sum(inputs[0].bytes, inputs[0].bytes.len() / 4) * inputs[1].element_width
            == inputs[1].bytes.len(),
        forall|i: int|
            0 <= i < inputs[0].bytes.len() / 4 ==> limits.admits(
                #[trigger] element(inputs[0].bytes, 4, i) * inputs[1].element_width as int,
            ),
    ensures
        concat_node(inputs, Seq::empty(), limits) is Ok,
{
    assert(0 * inputs[1].element_width == 0);
    lemma_concat(inputs[0].bytes, inputs[1], limits, 0, Seq::empty());
}

/// How many bytes the first `count` streams hold.
pub open spec fn bytes_before(streams: Seq<StreamView>, count: nat) -> nat
    decreases count,
{
    if count == 0 {
        0
    } else {
        bytes_before(streams, (count - 1) as nat) + streams[count - 1].bytes.len()
    }
}

proof fn lemma_bytes_up(streams: Seq<StreamView>, small: nat, large: nat)
    requires
        small <= large,
    ensures
        bytes_before(streams, small) <= bytes_before(streams, large),
    decreases large,
{
    if small < large {
        lemma_bytes_up(streams, small, (large - 1) as nat);
    }
}

proof fn lemma_bytes_prefix(streams: Seq<StreamView>, count: nat)
    requires
        count < streams.len(),
    ensures
        bytes_before(streams.drop_last(), count) == bytes_before(streams, count),
    decreases count,
{
    if count > 0 {
        lemma_bytes_prefix(streams, (count - 1) as nat);
    }
}

proof fn lemma_joined(streams: Seq<StreamView>, index: nat)
    requires
        index < streams.len(),
    ensures
        joined_bytes(streams).len() == bytes_before(streams, streams.len()),
        joined_bytes(streams).subrange(
            bytes_before(streams, index) as int,
            bytes_before(streams, index + 1) as int,
        ) == streams[index as int].bytes,
    decreases streams.len(),
{
    let front = streams.drop_last();
    let last = (streams.len() - 1) as nat;
    let all = joined_bytes(streams);
    lemma_bytes_prefix(streams, last);
    lemma_bytes_up(streams, index, last);
    if last > 0 {
        lemma_joined(front, if index < last {
            index
        } else {
            0
        });
    }
    if index < last {
        lemma_bytes_prefix(streams, index);
        lemma_bytes_up(streams, index + 1, last);
        lemma_bytes_prefix(streams, index + 1);
        assert(all.subrange(
            bytes_before(streams, index) as int,
            bytes_before(streams, index + 1) as int,
        ) =~= joined_bytes(front).subrange(
            bytes_before(front, index) as int,
            bytes_before(front, index + 1) as int,
        ));
    } else {
        assert(all.subrange(
            bytes_before(streams, index) as int,
            bytes_before(streams, index + 1) as int,
        ) =~= streams[index as int].bytes);
    }
}

proof fn lemma_splitn_total(inputs: Seq<StreamView>, width: nat, index: nat)
    requires
        width > 0,
        index <= inputs.len(),
        bytes_before(inputs, index) <= usize::MAX,
    ensures
        ({
            let total = splitn_total(inputs, width, index, bytes_before(inputs, index));
            let fits = bytes_before(inputs, inputs.len()) <= usize::MAX && forall|i: int|
                index <= i < inputs.len() ==> (#[trigger] inputs[i]).element_width == width
                    && inputs[i].bytes.len() % width == 0;
            &&& total is Ok <==> fits
            &&& total is Ok ==> total->Ok_0 == bytes_before(inputs, inputs.len())
        }),
    decreases inputs.len() - index,
{
    if index < inputs.len() {
        lemma_bytes_up(inputs, index + 1, inputs.len());
        if bytes_before(inputs, index + 1) <= usize::MAX {
            lemma_splitn_total(inputs, width, index + 1);
        }
    }
}

/// A splitn node puts its inputs one behind the other: the bytes of each stand behind those
/// of all before it, and nothing else comes out. It accepts any inputs of whole elements of
/// one width.
pub proof fn law_splitn_joins_its_inputs(
    inputs: Seq<StreamView>,
    variable_inputs: u32,
    limits: Limits,
)
    requires
        0 < inputs.len() == variable_inputs,
        inputs[0].element_width > 0,
    ensures
        ({
            let result = splitn_node(inputs, variable_inputs, Seq::empty(), limits);
            let width = inputs[0].element_width;
            let total = bytes_before(inputs, inputs.len());
            &&& result is Ok <==> {
                &&& total <= usize::MAX
                &&& limits.admits(total as int)
                &&& forall|i: int|
                    0 <= i < inputs.len() ==> (#[trigger] inputs[i]).element_width == width
                        && inputs[i].bytes.len() % width == 0
            }
            &&& result is Ok ==> {
                &&& result->Ok_0.element_width == width
                &&& result->Ok_0.string_lengths is None
                &&& result->Ok_0.bytes.len() == total
                &&& forall|i: int|
                    0 <= i < inputs.len() ==> result->Ok_0.bytes.subrange(
                        bytes_before(inputs, i as nat) as int,
                        bytes_before(inputs, i as nat + 1) as int,
                    ) == (#[trigger] inputs[i]).bytes
            }
        }),
{
    let width = inputs[0].element_width;
    lemma_splitn_total(inputs, width, 0);
    assert forall|i: int| 0 <= i < inputs.len() implies joined_bytes(inputs).subrange(
        bytes_before(inputs, i as nat) as int,
        bytes_before(inputs, i as nat + 1) as int,
    ) == (#[trigger] inputs[i]).bytes by {
        lemma_joined(inputs, i as nat);
    }
    lemma_joined(inputs, 0);
}

/// How many of the first `count` values are the sentinel.
pub open spec fn sentinels_before(values: StreamView, sentinel: nat, count: nat) -> nat
    decreases count,
{
    if count == 0 {
        0
    } else {
        sentinels_before(values, sentinel, (count - 1) as nat) + (if element(
            values.bytes,
            values.element_width,
            count - 1,
        ) == sentinel {
            1nat
        } else {
            0nat
        })
    }
}

proof fn lemma_sentinels_up(values: StreamView, sentinel: nat, small: nat, large: nat)
    requires
        small <= large,
    ensures
        sentinels_before(values, sentinel, small) <= sentinels_before(values, sentinel, large),
    decreases large,
{
    if small < large {
        lemma_sentinels_up(values, sentinel, small, (large - 1) as nat);
    }
}

proof fn lemma_sentinel(
    values: StreamView,
    exceptions: StreamView,
    sentinel: u64,
    index: nat,
    resolved: Seq<u64>,
)
    requires
        values.element_width > 0,
        exceptions.element_width > 0,
        index <= values.bytes.len() / values.element_width,
        resolved.len() == index,
        sentinels_before(values, sentinel as nat, index) <= exceptions.bytes.len()
            / exceptions.element_width,
    ensures
        ({
            let count = values.bytes.len() / values.element_width;
            let used = sentinels_before(values, sentinel as nat, index);
            let result = sentinel_from(values, exceptions, sentinel, index, used, resolved);
            &&& result is Ok <==> sentinels_before(values, sentinel as nat, count)
                == exceptions.bytes.len() / exceptions.element_width
            &&& result is Ok ==> {
                &&& result->Ok_0.len() == count
                &&& forall|i: int| 0 <= i < index ==> #[trigger] result->Ok_0[i] == resolved[i]
                &&& forall|i: int|
                    index <= i < count ==> #[trigger] result->Ok_0[i] == (if element(
                        values.bytes,
                        values.element_width,
                        i,
                    ) == sentinel {
                        element(
                            exceptions.bytes,
                            exceptions.element_width,
                            sentinels_before(values, sentinel as nat, i as nat) as int,
                        ) as u64
                    } else {
                        element(values.bytes, values.element_width, i) as u64
                    })
            }
        }),
    decreases values.bytes.len() / values.element_width - index,
{
    let count = values.bytes.len() / values.element_width;
    if index < count {
        let value = element(values.bytes, values.element_width, index as int);
        let used = sentinels_before(values, sentinel as nat, index);
        let stock = exceptions.bytes.len() / exceptions.element_width;
        lemma_sentinels_up(values, sentinel as nat, index + 1, count);
        if value != sentinel || used < stock {
            let next = if value != sentinel {
                value as u64
            } else {
                element(exceptions.bytes, exceptions.element_width, used as int) as u64
            };
            lemma_sentinel(values, exceptions, sentinel, index + 1, resolved.push(next));
            let result = sentinel_from(values, exceptions, sentinel, index, used, resolved);
            if result is Ok {
                assert(result->Ok_0[index as int] == resolved.push(next)[index as int]);
                assert forall|i: int| 0 <= i < index implies #[trigger] result->Ok_0[i]
                    == resolved[i] by {
                    assert(resolved.push(next)[i] == resolved[i]);
                }
            }
        }
    }
}

/// A sentinel node gives each value as itself, and for each sentinel the next of the
/// exceptions: the one at the number of sentinels in front. There are as many exceptions as
/// sentinels.
pub proof fn law_sentinel_fills_in_exceptions(
    inputs: Seq<StreamView>,
    header: Seq<u8>,
    limits: Limits,
)
    requires
        sentinel_node(inputs, header, limits) is Ok,
        inputs[0].bytes.len() <= usize::MAX,
        inputs[1].bytes.len() <= usize::MAX,
    ensures
        ({
            let values = inputs[0];
            let exceptions = inputs[1];
            let width = exceptions.element_width;
            let sentinel = sentinel_value(
                header,
                max_numeric(values.element_width as int),
            )->Ok_0 as nat;
            let output = sentinel_node(inputs, header, limits)->Ok_0;
            let count = values.bytes.len() / values.element_width;
            &&& output.element_width == width
            &&& output.bytes.len() == count * width
            &&& sentinels_before(values, sentinel, count) == exceptions.bytes.len() / width
            &&& forall|i: int|
                0 <= i < count ==> #[trigger] element(output.bytes, width, i) == (if element(
                    values.bytes,
                    values.element_width,
                    i,
                ) == sentinel {
                    element(
                        exceptions.bytes,
                        width,
                        sentinels_before(values, sentinel, i as nat) as int,
                    )
                } else {
                    element(values.bytes, values.element_width, i)
                })
        }),
{
    let values = inputs[0];
    let exceptions = inputs[1];
    let width = exceptions.element_width;
    let sentinel = sentinel_value(header, max_numeric(values.element_width as int))->Ok_0;
    let count = values.bytes.len() / values.element_width;
    let stock = exceptions.bytes.len() / width;
    lemma_whole_elements(values.bytes.len(), values.element_width);
    lemma_whole_elements(exceptions.bytes.len(), width);
    lemma_sentinel(values, exceptions, sentinel, 0, Seq::empty());
    let resolved = sentinel_from(values, exceptions, sentinel, 0, 0, Seq::empty())->Ok_0;
    lemma_packed_len(resolved, width);
    let output = packed(resolved, width);
    assert forall|i: int| 0 <= i < count implies #[trigger] element(output, width, i) == (
    if element(values.bytes, values.element_width, i) == sentinel {
        element(
            exceptions.bytes,
            width,
            sentinels_before(values, sentinel as nat, i as nat) as int,
        )
    } else {
        element(values.bytes, values.element_width, i)
    }) by {
        law_packed_element_low(resolved, width, i);
        lemma_byte_range_values();
        let used = sentinels_before(values, sentinel as nat, i as nat);
        lemma_sentinels_up(values, sentinel as nat, i as nat + 1, count);
        lemma_element_inside(i as nat, count, values.element_width);
        lemma_element_bound(values.bytes, values.element_width, i);
        if element(values.bytes, values.element_width, i) == sentinel {
            lemma_element_inside(used, stock, width);
            lemma_element_bound(exceptions.bytes, width, used as int);
            lemma_numeric_below(
                element(exceptions.bytes, width, used as int),
                width,
                width,
            );
        } else {
            lemma_numeric_below(
                element(values.bytes, values.element_width, i),
                values.element_width,
                width,
            );
        }
    }
}

proof fn lemma_numeric_below(value: nat, narrow: nat, width: nat)
    requires
        numeric_width(narrow as int),
        numeric_width(width as int),
        narrow <= width,
        value <= max_numeric(narrow as int),
    ensures
        value < byte_range(width),
        value <= u64::MAX,
        value % byte_range(width) == value,
{
    lemma_byte_range_values();
    vstd::arithmetic::div_mod::lemma_small_mod(value, byte_range(width));
}

/// How many of the two halves of the first `count` muxed bytes are full: all ones, so that
/// a long length is added to them.
pub open spec fn full_halves(muxed: Seq<u8>, split: nat, count: nat) -> nat
    decreases count,
{
    if count == 0 {
        0
    } else {
        full_halves(muxed, split, (count - 1) as nat) + (if low_full(muxed, split, count - 1) {
            1nat
        } else {
            0nat
        }) + (if high_full(muxed, split, count - 1) {
            1nat
        } else {
            0nat
        })
    }
}

/// Whether the low `split` bits of a muxed byte are all set.
pub open spec fn low_full(muxed: Seq<u8>, split: nat, index: int) -> bool {
    muxed[index] as nat % bit_range(split) == bit_range(split) - 1
}

/// Whether the bits of a muxed byte above the low `split` ones are all set.
pub open spec fn high_full(muxed: Seq<u8>, split: nat, index: int) -> bool {
    muxed[index] as nat / bit_range(split) == bit_range((8 - split) as nat) - 1
}

/// The literal length of a muxed byte.
pub open spec fn literal_length(
    muxed: Seq<u8>,
    long: StreamView,
    split: nat,
    index: int,
) -> nat {
    let used = full_halves(muxed, split, index as nat);
    muxed[index] as nat % bit_range(split) + (if low_full(muxed, split, index) {
        element(long.bytes, long.element_width, used as int)
    } else {
        0
    })
}

/// The match length of a muxed byte.
pub open spec fn match_length(
    muxed: Seq<u8>,
    long: StreamView,
    split: nat,
    bias: nat,
    index: int,
) -> nat {
    let used = full_halves(muxed, split, index as nat) + (if low_full(muxed, split, index) {
        1nat
    } else {
        0nat
    });
    bias + muxed[index] as nat / bit_range(split) + (if high_full(muxed, split, index) {
        element(long.bytes, long.element_width, used as int)
    } else {
        0
    })
}

proof fn lemma_full_up(muxed: Seq<u8>, split: nat, small: nat, large: nat)
    requires
        small <= large,
    ensures
        full_halves(muxed, split, small) <= full_halves(muxed, split, large),
    decreases large,
{
    if small < large {
        lemma_full_up(muxed, split, small, (large - 1) as nat);
    }
}

proof fn lemma_wrapped(short: nat, extra: nat, width: nat)
    requires
        numeric_width(width as int),
        short <= 300,
        extra <= max_numeric(width as int),
    ensures
        (short as u64).wrapping_add(extra as u64) as nat % byte_range(width) == (short + extra)
            % byte_range(width),
{
    lemma_byte_range_values();
    let sum = short + extra;
    let wrapped = (short as u64).wrapping_add(extra as u64) as nat;
    if sum <= u64::MAX {
        assert(wrapped == sum);
    } else {
        assert(width == 8);
        assert(wrapped == sum - 0x1_0000_0000_0000_0000);
        assert(byte_range(8) == 0x1_0000_0000_0000_0000);
    }
}

spec fn mux_values_fit(
    muxed: Seq<u8>,
    long: StreamView,
    shape: MuxShape,
    literals: Seq<u64>,
    matches: Seq<u64>,
    index: int,
) -> bool {
    let range = byte_range(long.element_width);
    &&& literals[index] as nat % range == literal_length(muxed, long, shape.split, index) % range
    &&& matches[index] as nat % range == match_length(muxed, long, shape.split, shape.bias, index)
        % range
}

proof fn lemma_mux(
    muxed: Seq<u8>,
    long: StreamView,
    shape: MuxShape,
    index: nat,
    literals: Seq<u64>,
    matches: Seq<u64>,
)
    requires
        numeric_width(long.element_width as int),
        long.bytes.len() % long.element_width == 0,
        shape.split <= 8,
        shape.bias < 16,
        index <= muxed.len(),
        literals.len() == index,
        matches.len() == index,
        full_halves(muxed, shape.split, index) <= long.bytes.len() / long.element_width,
        forall|i: int|
            0 <= i < index ==> #[trigger] mux_values_fit(muxed, long, shape, literals, matches, i),
    ensures
        ({
            let used = full_halves(muxed, shape.split, index);
            let result = mux_from(muxed, long, shape, index, used, literals, matches);
            &&& result is Ok <==> full_halves(muxed, shape.split, muxed.len()) == long.bytes.len()
                / long.element_width
            &&& result is Ok ==> {
                let (all_literals, all_matches) = result->Ok_0;
                &&& all_literals.len() == muxed.len()
                &&& all_matches.len() == muxed.len()
                &&& forall|i: int|
                    0 <= i < muxed.len() ==> #[trigger] mux_values_fit(
                        muxed,
                        long,
                        shape,
                        all_literals,
                        all_matches,
                        i,
                    )
            }
        }),
    decreases muxed.len() - index,
{
    if index < muxed.len() {
        let width = long.element_width;
        let stock = long.bytes.len() / width;
        let byte = muxed[index as int] as nat;
        let range = bit_range(shape.split);
        let used = full_halves(muxed, shape.split, index);
        lemma_full_up(muxed, shape.split, index + 1, muxed.len());
        lemma_half_bounds(byte, shape.split);
        lemma_whole_elements(long.bytes.len(), width);
        let first = mux_length(long, used, byte % range, (range - 1) as nat);
        if first is Ok {
            let (literal, between) = first->Ok_0;
            let high_range = bit_range((8 - shape.split) as nat);
            let second = mux_length(
                long,
                between,
                shape.bias + byte / range,
                (shape.bias + high_range - 1) as nat,
            );
            if second is Ok {
                let (matched, after) = second->Ok_0;
                assert(after == full_halves(muxed, shape.split, index + 1));
                if low_full(muxed, shape.split, index as int) {
                    lemma_element_inside(used, stock, width);
                    lemma_element_bound(long.bytes, width, used as int);
                    lemma_wrapped(byte % range, element(long.bytes, width, used as int), width);
                }
                if high_full(muxed, shape.split, index as int) {
                    lemma_element_inside(between, stock, width);
                    lemma_element_bound(long.bytes, width, between as int);
                    lemma_wrapped(
                        shape.bias + byte / range,
                        element(long.bytes, width, between as int),
                        width,
                    );
                }
                let more_literals = literals.push(literal);
                let more_matches = matches.push(matched);
                assert forall|i: int| 0 <= i < index + 1 implies #[trigger] mux_values_fit(
                    muxed,
                    long,
                    shape,
                    more_literals,
                    more_matches,
                    i,
                ) by {
                    if i < index {
                        assert(mux_values_fit(muxed, long, shape, literals, matches, i));
                    }
                }
                lemma_mux(muxed, long, shape, index + 1, more_literals, more_matches);
            }
        }
    }
}

proof fn lemma_half_bounds(byte: nat, split: nat)
    requires
        byte < 256,
        split <= 8,
    ensures
        bit_range(split) > 0,
        byte % bit_range(split) < 256,
        byte / bit_range(split) <= byte,
        bit_range(split) <= 256,
        0 < bit_range((8 - split) as nat) <= 256,
{
    crate::bits::lemma_bit_range_monotone(0, split);
    crate::bits::lemma_bit_range_monotone(split, 8);
    crate::bits::lemma_bit_range_monotone((8 - split) as nat, 8);
    crate::bits::lemma_bit_range_values();
    vstd::arithmetic::div_mod::lemma_mod_bound(byte as int, bit_range(split) as int);
    vstd::arithmetic::div_mod::lemma_div_is_ordered_by_denominator(
        byte as int,
        1,
        bit_range(split) as int,
    );
}

/// A mux_lengths node gives for each muxed byte a literal length, its low bits, and a match
/// length, its high bits and the bias; a half that is all ones has the next long length
/// added. The node succeeds if and only if there are as many long lengths as such halves.
pub proof fn law_mux_lengths_add_long_lengths(
    inputs: Seq<StreamView>,
    header: Seq<u8>,
    limits: Limits,
)
    requires
        inputs.len() == 2,
        header.len() == 1,
        inputs[0].element_width == 1,
        numeric_width(inputs[1].element_width as int),
        inputs[1].bytes.len() % inputs[1].element_width == 0,
        header[0] % 16 <= 8,
        inputs[0].bytes.len() * inputs[1].element_width <= usize::MAX,
        limits.admits(inputs[0].bytes.len() * inputs[1].element_width as int),
    ensures
        ({
            let muxed = inputs[0].bytes;
            let long = inputs[1];
            let width = long.element_width;
            let split = header[0] as nat % 16;
            let bias = header[0] as nat / 16;
            let result = mux_lengths_node(inputs, header, limits);
            &&& result is Ok <==> full_halves(muxed, split, muxed.len()) == long.bytes.len() / width
            &&& result is Ok ==> {
                let outputs = result->Ok_0;
                &&& outputs.len() == 2
                &&& outputs[0].element_width == width
                &&& outputs[1].element_width == width
                &&& outputs[0].bytes.len() == muxed.len() * width
                &&& outputs[1].bytes.len() == muxed.len() * width
                &&& forall|i: int|
                    0 <= i < muxed.len() ==> #[trigger] element(outputs[0].bytes, width, i)
                        == literal_length(muxed, long, split, i) % byte_range(width)
                &&& forall|i: int|
                    0 <= i < muxed.len() ==> #[trigger] element(outputs[1].bytes, width, i)
                        == match_length(muxed, long, split, bias, i) % byte_range(width)
            }
        }),
{
    let muxed = inputs[0].bytes;
    let long = inputs[1];
    let width = long.element_width;
    let shape = MuxShape { split: header[0] as nat % 16, bias: header[0] as nat / 16 };
    lemma_mux(muxed, long, shape, 0, Seq::empty(), Seq::empty());
    let result = mux_from(muxed, long, shape, 0, 0, Seq::empty(), Seq::empty());
    if result is Ok {
        let (literals, matches) = result->Ok_0;
        lemma_packed_len(literals, width);
        lemma_packed_len(matches, width);
        assert forall|i: int| 0 <= i < muxed.len() implies #[trigger] element(
            packed(literals, width),
            width,
            i,
        ) == literal_length(muxed, long, shape.split, i) % byte_range(width) by {
            law_packed_element_low(literals, width, i);
            assert(mux_values_fit(muxed, long, shape, literals, matches, i));
        }
        assert forall|i: int| 0 <= i < muxed.len() implies #[trigger] element(
            packed(matches, width),
            width,
            i,
        ) == match_length(muxed, long, shape.split, shape.bias, i) % byte_range(width) by {
            law_packed_element_low(matches, width, i);
            assert(mux_values_fit(muxed, long, shape, literals, matches, i));
        }
    }
}

/// Where the value at `index` stands: behind the values in front of it and the runs up to its
/// own.
pub open spec fn sparse_place(distances: StreamView, index: nat) -> nat
    decreases index,
{
    (if index == 0 {
        0
    } else {
        sparse_place(distances, (index - 1) as nat) + 1
    }) + element(distances.bytes, distances.element_width, index as int)
}

proof fn lemma_sparse_places(distances: StreamView, small: nat, large: nat)
    requires
        small <= large,
    ensures
        sparse_place(distances, small) + (large - small) <= sparse_place(distances, large),
    decreases large,
{
    if small < large {
        lemma_sparse_places(distances, small, (large - 1) as nat);
    }
}

proof fn lemma_sparse_values(
    distances: StreamView,
    values: StreamView,
    dominant: u64,
    count: nat,
)
    ensures
        ({
            let all = sparse_values(distances, values, dominant, count);
            &&& count > 0 ==> all.len() == sparse_place(distances, (count - 1) as nat) + 1
            &&& count == 0 ==> all.len() == 0
            &&& forall|k: int|
                0 <= k < count ==> #[trigger] all[sparse_place(distances, k as nat) as int]
                    == element(values.bytes, values.element_width, k) as u64
            &&& forall|p: int|
                0 <= p < all.len() && (forall|k: int|
                    0 <= k < count ==> p != #[trigger] sparse_place(distances, k as nat))
                    ==> #[trigger] all[p] == dominant
        }),
    decreases count,
{
    let all = sparse_values(distances, values, dominant, count);
    if count > 0 {
        let last = (count - 1) as nat;
        let front = sparse_values(distances, values, dominant, last);
        lemma_sparse_values(distances, values, dominant, last);
        let gap = element(distances.bytes, distances.element_width, last as int);
        assert(all.len() == front.len() + gap + 1);
        assert forall|k: int| 0 <= k < count implies #[trigger] all[sparse_place(
            distances,
            k as nat,
        ) as int] == element(values.bytes, values.element_width, k) as u64 by {
            if k < last {
                lemma_sparse_places(distances, k as nat, (last - 1) as nat);
                assert(front[sparse_place(distances, k as nat) as int] == element(
                    values.bytes,
                    values.element_width,
                    k,
                ) as u64);
            }
        }
        assert forall|p: int|
            0 <= p < all.len() && (forall|k: int|
                0 <= k < count ==> p != #[trigger] sparse_place(
                    distances,
                    k as nat,
                )) implies #[trigger] all[p] == dominant by {
            assert(p != sparse_place(distances, last));
            if p < front.len() {
                assert forall|k: int| 0 <= k < last implies p != #[trigger] sparse_place(
                    distances,
                    k as nat,
                ) by {}
                assert(front[p] == dominant);
            }
        }
    }
}

/// A sparse_num node gives each value behind as many dominant ones as its distance says, and
/// the dominant one at every other place; a distance without a value stands for dominant ones
/// at the end.
pub proof fn law_sparse_num_places_values(
    inputs: Seq<StreamView>,
    header: Seq<u8>,
    limits: Limits,
)
    requires
        sparse_num_node(inputs, header, limits) is Ok,
        inputs[0].bytes.len() <= usize::MAX,
        inputs[1].bytes.len() <= usize::MAX,
    ensures
        ({
            let distances = inputs[0];
            let values = inputs[1];
            let width = values.element_width;
            let count = values.bytes.len() / width;
            let runs = distances.bytes.len() / distances.element_width;
            let output = sparse_num_node(inputs, header, limits)->Ok_0;
            let body = if count == 0 {
                0
            } else {
                sparse_place(distances, (count - 1) as nat) + 1
            };
            let total = body + (if runs == count {
                0
            } else {
                element(distances.bytes, distances.element_width, count as int)
            });
            &&& runs == count || runs == count + 1
            &&& output.element_width == width
            &&& output.bytes.len() == total * width
            &&& forall|k: int|
                0 <= k < count ==> element(
                    output.bytes,
                    width,
                    #[trigger] sparse_place(distances, k as nat) as int,
                ) == element(values.bytes, width, k)
            &&& forall|p: int|
                0 <= p < total && (forall|k: int|
                    0 <= k < count ==> p != #[trigger] sparse_place(distances, k as nat))
                    ==> #[trigger] element(output.bytes, width, p) == le_value(header)
        }),
{
    let distances = inputs[0];
    let values = inputs[1];
    let width = values.element_width;
    let count = values.bytes.len() / width;
    let runs = distances.bytes.len() / distances.element_width;
    let dominant = le_value(header) as u64;
    lemma_whole_elements(values.bytes.len(), width);
    lemma_le_value_bound(header);
    lemma_header_below(header.len(), width);
    assert(le_value(header) < byte_range(width));
    lemma_byte_range_values();
    lemma_sparse_values(distances, values, dominant, count);
    let body = sparse_values(distances, values, dominant, count);
    let all = sparse_output(distances, values, dominant);
    lemma_packed_len(all, width);
    let output = packed(all, width);
    assert forall|k: int| 0 <= k < count implies element(
        output,
        width,
        #[trigger] sparse_place(distances, k as nat) as int,
    ) == element(values.bytes, width, k) by {
        let place = sparse_place(distances, k as nat) as int;
        lemma_sparse_places(distances, k as nat, (count - 1) as nat);
        law_packed_element_low(all, width, place);
        assert(all[place] == body[place]);
        lemma_element_inside(k as nat, count, width);
        lemma_element_bound(values.bytes, width, k);
        lemma_numeric_below(element(values.bytes, width, k), width, width);
    }
    assert forall|p: int|
        0 <= p < all.len() && (forall|k: int|
            0 <= k < count ==> p != #[trigger] sparse_place(
                distances,
                k as nat,
            )) implies #[trigger] element(output, width, p) == le_value(header) by {
        law_packed_element_low(all, width, p);
        if p < body.len() {
            assert(body[p] == dominant);
            assert(all[p] == body[p]);
        }
        assert(all[p] == dominant);
        vstd::arithmetic::div_mod::lemma_small_mod(le_value(header), byte_range(width));
    }
}

proof fn lemma_header_below(len: nat, width: nat)
    requires
        len <= width,
    ensures
        byte_range(len) <= byte_range(width),
    decreases width,
{
    if len < width {
        lemma_header_below(len, (width - 1) as nat);
        lemma_range_positive((width - 1) as nat);
    }
}

} // verus!
