//! Where a frame holds what it parses to.

use vstd::prelude::*;

use crate::bits::{bit_at, bit_field, bit_length, lemma_bit_range_monotone, lemma_bit_range_values};
use crate::bytes::{
    group_weight, le_value, lemma_byte_range_values, lemma_le_value_bound, var_u64, var_u64_from,
};
use crate::codecs::xxh3_hash;
use crate::error::ErrorView;
use crate::frame_plan::{ByteRange, ChunkView, FrameInfoView, NodeView};
use crate::limits::Limits;
use crate::parse::{
    bytes_for, chunk_at, chunks_from, dicts_at, distance_bits, flagged_at, flagged_from, frame_plan,
    graph_at, graph_limit, graph_parts_at, header_at, header_total, id_bits, ids_at, ranges_from,
    regen_total, sizes_from, slice_at, stated_node, FrameTotals, GraphParts, HeaderView,
};

verus! {

/// The offset behind the first `count` of some integers from `start` on, of which only those
/// that are there take room.
pub open spec fn integers_end(
    input: Seq<u8>,
    start: nat,
    values: Seq<Option<u64>>,
    count: nat,
) -> nat
    decreases count,
{
    if count == 0 {
        start
    } else {
        let offset = integers_end(input, start, values, (count - 1) as nat);
        if values[count - 1] is Some {
            var_u64(input, offset as int)->Ok_0.1 as nat
        } else {
            offset
        }
    }
}

/// Where the integers of a list with a bitmap start.
pub open spec fn integers_start(offset: nat, values: Seq<Option<u64>>) -> nat {
    offset + (values.len() + 7) / 8
}

/// The offset behind a list with a bitmap.
pub open spec fn list_end(input: Seq<u8>, offset: nat, values: Seq<Option<u64>>) -> nat {
    integers_end(input, integers_start(offset, values), values, values.len())
}

/// Whether the integer at `index` of a list is there, and reads as it should.
pub open spec fn integer_reads(
    input: Seq<u8>,
    offset: nat,
    values: Seq<Option<u64>>,
    index: int,
) -> bool {
    let start = integers_start(offset, values);
    let place = integers_end(input, start, values, index as nat);
    &&& bit_at(input, 8 * offset + index) == values[index] is Some
    &&& values[index] is Some ==> var_u64(input, place as int) == Ok::<(u64, int), ErrorView>(
        (values[index]->Some_0, integers_end(input, start, values, index as nat + 1) as int),
    )
}

/// Whether a list at `offset` holds some values: a bit for each that says whether it is
/// there, then those that are, as variable-length integers.
pub open spec fn list_reads(input: Seq<u8>, offset: nat, values: Seq<Option<u64>>) -> bool {
    &&& integers_start(offset, values) <= input.len()
    &&& forall|i: int|
        0 <= i < values.len() ==> #[trigger] integer_reads(input, offset, values, i)
}

proof fn lemma_bit_inside(bytes: Seq<u8>, start: int, end: int, index: int)
    requires
        0 <= start <= end <= bytes.len(),
        0 <= index < 8 * (end - start),
    ensures
        bit_at(bytes.subrange(start, end), index) == bit_at(bytes, 8 * start + index),
{
    assert((8 * start + index) / 8 == start + index / 8);
    assert((8 * start + index) % 8 == index % 8);
}

proof fn lemma_field_inside(bytes: Seq<u8>, start: int, end: int, index: int, count: nat)
    requires
        0 <= start <= end <= bytes.len(),
        0 <= index,
        index + count <= 8 * (end - start),
    ensures
        bit_field(bytes.subrange(start, end), index, count) == bit_field(
            bytes,
            8 * start + index,
            count,
        ),
    decreases count,
{
    if count > 0 {
        lemma_bit_inside(bytes, start, end, index);
        lemma_field_inside(bytes, start, end, index + 1, (count - 1) as nat);
    }
}

proof fn lemma_integers_prefix(
    input: Seq<u8>,
    start: nat,
    values: Seq<Option<u64>>,
    longer: Seq<Option<u64>>,
    count: nat,
)
    requires
        count <= values.len() <= longer.len(),
        forall|i: int| 0 <= i < values.len() ==> longer[i] == #[trigger] values[i],
    ensures
        integers_end(input, start, values, count) == integers_end(input, start, longer, count),
    decreases count,
{
    if count > 0 {
        lemma_integers_prefix(input, start, values, longer, (count - 1) as nat);
        assert(longer[count - 1] == values[count - 1]);
    }
}

/// Whether the first `done` values are those of a list of `count`.
spec fn front_reads(
    input: Seq<u8>,
    offset: nat,
    start: nat,
    values: Seq<Option<u64>>,
    index: int,
) -> bool {
    let place = integers_end(input, start, values, index as nat);
    &&& bit_at(input, 8 * offset + index) == values[index] is Some
    &&& values[index] is Some ==> var_u64(input, place as int) == Ok::<(u64, int), ErrorView>(
        (values[index]->Some_0, integers_end(input, start, values, index as nat + 1) as int),
    )
}

proof fn lemma_flagged_from(
    input: Seq<u8>,
    offset: nat,
    count: nat,
    limit: nat,
    values: Seq<Option<u64>>,
)
    requires
        values.len() <= count,
        offset + bytes_for(count) <= input.len(),
        forall|i: int|
            0 <= i < values.len() ==> #[trigger] front_reads(
                input,
                offset,
                offset + bytes_for(count),
                values,
                i,
            ),
        flagged_from(
            input,
            input.subrange(offset as int, (offset + bytes_for(count)) as int),
            integers_end(input, offset + bytes_for(count), values, values.len()),
            values.len(),
            count,
            limit,
            values,
        ) is Ok,
    ensures
        ({
            let (all, end) = flagged_from(
                input,
                input.subrange(offset as int, (offset + bytes_for(count)) as int),
                integers_end(input, offset + bytes_for(count), values, values.len()),
                values.len(),
                count,
                limit,
                values,
            )->Ok_0;
            &&& all.len() == count
            &&& end == integers_end(input, offset + bytes_for(count), all, count)
            &&& forall|i: int|
                0 <= i < count ==> #[trigger] front_reads(
                    input,
                    offset,
                    offset + bytes_for(count),
                    all,
                    i,
                )
        }),
    decreases count - values.len(),
{
    let start = offset + bytes_for(count);
    let flags = input.subrange(offset as int, start as int);
    let index = values.len();
    if index < count {
        let place = integers_end(input, start, values, index);
        lemma_bit_inside(input, offset as int, start as int, index as int);
        let value = if bit_at(flags, index as int) {
            Some(var_u64(input, place as int)->Ok_0.0)
        } else {
            None
        };
        let more = values.push(value);
        lemma_integers_prefix(input, start, values, more, index);
        assert forall|i: int| 0 <= i < more.len() implies #[trigger] front_reads(
            input,
            offset,
            start,
            more,
            i,
        ) by {
            if i < index {
                assert(front_reads(input, offset, start, values, i));
                lemma_integers_prefix(input, start, values, more, i as nat);
                lemma_integers_prefix(input, start, values, more, i as nat + 1);
            } else if value is Some {
                lemma_var_end(input, place as int);
            }
        }
        if value is Some {
            lemma_var_end(input, place as int);
        }
        lemma_flagged_from(input, offset, count, limit, more);
    }
}

proof fn lemma_var_from(input: Seq<u8>, start: int, index: nat, value: nat)
    requires
        0 <= start,
        var_u64_from(input, start, index, value) is Ok,
    ensures
        start < var_u64_from(input, start, index, value)->Ok_0.1 <= input.len(),
    decreases 10 - index,
{
    let payload = input[start + index] as nat % 128;
    if input[start + index] >= 128 {
        lemma_var_from(input, start, index + 1, value + payload * group_weight(index));
    }
}

proof fn lemma_var_end(input: Seq<u8>, start: int)
    requires
        0 <= start,
        var_u64(input, start) is Ok,
    ensures
        start < var_u64(input, start)->Ok_0.1 <= input.len(),
{
    lemma_var_from(input, start, 0, 0);
}

/// A list that parses reads as what it parses to.
proof fn lemma_list_reads(input: Seq<u8>, offset: nat, count: nat, limit: nat)
    requires
        flagged_at(input, offset, count, limit) is Ok,
    ensures
        ({
            let (values, end) = flagged_at(input, offset, count, limit)->Ok_0;
            &&& values.len() == count
            &&& list_reads(input, offset, values)
            &&& end == list_end(input, offset, values)
        }),
{
    lemma_flagged_from(input, offset, count, limit, Seq::empty());
    let (values, end) = flagged_at(input, offset, count, limit)->Ok_0;
    assert forall|i: int| 0 <= i < values.len() implies #[trigger] integer_reads(
        input,
        offset,
        values,
        i,
    ) by {
        assert(front_reads(input, offset, offset + bytes_for(count), values, i));
    }
}

/// The number beside a transform that says how long its header is.
pub open spec fn header_sizes(nodes: Seq<NodeView>) -> Seq<Option<u64>> {
    Seq::new(
        nodes.len(),
        |i: int|
            if nodes[i].header_size == 0 {
                None
            } else {
                Some((nodes[i].header_size - 1) as u64)
            },
    )
}

/// The number beside a transform that says how many inputs it has beyond its fixed ones.
pub open spec fn variable_counts(nodes: Seq<NodeView>) -> Seq<Option<u64>> {
    Seq::new(
        nodes.len(),
        |i: int|
            if nodes[i].variable_outputs == 0 {
                None
            } else {
                Some((nodes[i].variable_outputs - 1) as u64)
            },
    )
}

/// The number beside a transform that says how many streams it regenerates: none for one.
pub open spec fn output_counts(nodes: Seq<NodeView>) -> Seq<Option<u64>> {
    Seq::new(
        nodes.len(),
        |i: int|
            if nodes[i].regen_distances.len() == 1 {
                None
            } else {
                Some((nodes[i].regen_distances.len() - 2) as u64)
            },
    )
}

/// The number beside a transform that names its dictionary.
pub open spec fn dictionary_indices(nodes: Seq<NodeView>) -> Seq<Option<u64>> {
    Seq::new(
        nodes.len(),
        |i: int|
            match nodes[i].dict_index {
                None => None,
                Some(index) => Some(index as u64),
            },
    )
}

/// How many streams the first `count` transforms regenerate.
pub open spec fn outputs_before(nodes: Seq<NodeView>, count: nat) -> nat
    decreases count,
{
    if count == 0 {
        0
    } else {
        outputs_before(nodes, (count - 1) as nat) + nodes[count - 1].regen_distances.len()
    }
}

/// How many bytes the headers of the first `count` transforms take.
pub open spec fn headers_before(nodes: Seq<NodeView>, count: nat) -> nat
    decreases count,
{
    if count == 0 {
        0
    } else {
        headers_before(nodes, (count - 1) as nat) + nodes[count - 1].header_size as nat
    }
}

/// How many bits a transform's number takes.
pub open spec fn number_bits(version: u32) -> nat {
    if version >= 24 {
        7
    } else {
        6
    }
}

/// Whether one transform reads as it should: its number at `numbers`, and the distances of
/// its outputs, of `width` bits each, at `distances`.
pub open spec fn node_reads(
    input: Seq<u8>,
    nodes: Seq<NodeView>,
    index: int,
    version: u32,
    numbers: nat,
    distances: nat,
    width: nat,
) -> bool {
    let node = nodes[index];
    let bits = number_bits(version);
    &&& node.standard_id is Some
    &&& node.standard_id->Some_0 == bit_field(input, 8 * numbers + index * bits, bits)
    &&& node.header_start == headers_before(nodes, index as nat)
    &&& node.regen_distances.len() > 0
    &&& forall|k: int|
        0 <= k < node.regen_distances.len() ==> #[trigger] node.regen_distances[k] == bit_field(
            input,
            8 * distances + (outputs_before(nodes, index as nat) + k) * width,
            width,
        )
}

/// Whether the transforms of a chunk read from `offset` to `end`: a clear bit for each; their
/// numbers; four lists, of header sizes, variable inputs, outputs, and dictionaries where the
/// frame has any; and the distances of all outputs, in as many bits as the streams need.
pub open spec fn graph_reads(
    input: Seq<u8>,
    offset: nat,
    nodes: Seq<NodeView>,
    stored: nat,
    version: u32,
    dictionaries: bool,
    end: nat,
) -> bool {
    let count = nodes.len();
    let numbers = offset + (count + 7) / 8;
    let first = numbers + (count * number_bits(version) + 7) / 8;
    let second = list_end(input, first, header_sizes(nodes));
    let third = list_end(input, second, variable_counts(nodes));
    let fourth = list_end(input, third, output_counts(nodes));
    let distances = if dictionaries {
        list_end(input, fourth, dictionary_indices(nodes))
    } else {
        fourth
    };
    let outputs = outputs_before(nodes, count);
    let width = bit_length((stored + outputs - 1) as nat);
    if count == 0 {
        end == offset
    } else {
        &&& first <= input.len()
        &&& forall|i: int| 0 <= i < count ==> !#[trigger] bit_at(input, 8 * offset + i)
        &&& list_reads(input, first, header_sizes(nodes))
        &&& list_reads(input, second, variable_counts(nodes))
        &&& list_reads(input, third, output_counts(nodes))
        &&& dictionaries ==> list_reads(input, fourth, dictionary_indices(nodes))
        &&& !dictionaries ==> forall|i: int|
            0 <= i < count ==> (#[trigger] nodes[i]).dict_index is None
        &&& end == distances + (outputs * width + 7) / 8
        &&& end <= input.len()
        &&& forall|i: int|
            0 <= i < count ==> #[trigger] node_reads(
                input,
                nodes,
                i,
                version,
                numbers,
                distances,
                width,
            )
    }
}

proof fn lemma_totals(
    nodes: Seq<NodeView>,
    parts: GraphParts,
    version: u32,
    distances: Seq<u8>,
    width: nat,
    limits: Limits,
    count: nat,
)
    requires
        count <= nodes.len(),
        nodes == Seq::new(
            nodes.len(),
            |i: int| stated_node(parts, version, distances, width, i),
        ),
        crate::parse::values_below(parts.headers, limits.max_transform_header_bytes as nat),
        parts.headers.len() == nodes.len(),
    ensures
        outputs_before(nodes, count) == regen_total(parts.regens, count),
        headers_before(nodes, count) == header_total(parts.headers, count),
    decreases count,
{
    if count > 0 {
        lemma_totals(nodes, parts, version, distances, width, limits, (count - 1) as nat);
        let last = count - 1;
        assert(nodes[last] == stated_node(parts, version, distances, width, last));
        let stated = parts.headers[last];
        assert(stated is Some ==> stated->Some_0 < limits.max_transform_header_bytes);
    }
}

proof fn lemma_flagged_below(input: Seq<u8>, flags: Seq<u8>, offset: nat, index: nat, count: nat, limit: nat, values: Seq<Option<u64>>)
    requires
        crate::parse::values_below(values, limit),
        flagged_from(input, flags, offset, index, count, limit, values) is Ok,
    ensures
        crate::parse::values_below(
            flagged_from(input, flags, offset, index, count, limit, values)->Ok_0.0,
            limit,
        ),
    decreases count - index,
{
    if index < count {
        if !bit_at(flags, index as int) {
            lemma_flagged_below(
                input,
                flags,
                offset,
                index + 1,
                count,
                limit,
                values.push(None),
            );
        } else {
            let (value, end) = var_u64(input, offset as int)->Ok_0;
            lemma_flagged_below(
                input,
                flags,
                end as nat,
                index + 1,
                count,
                limit,
                values.push(Some(value)),
            );
        }
    }
}

proof fn lemma_below_at(input: Seq<u8>, offset: nat, count: nat, limit: nat)
    requires
        flagged_at(input, offset, count, limit) is Ok,
    ensures
        crate::parse::values_below(flagged_at(input, offset, count, limit)->Ok_0.0, limit),
{
    let (flags, next) = slice_at(input, offset, bytes_for(count))->Ok_0;
    lemma_flagged_below(input, flags, next, 0, count, limit, Seq::empty());
}

proof fn lemma_header_sum_bound(stated: Seq<Option<u64>>, small: nat, large: nat)
    requires
        small <= large,
    ensures
        header_total(stated, small) <= header_total(stated, large),
        regen_total(stated, small) <= regen_total(stated, large),
    decreases large,
{
    if small < large {
        lemma_header_sum_bound(stated, small, (large - 1) as nat);
    }
}

#[verifier::rlimit(60)]
proof fn lemma_graph_reads(
    input: Seq<u8>,
    offset: nat,
    count: nat,
    stored: nat,
    used: nat,
    header: HeaderView,
    limits: Limits,
)
    requires
        graph_at(input, offset, count, stored, used, header, limits) is Ok,
    ensures
        ({
            let (graph, end) = graph_at(
                input,
                offset,
                count,
                stored,
                used,
                header,
                limits,
            )->Ok_0;
            &&& graph.nodes.len() == count
            &&& graph.regenerated == outputs_before(graph.nodes, count)
            &&& graph.header_bytes == headers_before(graph.nodes, count)
            &&& graph_reads(
                input,
                offset,
                graph.nodes,
                stored,
                header.version,
                header.bundle_id is Some,
                end,
            )
        }),
{
    if count > 0 {
        let (graph, end) = graph_at(input, offset, count, stored, used, header, limits)->Ok_0;
        let nodes = graph.nodes;
        let version = header.version;
        let streams = graph_limit(limits.max_streams);
        let (parts, after) = graph_parts_at(input, offset, count, header, limits)->Ok_0;
        let bits = number_bits(version);
        let (ids, first) = ids_at(input, offset, count, version)->Ok_0;
        let numbers = offset + (count + 7) / 8;
        let header_limit = limits.max_transform_header_bytes as nat;
        lemma_list_reads(input, first, count, header_limit);
        lemma_below_at(input, first, count, header_limit);
        let (headers, second) = flagged_at(input, first, count, header_limit)->Ok_0;
        lemma_list_reads(input, second, count, streams);
        lemma_below_at(input, second, count, streams);
        let (variables, third) = flagged_at(input, second, count, streams)->Ok_0;
        lemma_list_reads(input, third, count, streams);
        lemma_below_at(input, third, count, streams);
        let (regens, fourth) = flagged_at(input, third, count, streams)->Ok_0;
        let dictionaries = header.bundle_id is Some;
        let (dicts, fifth) = dicts_at(input, fourth, count, dictionaries)->Ok_0;
        if dictionaries {
            lemma_list_reads(input, fourth, count, 0x1_0000_0000);
            lemma_below_at(input, fourth, count, 0x1_0000_0000);
        }
        let regenerated = regen_total(regens, count);
        let width = distance_bits(stored + regenerated);
        let (distances, last) = slice_at(input, fifth, bytes_for(regenerated * width))->Ok_0;
        assert(nodes =~= Seq::new(
            nodes.len(),
            |i: int| stated_node(parts, version, distances, width, i),
        ));
        lemma_totals(nodes, parts, version, distances, width, limits, count);
        assert forall|i: int| 0 <= i < count implies #[trigger] header_sizes(nodes)[i]
            == headers[i] && variable_counts(nodes)[i] == variables[i] && output_counts(nodes)[i]
            == regens[i] && (dictionaries ==> dictionary_indices(nodes)[i] == dicts[i]) by {
            assert(nodes[i] == stated_node(parts, version, distances, width, i));
            assert(headers[i] is Some ==> headers[i]->Some_0 < header_limit);
            assert(variables[i] is Some ==> variables[i]->Some_0 < streams);
            assert(regens[i] is Some ==> regens[i]->Some_0 < streams);
            if dictionaries {
                assert(dicts[i] is Some ==> dicts[i]->Some_0 < 0x1_0000_0000);
            }
        }
        assert(header_sizes(nodes) =~= headers) by {
            assert forall|i: int| 0 <= i < count implies header_sizes(nodes)[i] == headers[i] by {}
        }
        assert(variable_counts(nodes) =~= variables) by {
            assert forall|i: int| 0 <= i < count implies variable_counts(nodes)[i]
                == variables[i] by {
                assert(header_sizes(nodes)[i] == headers[i]);
            }
        }
        assert(output_counts(nodes) =~= regens) by {
            assert forall|i: int| 0 <= i < count implies output_counts(nodes)[i] == regens[i] by {
                assert(header_sizes(nodes)[i] == headers[i]);
            }
        }
        if dictionaries {
            assert(dictionary_indices(nodes) =~= dicts) by {
                assert forall|i: int| 0 <= i < count implies dictionary_indices(nodes)[i]
                    == dicts[i] by {
                    assert(header_sizes(nodes)[i] == headers[i]);
                }
            }
        }
        let custom = input.subrange(offset as int, numbers as int);
        assert forall|i: int| 0 <= i < count implies !#[trigger] bit_at(input, 8 * offset + i) by {
            lemma_bit_inside(input, offset as int, numbers as int, i);
            assert(!bit_at(custom, i));
        }
        assert(bits == id_bits(version));
        assert(ids == input.subrange(numbers as int, first as int));
        assert forall|i: int| 0 <= i < count implies #[trigger] node_reads(
            input,
            nodes,
            i,
            version,
            numbers,
            fifth,
            width,
        ) by {
            assert(nodes[i] == stated_node(parts, version, distances, width, i));
            lemma_totals(nodes, parts, version, distances, width, limits, i as nat);
            lemma_header_sum_bound(headers, i as nat, count);
            assert(0 <= i * bits && i * bits + bits <= count * bits) by (nonlinear_arith)
                requires
                    0 <= i < count,
            ;
            lemma_field_inside(input, numbers as int, first as int, i * bits, bits);
            crate::bits::lemma_bit_field_bound(ids, i * bits, bits);
            lemma_bit_range_values();
            lemma_bit_range_monotone(bits, 7);
            lemma_header_sum_bound(regens, i as nat + 1, count);
            let before = regen_total(regens, i as nat);
            assert forall|k: int|
                0 <= k
                    < nodes[i].regen_distances.len() implies #[trigger] nodes[i].regen_distances[k]
                == bit_field(
                input,
                8 * fifth + (outputs_before(nodes, i as nat) + k) * width,
                width,
            ) by {
                let place = (before + k) * width;
                assert(0 <= place && place + width <= regenerated * width) by (nonlinear_arith)
                    requires
                        place == (before + k) * width,
                        0 <= before + k,
                        before + k + 1 <= regenerated,
                ;
                lemma_field_inside(input, fifth as int, last as int, place, width);
                crate::bits::lemma_bit_field_bound(distances, place, width);
                lemma_bit_range_values();
                crate::bits::lemma_bit_length_bound((stored + regenerated - 1) as nat, 32);
                lemma_bit_range_monotone(width, 32);
            }
        }
    }
}

/// The offset behind `count` variable-length integers from `start` on.
pub open spec fn sizes_end(input: Seq<u8>, start: nat, count: nat) -> nat
    decreases count,
{
    if count == 0 {
        start
    } else {
        var_u64(input, sizes_end(input, start, (count - 1) as nat) as int)->Ok_0.1 as nat
    }
}

/// Whether the stored stream at `index` reads as it should: its size among those from
/// `sizes` on, and its bytes behind those of the stream in front of it, or behind `first`.
pub open spec fn stored_reads(
    input: Seq<u8>,
    sizes: nat,
    first: nat,
    stored: Seq<ByteRange>,
    index: int,
) -> bool {
    let range = stored[index];
    &&& var_u64(input, sizes_end(input, sizes, index as nat) as int) == Ok::<
        (u64, int),
        ErrorView,
    >(((range.end - range.start) as u64, sizes_end(input, sizes, index as nat + 1) as int))
    &&& range.start <= range.end <= input.len()
    &&& range.start == (if index == 0 {
        first as int
    } else {
        stored[index - 1].end as int
    })
}

/// Whether what follows the transforms of a chunk reads from `middle` to `end`: the sizes of
/// the stored streams, the headers of the transforms, the stored streams, and the checksums
/// that the frame has: of the decoded bytes, and of the chunk from its start to there.
pub open spec fn data_reads(
    input: Seq<u8>,
    chunk: ChunkView,
    start: nat,
    middle: nat,
    decoded: bool,
    encoded: bool,
    end: nat,
) -> bool {
    let count = chunk.stored.len();
    let last = if count == 0 {
        chunk.headers.end as nat
    } else {
        chunk.stored[count - 1].end as nat
    };
    let next = if decoded {
        last + 4
    } else {
        last
    };
    &&& chunk.headers.start == sizes_end(input, middle, count)
    &&& chunk.headers.end == chunk.headers.start + headers_before(chunk.nodes, chunk.nodes.len())
    &&& forall|i: int|
        0 <= i < count ==> #[trigger] stored_reads(
            input,
            middle,
            chunk.headers.end as nat,
            chunk.stored,
            i,
        )
    &&& chunk.decoded_checksum is Some == decoded
    &&& decoded ==> chunk.decoded_checksum->Some_0 == le_value(
        input.subrange(last as int, last as int + 4),
    )
    &&& encoded ==> le_value(input.subrange(next as int, next as int + 4)) == xxh3_hash(
        input.subrange(start as int, next as int),
    ) as int % 0x1_0000_0000
    &&& end == (if encoded {
        next + 4
    } else {
        next
    })
    &&& end <= input.len()
}

/// Whether a chunk reads from `start` to `end`: one more than the number of its transforms,
/// the number of its stored streams, the transforms, and what follows them.
pub open spec fn chunk_reads(
    input: Seq<u8>,
    info: FrameInfoView,
    chunk: ChunkView,
    start: nat,
    end: nat,
) -> bool {
    let (count, first) = var_u64(input, start as int)->Ok_0;
    let (stored, offset) = var_u64(input, first)->Ok_0;
    &&& var_u64(input, start as int) is Ok
    &&& var_u64(input, first) is Ok
    &&& count == chunk.nodes.len() + 1
    &&& stored == chunk.stored.len()
    &&& chunk.regenerated == outputs_before(chunk.nodes, chunk.nodes.len())
    &&& exists|middle: nat|
        {
            &&& #[trigger] graph_reads(
                input,
                offset as nat,
                chunk.nodes,
                chunk.stored.len(),
                info.format_version,
                info.dictionary_bundle_id is Some,
                middle,
            )
            &&& data_reads(
                input,
                chunk,
                start,
                middle,
                info.has_decoded_checksum,
                info.has_encoded_checksum,
                end,
            )
        }
}

/// Whether the start of a frame reads as it should, up to `end`: the magic number plus the
/// format version; flags for checksums of decoded and of encoded bytes and for a dictionary
/// bundle; its identifier behind its length; the kind of the output; one more than its size,
/// or zero; and the low byte of the hash of all that, where encoded bytes have checksums.
pub open spec fn header_reads(input: Seq<u8>, info: FrameInfoView, end: nat) -> bool {
    let flags = input[4] as int;
    let kind = if info.dictionary_bundle_id is Some {
        6 + input[5] as int
    } else {
        5
    };
    let (size, next) = var_u64(input, kind + 1)->Ok_0;
    &&& end <= input.len()
    &&& le_value(input.subrange(0, 4)) == 0xd7b1_a5c0 + info.format_version
    &&& 21 <= info.format_version <= 27
    &&& flags < 16
    &&& info.has_decoded_checksum == (flags % 2 == 1)
    &&& info.has_encoded_checksum == (flags / 2 % 2 == 1)
    &&& flags / 4 % 2 == 0
    &&& info.dictionary_bundle_id is Some == (flags / 8 % 2 == 1)
    &&& info.dictionary_bundle_id is Some ==> info.dictionary_bundle_id->Some_0 == input.subrange(
        6,
        kind,
    )
    &&& input[kind] == 1
    &&& var_u64(input, kind + 1) is Ok
    &&& info.decoded_bytes == (if size == 0 {
        None
    } else {
        Some((size - 1) as usize)
    })
    &&& size == 0 || size - 1 <= usize::MAX
    &&& info.has_encoded_checksum ==> input[next] == xxh3_hash(input.subrange(0, next)) as int
        % 256
    &&& end == (if info.has_encoded_checksum {
        next + 1
    } else {
        next
    })
}

/// Whether chunks read one behind the other, each from its place in `starts`.
pub open spec fn chunks_read(
    input: Seq<u8>,
    info: FrameInfoView,
    chunks: Seq<ChunkView>,
    starts: Seq<nat>,
) -> bool {
    &&& starts.len() == chunks.len() + 1
    &&& forall|i: int|
        0 <= i < chunks.len() ==> #[trigger] chunk_reads(
            input,
            info,
            chunks[i],
            starts[i],
            starts[i + 1],
        )
}

proof fn lemma_sizes(
    input: Seq<u8>,
    start: nat,
    done: nat,
    left: nat,
    limit: usize,
    sizes: Seq<usize>,
)
    requires
        sizes.len() == done,
        forall|i: int|
            0 <= i < done ==> var_u64(input, sizes_end(input, start, i as nat) as int) == Ok::<
                (u64, int),
                ErrorView,
            >((#[trigger] sizes[i] as u64, sizes_end(input, start, i as nat + 1) as int)),
        sizes_from(input, sizes_end(input, start, done), left, limit, sizes) is Ok,
    ensures
        ({
            let (all, end) = sizes_from(
                input,
                sizes_end(input, start, done),
                left,
                limit,
                sizes,
            )->Ok_0;
            &&& all.len() == done + left
            &&& end == sizes_end(input, start, done + left)
            &&& forall|i: int|
                0 <= i < all.len() ==> var_u64(
                    input,
                    sizes_end(input, start, i as nat) as int,
                ) == Ok::<(u64, int), ErrorView>(
                    (#[trigger] all[i] as u64, sizes_end(input, start, i as nat + 1) as int),
                )
        }),
    decreases left,
{
    if left > 0 {
        let place = sizes_end(input, start, done);
        let (size, end) = var_u64(input, place as int)->Ok_0;
        lemma_var_end(input, place as int);
        lemma_sizes(input, start, done + 1, (left - 1) as nat, limit, sizes.push(size as usize));
    }
}

/// Whether a range is that of a size behind the range in front of it.
spec fn range_fits(
    input: Seq<u8>,
    sizes: Seq<usize>,
    first: nat,
    ranges: Seq<ByteRange>,
    index: int,
) -> bool {
    let range = ranges[index];
    &&& range.start + sizes[index] == range.end
    &&& range.end <= input.len()
    &&& range.start == (if index == 0 {
        first as int
    } else {
        ranges[index - 1].end as int
    })
}

proof fn lemma_ranges(
    input: Seq<u8>,
    sizes: Seq<usize>,
    first: nat,
    offset: nat,
    ranges: Seq<ByteRange>,
)
    requires
        input.len() <= usize::MAX,
        ranges.len() <= sizes.len(),
        offset <= input.len(),
        offset == (if ranges.len() == 0 {
            first
        } else {
            ranges.last().end as nat
        }),
        forall|i: int|
            0 <= i < ranges.len() ==> #[trigger] range_fits(input, sizes, first, ranges, i),
        ranges_from(input, sizes, ranges.len(), offset, ranges) is Ok,
    ensures
        ({
            let (all, end) = ranges_from(input, sizes, ranges.len(), offset, ranges)->Ok_0;
            &&& all.len() == sizes.len()
            &&& end <= input.len()
            &&& end == (if all.len() == 0 {
                first
            } else {
                all.last().end as nat
            })
            &&& forall|i: int|
                0 <= i < all.len() ==> #[trigger] range_fits(input, sizes, first, all, i)
        }),
    decreases sizes.len() - ranges.len(),
{
    let index = ranges.len();
    if index < sizes.len() {
        let end = offset + sizes[index as int] as nat;
        let more = ranges.push(ByteRange { start: offset as usize, end: end as usize });
        assert forall|i: int| 0 <= i < more.len() implies #[trigger] range_fits(
            input,
            sizes,
            first,
            more,
            i,
        ) by {
            if i < index {
                assert(range_fits(input, sizes, first, ranges, i));
            }
        }
        lemma_ranges(input, sizes, first, end, more);
    }
}

proof fn lemma_chunk_reads(
    input: Seq<u8>,
    start: nat,
    count: nat,
    used: nat,
    header: HeaderView,
    limits: Limits,
    info: FrameInfoView,
)
    requires
        input.len() <= usize::MAX,
        var_u64(input, start as int) is Ok,
        var_u64(input, start as int)->Ok_0.0 == count + 1,
        info.format_version == header.version,
        info.dictionary_bundle_id is Some == header.bundle_id is Some,
        info.has_decoded_checksum == header.decoded_checksum,
        info.has_encoded_checksum == header.encoded_checksum,
        chunk_at(
            input,
            start,
            var_u64(input, start as int)->Ok_0.1 as nat,
            count,
            used,
            header,
            limits,
        ) is Ok,
    ensures
        ({
            let (chunk, end) = chunk_at(
                input,
                start,
                var_u64(input, start as int)->Ok_0.1 as nat,
                count,
                used,
                header,
                limits,
            )->Ok_0;
            chunk_reads(input, info, chunk, start, end)
        }),
{
    reveal(chunk_at);
    lemma_var_end(input, start as int);
    let first = var_u64(input, start as int)->Ok_0.1;
    lemma_var_end(input, first);
    let (stored, offset) = var_u64(input, first)->Ok_0;
    let (chunk, end) = chunk_at(
        input,
        start,
        first as nat,
        count,
        used,
        header,
        limits,
    )->Ok_0;
    lemma_graph_reads(input, offset as nat, count, stored as nat, used, header, limits);
    let (graph, middle) = graph_at(
        input,
        offset as nat,
        count,
        stored as nat,
        used,
        header,
        limits,
    )->Ok_0;
    lemma_sizes(input, middle, 0, stored as nat, limits.max_stored_stream_bytes, Seq::empty());
    let (sizes, headers) = sizes_from(
        input,
        middle,
        stored as nat,
        limits.max_stored_stream_bytes,
        Seq::empty(),
    )->Ok_0;
    let (bytes, place) = slice_at(input, headers, graph.header_bytes)->Ok_0;
    lemma_ranges(input, sizes, place, place, Seq::empty());
    let (ranges, last) = ranges_from(input, sizes, 0, place, Seq::empty())->Ok_0;
    assert(chunk.stored == ranges);
    assert forall|i: int| 0 <= i < ranges.len() implies #[trigger] stored_reads(
        input,
        middle,
        chunk.headers.end as nat,
        chunk.stored,
        i,
    ) by {
        assert(range_fits(input, sizes, place, ranges, i));
        assert(var_u64(input, sizes_end(input, middle, i as nat) as int) == Ok::<
            (u64, int),
            ErrorView,
        >((sizes[i] as u64, sizes_end(input, middle, i as nat + 1) as int)));
    }
    lemma_byte_range_values();
    if header.decoded_checksum {
        lemma_le_value_bound(input.subrange(last as int, last as int + 4));
    }
    assert(graph_reads(
        input,
        offset as nat,
        chunk.nodes,
        chunk.stored.len(),
        info.format_version,
        info.dictionary_bundle_id is Some,
        middle,
    ));
    lemma_regenerated(input, offset as nat, count, stored as nat, used, header, limits);
    assert(data_reads(
        input,
        chunk,
        start,
        middle,
        info.has_decoded_checksum,
        info.has_encoded_checksum,
        end,
    ));
}

proof fn lemma_regenerated(
    input: Seq<u8>,
    offset: nat,
    count: nat,
    stored: nat,
    used: nat,
    header: HeaderView,
    limits: Limits,
)
    requires
        graph_at(input, offset, count, stored, used, header, limits) is Ok,
    ensures
        graph_at(input, offset, count, stored, used, header, limits)->Ok_0.0.regenerated
            <= usize::MAX,
{
}

proof fn lemma_chunks(
    input: Seq<u8>,
    header: HeaderView,
    limits: Limits,
    offset: nat,
    totals: FrameTotals,
    chunks: Seq<ChunkView>,
    info: FrameInfoView,
    starts: Seq<nat>,
) -> (all: Seq<nat>)
    requires
        input.len() <= usize::MAX,
        info.format_version == header.version,
        info.dictionary_bundle_id is Some == header.bundle_id is Some,
        info.has_decoded_checksum == header.decoded_checksum,
        info.has_encoded_checksum == header.encoded_checksum,
        chunks_read(input, info, chunks, starts),
        starts.last() == offset,
        chunks_from(input, header, limits, offset, totals, chunks) is Ok,
    ensures
        ({
            let parsed = chunks_from(input, header, limits, offset, totals, chunks)->Ok_0.0;
            &&& chunks_read(input, info, parsed, all)
            &&& all[0] == starts[0]
            &&& var_u64(input, all.last() as int) == Ok::<(u64, int), ErrorView>(
                (0u64, input.len() as int),
            )
        }),
    decreases limits.max_chunks - chunks.len(),
{
    let (stated, next) = var_u64(input, offset as int)->Ok_0;
    if stated == 0 {
        starts
    } else {
        let count = (stated - 1) as nat;
        let used = totals.stored + totals.regenerated;
        lemma_chunk_reads(input, offset, count, used, header, limits, info);
        let (chunk, end) =
            chunk_at(input, offset, next as nat, count, used, header, limits)->Ok_0;
        let more = chunks.push(chunk);
        let places = starts.push(end);
        assert forall|i: int| 0 <= i < more.len() implies #[trigger] chunk_reads(
            input,
            info,
            more[i],
            places[i],
            places[i + 1],
        ) by {
            if i < chunks.len() {
                assert(chunk_reads(input, info, chunks[i], starts[i], starts[i + 1]));
            }
        }
        lemma_chunks(
            input,
            header,
            limits,
            end,
            FrameTotals {
                transforms: (totals.transforms + stated - 1) as nat,
                stored: totals.stored + chunk.stored.len(),
                regenerated: totals.regenerated + chunk.regenerated as nat,
            },
            more,
            info,
            places,
        )
    }
}

/// A frame that parses holds what it parses to: its header in front, its chunks one behind
/// the other, each from its place in `starts`, and a zero at the very end.
pub proof fn law_frame_holds_what_it_parses_to(input: Seq<u8>, limits: Limits) -> (starts: Seq<
    nat,
>)
    requires
        frame_plan(input, limits) is Ok,
    ensures
        ({
            let plan = frame_plan(input, limits)->Ok_0;
            &&& header_reads(input, plan.info, plan.info.header_bytes as nat)
            &&& chunks_read(input, plan.info, plan.chunks, starts)
            &&& starts[0] == plan.info.header_bytes
            &&& var_u64(input, starts.last() as int) == Ok::<(u64, int), ErrorView>(
                (0u64, input.len() as int),
            )
            &&& plan.info.frame_bytes == input.len()
        }),
{
    let plan = frame_plan(input, limits)->Ok_0;
    let (header, offset) = header_at(input)->Ok_0;
    let info = plan.info;
    let kind = if header.bundle_id is Some {
        6 + input[5] as int
    } else {
        5
    };
    lemma_var_end(input, kind + 1);
    assert(header_reads(input, info, offset));
    let none = Seq::<ChunkView>::empty();
    lemma_chunks(
        input,
        header,
        limits,
        offset,
        FrameTotals { transforms: 0, stored: 0, regenerated: 0 },
        none,
        info,
        seq![offset],
    )
}

} // verus!
