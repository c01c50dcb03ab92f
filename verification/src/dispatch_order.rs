//! What dispatching is for: every source is used up in its order, and each piece of the
//! output comes from the source that is named for it.

use vstd::prelude::*;

use crate::dispatch::{
    dispatch_complete, dispatch_from, dispatch_index_width, dispatch_n_by_tag_node, dispatch_shape,
    dispatch_start, dispatch_step, dispatch_string_node, dispatch_string_serial, segment_at,
    segment_shape, segment_source_total, segments_from, source_used, tag_totals, DispatchState,
};
use crate::error::ErrorView;
use crate::limits::Limits;
use crate::stream::{
    element, lemma_element_inside, lemma_whole_elements, numeric_width, sum_lengths, StreamView,
};

verus! {

/// The sizes of the first `count` segments, added up.
pub open spec fn sizes_before(sizes: StreamView, count: nat) -> nat
    decreases count,
{
    if count == 0 {
        0
    } else {
        sizes_before(sizes, (count - 1) as nat) + element(
            sizes.bytes,
            sizes.element_width,
            count - 1,
        )
    }
}

/// The segments of the output with one tag, among the first `count`, put end to end.
pub open spec fn segments_of(
    tags: StreamView,
    sizes: StreamView,
    output: Seq<u8>,
    tag: nat,
    count: nat,
) -> Seq<u8>
    decreases count,
{
    if count == 0 {
        Seq::empty()
    } else {
        let front = segments_of(tags, sizes, output, tag, (count - 1) as nat);
        if element(tags.bytes, tags.element_width, count - 1) == tag {
            front + output.subrange(
                sizes_before(sizes, (count - 1) as nat) as int,
                sizes_before(sizes, count) as int,
            )
        } else {
            front
        }
    }
}

/// Whether an output consists of `count` segments of the given sizes, and its segments with
/// the tag of a source, put end to end, are that source.
pub open spec fn dispatched_by_tag(
    tags: StreamView,
    sizes: StreamView,
    sources: Seq<StreamView>,
    count: nat,
    output: Seq<u8>,
) -> bool {
    &&& output.len() == sizes_before(sizes, count)
    &&& forall|i: int|
        0 <= i < count ==> (#[trigger] element(tags.bytes, tags.element_width, i)) < sources.len()
    &&& forall|t: int|
        0 <= t < sources.len() ==> segments_of(tags, sizes, output, t as nat, count) == (
        #[trigger] sources[t]).bytes
}

proof fn lemma_sizes_grow(sizes: StreamView, small: nat, large: nat)
    requires
        small <= large,
    ensures
        sizes_before(sizes, small) <= sizes_before(sizes, large),
    decreases large,
{
    if small < large {
        lemma_sizes_grow(sizes, small, (large - 1) as nat);
    }
}

/// More output behind them does not change the first segments.
proof fn lemma_segments_keep(
    tags: StreamView,
    sizes: StreamView,
    output: Seq<u8>,
    longer: Seq<u8>,
    tag: nat,
    count: nat,
)
    requires
        sizes_before(sizes, count) <= output.len(),
        output.len() <= longer.len(),
        longer.take(output.len() as int) == output,
    ensures
        segments_of(tags, sizes, longer, tag, count) == segments_of(
            tags,
            sizes,
            output,
            tag,
            count,
        ),
    decreases count,
{
    if count > 0 {
        lemma_sizes_grow(sizes, (count - 1) as nat, count);
        lemma_segments_keep(tags, sizes, output, longer, tag, (count - 1) as nat);
        let start = sizes_before(sizes, (count - 1) as nat) as int;
        let end = sizes_before(sizes, count) as int;
        assert(longer.subrange(start, end) =~= longer.take(output.len() as int).subrange(
            start,
            end,
        ));
    }
}

/// The segments with a tag among fewer ones are the beginning of those among more.
proof fn lemma_segments_prefix(
    tags: StreamView,
    sizes: StreamView,
    output: Seq<u8>,
    tag: nat,
    small: nat,
    large: nat,
)
    requires
        small <= large,
        sizes_before(sizes, large) <= output.len(),
    ensures
        ({
            let front = segments_of(tags, sizes, output, tag, small);
            let all = segments_of(tags, sizes, output, tag, large);
            &&& front.len() <= all.len()
            &&& all.take(front.len() as int) == front
        }),
    decreases large,
{
    let front = segments_of(tags, sizes, output, tag, small);
    if small < large {
        lemma_sizes_grow(sizes, (large - 1) as nat, large);
        lemma_segments_prefix(tags, sizes, output, tag, small, (large - 1) as nat);
        let shorter = segments_of(tags, sizes, output, tag, (large - 1) as nat);
        let all = segments_of(tags, sizes, output, tag, large);
        assert(all.take(front.len() as int) =~= shorter.take(front.len() as int));
    } else {
        assert(front.take(front.len() as int) =~= front);
    }
}

/// How far each source was used by the first `index` segments.
spec fn used_up(
    tags: StreamView,
    sizes: StreamView,
    sources: Seq<StreamView>,
    index: nat,
    positions: Seq<nat>,
    output: Seq<u8>,
) -> bool {
    &&& positions.len() == sources.len()
    &&& output.len() == sizes_before(sizes, index)
    &&& forall|i: int|
        0 <= i < index ==> (#[trigger] element(tags.bytes, tags.element_width, i)) < sources.len()
    &&& forall|t: int|
        0 <= t < sources.len() ==> {
            &&& (#[trigger] positions[t]) <= sources[t].bytes.len()
            &&& segments_of(tags, sizes, output, t as nat, index) == sources[t].bytes.take(
                positions[t] as int,
            )
        }
}

proof fn lemma_segments_use_sources(
    tags: StreamView,
    sizes: StreamView,
    sources: Seq<StreamView>,
    count: nat,
    total: nat,
    index: nat,
    positions: Seq<nat>,
    output: Seq<u8>,
) -> (done: Seq<nat>)
    requires
        index <= count,
        used_up(tags, sizes, sources, index, positions, output),
        segments_from(tags, sizes, sources, count, total, index, positions, output) is Ok,
    ensures
        used_up(
            tags,
            sizes,
            sources,
            count,
            done,
            segments_from(
                tags,
                sizes,
                sources,
                count,
                total,
                index,
                positions,
                output,
            )->Ok_0,
        ),
    decreases count - index,
{
    if index >= count {
        positions
    } else {
        let (tag, size) = segment_at(tags, sizes, index as int)->Ok_0;
        let start = positions[tag as int];
        let end = start + size as nat;
        let piece = sources[tag as int].bytes.subrange(start as int, end as int);
        let longer = output + piece;
        let next = positions.update(tag as int, end);
        assert(longer.take(output.len() as int) =~= output);
        assert forall|t: int| 0 <= t < sources.len() implies {
            &&& (#[trigger] next[t]) <= sources[t].bytes.len()
            &&& segments_of(tags, sizes, longer, t as nat, index + 1) == sources[t].bytes.take(
                next[t] as int,
            )
        } by {
            assert(positions[t] <= sources[t].bytes.len());
            lemma_segments_keep(tags, sizes, output, longer, t as nat, index);
            assert(longer.subrange(output.len() as int, longer.len() as int) =~= piece);
            if t == tag {
                assert(sources[t].bytes.take(start as int) + piece =~= sources[t].bytes.take(
                    end as int,
                ));
            }
        }
        lemma_segments_use_sources(
            tags,
            sizes,
            sources,
            count,
            total,
            index + 1,
            next,
            longer,
        )
    }
}

/// How many bytes the segments with a tag have, among the first `count`.
spec fn tag_size(tags: StreamView, sizes: StreamView, tag: nat, count: nat) -> nat
    decreases count,
{
    if count == 0 {
        0
    } else {
        tag_size(tags, sizes, tag, (count - 1) as nat) + (if element(
            tags.bytes,
            tags.element_width,
            count - 1,
        ) == tag {
            element(sizes.bytes, sizes.element_width, count - 1)
        } else {
            0
        })
    }
}

proof fn lemma_segments_size(
    tags: StreamView,
    sizes: StreamView,
    output: Seq<u8>,
    tag: nat,
    count: nat,
)
    requires
        sizes_before(sizes, count) <= output.len(),
    ensures
        segments_of(tags, sizes, output, tag, count).len() == tag_size(tags, sizes, tag, count),
    decreases count,
{
    if count > 0 {
        lemma_sizes_grow(sizes, (count - 1) as nat, count);
        lemma_segments_size(tags, sizes, output, tag, (count - 1) as nat);
    }
}

proof fn lemma_tag_totals(
    tags: StreamView,
    sizes: StreamView,
    count: nat,
    index: nat,
    totals: Seq<nat>,
)
    requires
        index <= count,
        forall|t: int|
            0 <= t < totals.len() ==> (#[trigger] totals[t]) == tag_size(
                tags,
                sizes,
                t as nat,
                index,
            ),
        tag_totals(tags, sizes, count, index, totals) is Ok,
    ensures
        ({
            let all = tag_totals(tags, sizes, count, index, totals)->Ok_0;
            &&& all.len() == totals.len()
            &&& forall|t: int|
                0 <= t < all.len() ==> (#[trigger] all[t]) == tag_size(
                    tags,
                    sizes,
                    t as nat,
                    count,
                )
        }),
    decreases count - index,
{
    if index < count {
        let (tag, size) = segment_at(tags, sizes, index as int)->Ok_0;
        lemma_tag_totals(
            tags,
            sizes,
            count,
            index + 1,
            totals.update(tag as int, totals[tag as int] + size as nat),
        );
    }
}

/// A dispatchN_byTag node that decodes uses every source once and in order: the segments of
/// its output that have the tag of a source, put end to end, are that source.
pub proof fn law_tagged_segments_are_their_source(
    inputs: Seq<StreamView>,
    variable_inputs: u32,
    header: Seq<u8>,
    format_version: u32,
    limits: Limits,
)
    requires
        inputs[1].bytes.len() <= usize::MAX,
        dispatch_n_by_tag_node(inputs, variable_inputs, header, format_version, limits) is Ok,
    ensures
        dispatched_by_tag(
            inputs[0],
            inputs[1],
            inputs.skip(2),
            inputs[1].bytes.len() / inputs[1].element_width,
            dispatch_n_by_tag_node(
                inputs,
                variable_inputs,
                header,
                format_version,
                limits,
            )->Ok_0,
        ),
{
    let tags = inputs[0];
    let sizes = inputs[1];
    let sources = inputs.skip(2);
    let count = segment_shape(inputs, variable_inputs, header, format_version)->Ok_0 as nat;
    let total = segment_source_total(sources, 0, 0)->Ok_0;
    let zeros = Seq::new(sources.len(), |i: int| 0nat);
    lemma_whole_elements(sizes.bytes.len(), sizes.element_width);
    let output = segments_from(
        tags,
        sizes,
        sources,
        count,
        total,
        0,
        zeros,
        Seq::empty(),
    )->Ok_0;
    assert forall|t: int| 0 <= t < sources.len() implies {
        &&& (#[trigger] zeros[t]) <= sources[t].bytes.len()
        &&& segments_of(tags, sizes, Seq::<u8>::empty(), t as nat, 0) == sources[t].bytes.take(
            zeros[t] as int,
        )
    } by {
        assert(sources[t].bytes.take(0) =~= Seq::<u8>::empty());
    }
    let done = lemma_segments_use_sources(
        tags,
        sizes,
        sources,
        count,
        total,
        0,
        zeros,
        Seq::empty(),
    );
    lemma_tag_totals(tags, sizes, count, 0, zeros);
    let totals = tag_totals(tags, sizes, count, 0, zeros)->Ok_0;
    assert forall|t: int| 0 <= t < sources.len() implies segments_of(
        tags,
        sizes,
        output,
        t as nat,
        count,
    ) == (#[trigger] sources[t]).bytes by {
        assert(done[t] <= sources[t].bytes.len());
        assert(totals[t] == tag_size(tags, sizes, t as nat, count));
        lemma_segments_size(tags, sizes, output, t as nat, count);
        assert(sources[t].bytes.take(sources[t].bytes.len() as int) =~= sources[t].bytes);
    }
}

proof fn lemma_segments_taken(
    tags: StreamView,
    sizes: StreamView,
    sources: Seq<StreamView>,
    count: nat,
    index: nat,
    positions: Seq<nat>,
    output: Seq<u8>,
)
    requires
        index <= count,
        count * tags.element_width <= tags.bytes.len() <= usize::MAX,
        count * sizes.element_width <= sizes.bytes.len() <= usize::MAX,
        numeric_width(tags.element_width as int),
        numeric_width(sizes.element_width as int),
        sources.len() <= usize::MAX,
        output.len() <= usize::MAX,
        dispatched_by_tag(tags, sizes, sources, count, output),
        positions.len() == sources.len(),
        forall|t: int|
            0 <= t < sources.len() ==> (#[trigger] positions[t]) == segments_of(
                tags,
                sizes,
                output,
                t as nat,
                index,
            ).len(),
    ensures
        segments_from(
            tags,
            sizes,
            sources,
            count,
            output.len(),
            index,
            positions,
            output.take(sizes_before(sizes, index) as int),
        ) == Ok::<Seq<u8>, ErrorView>(output),
    decreases count - index,
{
    lemma_sizes_grow(sizes, index, count);
    let written = output.take(sizes_before(sizes, index) as int);
    if index < count {
        lemma_element_inside(index, count, tags.element_width);
        lemma_element_inside(index, count, sizes.element_width);
        lemma_sizes_grow(sizes, index + 1, count);
        let tag = element(tags.bytes, tags.element_width, index as int);
        let size = element(sizes.bytes, sizes.element_width, index as int);
        assert(sizes_before(sizes, index + 1) == sizes_before(sizes, index) + size);
        let bytes = sources[tag as int].bytes;
        let start = positions[tag as int];
        let end = start + size;
        lemma_segments_short(tags, sizes, output, tag, count);
        assert(segment_at(tags, sizes, index as int) == Ok::<(usize, usize), ErrorView>(
            (tag as usize, size as usize),
        ));
        lemma_segments_prefix(tags, sizes, output, tag, index + 1, count);
        lemma_segments_prefix(tags, sizes, output, tag, index, index + 1);
        let piece = output.subrange(
            sizes_before(sizes, index) as int,
            sizes_before(sizes, index + 1) as int,
        );
        let front = segments_of(tags, sizes, output, tag, index);
        let all = segments_of(tags, sizes, output, tag, index + 1);
        assert(all == front + piece);
        assert(bytes.take(all.len() as int) == all);
        assert(bytes.subrange(start as int, end as int) =~= bytes.take(all.len() as int).subrange(
            start as int,
            end as int,
        ));
        assert((front + piece).subrange(start as int, end as int) =~= piece);
        assert(written + piece =~= output.take(sizes_before(sizes, index + 1) as int));
        let next = positions.update(tag as int, end);
        assert forall|t: int| 0 <= t < sources.len() implies (#[trigger] next[t]) == segments_of(
            tags,
            sizes,
            output,
            t as nat,
            index + 1,
        ).len() by {
            assert(positions[t] == segments_of(tags, sizes, output, t as nat, index).len());
        }
        lemma_segments_taken(tags, sizes, sources, count, index + 1, next, output);
    } else {
        assert(written =~= output);
    }
}

proof fn lemma_totals_taken(
    tags: StreamView,
    sizes: StreamView,
    sources: Seq<StreamView>,
    count: nat,
    index: nat,
    totals: Seq<nat>,
    output: Seq<u8>,
)
    requires
        index <= count,
        count * tags.element_width <= tags.bytes.len() <= usize::MAX,
        count * sizes.element_width <= sizes.bytes.len() <= usize::MAX,
        numeric_width(tags.element_width as int),
        numeric_width(sizes.element_width as int),
        sources.len() <= usize::MAX,
        output.len() <= usize::MAX,
        dispatched_by_tag(tags, sizes, sources, count, output),
        totals.len() == sources.len(),
        forall|t: int|
            0 <= t < sources.len() ==> (#[trigger] totals[t]) == segments_of(
                tags,
                sizes,
                output,
                t as nat,
                index,
            ).len(),
    ensures
        tag_totals(tags, sizes, count, index, totals) == Ok::<Seq<nat>, ErrorView>(
            Seq::new(sources.len(), |i: int| sources[i].bytes.len()),
        ),
    decreases count - index,
{
    lemma_sizes_grow(sizes, index, count);
    if index < count {
        lemma_element_inside(index, count, tags.element_width);
        lemma_element_inside(index, count, sizes.element_width);
        lemma_sizes_grow(sizes, index + 1, count);
        let tag = element(tags.bytes, tags.element_width, index as int);
        let size = element(sizes.bytes, sizes.element_width, index as int);
        assert(sizes_before(sizes, index + 1) == sizes_before(sizes, index) + size);
        lemma_segments_prefix(tags, sizes, output, tag, index + 1, count);
        let next = totals.update(tag as int, totals[tag as int] + size);
        assert(totals[tag as int] == segments_of(tags, sizes, output, tag, index).len());
        assert(sources[tag as int].bytes == segments_of(tags, sizes, output, tag, count));
        lemma_segments_short(tags, sizes, output, tag, count);
        assert forall|t: int| 0 <= t < sources.len() implies (#[trigger] next[t]) == segments_of(
            tags,
            sizes,
            output,
            t as nat,
            index + 1,
        ).len() by {
            assert(totals[t] == segments_of(tags, sizes, output, t as nat, index).len());
        }
        lemma_totals_taken(tags, sizes, sources, count, index + 1, next, output);
    } else {
        assert forall|t: int| 0 <= t < sources.len() implies (#[trigger] totals[t])
            == sources[t].bytes.len() by {
            assert(sources[t].bytes == segments_of(tags, sizes, output, t as nat, count));
        }
        assert(totals =~= Seq::new(sources.len(), |i: int| sources[i].bytes.len()));
    }
}

proof fn lemma_segments_short(
    tags: StreamView,
    sizes: StreamView,
    output: Seq<u8>,
    tag: nat,
    count: nat,
)
    requires
        sizes_before(sizes, count) <= output.len(),
    ensures
        segments_of(tags, sizes, output, tag, count).len() <= sizes_before(sizes, count),
    decreases count,
{
    if count > 0 {
        lemma_sizes_grow(sizes, (count - 1) as nat, count);
        lemma_segments_short(tags, sizes, output, tag, (count - 1) as nat);
    }
}

/// An output whose segments with the tag of a source, put end to end, are that source is
/// what a dispatchN_byTag node gives, where its shape and the size of the sources are
/// admitted.
pub proof fn law_tagged_output_is_put_back(
    inputs: Seq<StreamView>,
    variable_inputs: u32,
    header: Seq<u8>,
    format_version: u32,
    limits: Limits,
    output: Seq<u8>,
)
    requires
        inputs[0].bytes.len() <= usize::MAX,
        inputs[1].bytes.len() <= usize::MAX,
        segment_shape(inputs, variable_inputs, header, format_version) is Ok,
        segment_source_total(inputs.skip(2), 0, 0) == Ok::<nat, ErrorView>(output.len()),
        limits.admits(output.len() as int),
        dispatched_by_tag(
            inputs[0],
            inputs[1],
            inputs.skip(2),
            inputs[1].bytes.len() / inputs[1].element_width,
            output,
        ),
    ensures
        dispatch_n_by_tag_node(inputs, variable_inputs, header, format_version, limits) == Ok::<
            Seq<u8>,
            ErrorView,
        >(output),
{
    let tags = inputs[0];
    let sizes = inputs[1];
    let sources = inputs.skip(2);
    let count = segment_shape(inputs, variable_inputs, header, format_version)->Ok_0 as nat;
    let zeros = Seq::new(sources.len(), |i: int| 0nat);
    lemma_whole_elements(sizes.bytes.len(), sizes.element_width);
    lemma_whole_elements(tags.bytes.len(), tags.element_width);
    lemma_totals_taken(tags, sizes, sources, count, 0, zeros, output);
    lemma_segments_taken(tags, sizes, sources, count, 0, zeros, output);
    assert(output.take(0) =~= Seq::empty());
}

/// Where string `index` of a list of strings starts.
pub open spec fn string_start(lengths: Seq<u32>, index: int) -> nat {
    sum_lengths(lengths.take(index))
}

/// String `index` of a list of strings.
pub open spec fn string_at(bytes: Seq<u8>, lengths: Seq<u32>, index: int) -> Seq<u8> {
    bytes.subrange(
        string_start(lengths, index) as int,
        string_start(lengths, index) + lengths[index] as int,
    )
}

/// The strings that come from one source, among the first `count`, put end to end.
pub open spec fn strings_from(
    indices: StreamView,
    bytes: Seq<u8>,
    lengths: Seq<u32>,
    source: nat,
    count: nat,
) -> Seq<u8>
    decreases count,
{
    if count == 0 {
        Seq::empty()
    } else {
        let front = strings_from(indices, bytes, lengths, source, (count - 1) as nat);
        if element(indices.bytes, indices.element_width, count - 1) == source {
            front + string_at(bytes, lengths, count - 1)
        } else {
            front
        }
    }
}

/// The lengths of the strings that come from one source, among the first `count`.
pub open spec fn lengths_from(
    indices: StreamView,
    lengths: Seq<u32>,
    source: nat,
    count: nat,
) -> Seq<u32>
    decreases count,
{
    if count == 0 {
        Seq::empty()
    } else {
        let front = lengths_from(indices, lengths, source, (count - 1) as nat);
        if element(indices.bytes, indices.element_width, count - 1) == source {
            front.push(lengths[count - 1])
        } else {
            front
        }
    }
}

/// Whether `count` strings, of which each comes from the source that its index names, are
/// for each source the strings of that source in their order.
pub open spec fn dispatched_strings(
    indices: StreamView,
    sources: Seq<StreamView>,
    count: nat,
    bytes: Seq<u8>,
    lengths: Seq<u32>,
) -> bool {
    &&& lengths.len() == count
    &&& bytes.len() == sum_lengths(lengths)
    &&& forall|i: int|
        0 <= i < count ==> (#[trigger] element(indices.bytes, indices.element_width, i))
            < sources.len()
    &&& forall|t: int|
        0 <= t < sources.len() ==> {
            &&& (#[trigger] sources[t]).bytes == strings_from(
                indices,
                bytes,
                lengths,
                t as nat,
                count,
            )
            &&& sources[t].string_lengths == Some(
                lengths_from(indices, lengths, t as nat, count),
            )
        }
}

/// More strings behind them do not change the first ones.
proof fn lemma_strings_keep(
    indices: StreamView,
    bytes: Seq<u8>,
    lengths: Seq<u32>,
    piece: Seq<u8>,
    length: u32,
    source: nat,
    count: nat,
)
    requires
        count <= lengths.len(),
        bytes.len() == sum_lengths(lengths),
    ensures
        strings_from(indices, bytes + piece, lengths.push(length), source, count) == strings_from(
            indices,
            bytes,
            lengths,
            source,
            count,
        ),
        lengths_from(indices, lengths.push(length), source, count) == lengths_from(
            indices,
            lengths,
            source,
            count,
        ),
    decreases count,
{
    if count > 0 {
        lemma_strings_keep(indices, bytes, lengths, piece, length, source, (count - 1) as nat);
        let last = count - 1;
        assert(lengths.push(length).take(last) =~= lengths.take(last));
        assert(lengths.take(last + 1).drop_last() =~= lengths.take(last));
        lemma_start_inside(lengths, last + 1);
        assert(string_at(bytes + piece, lengths.push(length), last) =~= string_at(
            bytes,
            lengths,
            last,
        ));
    }
}

proof fn lemma_start_inside(lengths: Seq<u32>, index: int)
    requires
        0 <= index <= lengths.len(),
    ensures
        string_start(lengths, index) <= sum_lengths(lengths),
        index < lengths.len() ==> string_start(lengths, index + 1) == string_start(lengths, index)
            + lengths[index],
    decreases lengths.len() - index,
{
    if index < lengths.len() {
        assert(lengths.take(index + 1).drop_last() =~= lengths.take(index));
        lemma_start_inside(lengths, index + 1);
    } else {
        assert(lengths.take(index) =~= lengths);
    }
}

/// How far each source was used by the first `index` strings.
spec fn strings_used(
    indices: StreamView,
    sources: Seq<StreamView>,
    index: nat,
    state: DispatchState,
) -> bool {
    &&& state.positions.len() == sources.len()
    &&& state.byte_positions.len() == sources.len()
    &&& state.lengths.len() == index
    &&& state.output.len() == sum_lengths(state.lengths)
    &&& forall|i: int|
        0 <= i < index ==> (#[trigger] element(indices.bytes, indices.element_width, i))
            < sources.len()
    &&& forall|t: int|
        0 <= t < sources.len() ==> {
            &&& (#[trigger] state.positions[t]) <= sources[t].string_lengths->0.len()
            &&& state.byte_positions[t] <= sources[t].bytes.len()
            &&& strings_from(indices, state.output, state.lengths, t as nat, index)
                == sources[t].bytes.take(state.byte_positions[t] as int)
            &&& lengths_from(indices, state.lengths, t as nat, index)
                == sources[t].string_lengths->0.take(state.positions[t] as int)
        }
}

proof fn lemma_strings_use_sources(
    indices: StreamView,
    count: nat,
    sources: Seq<StreamView>,
    index: nat,
    state: DispatchState,
)
    requires
        index <= count,
        strings_used(indices, sources, index, state),
        dispatch_from(indices, count, sources, index, state) is Ok,
    ensures
        strings_used(
            indices,
            sources,
            count,
            dispatch_from(indices, count, sources, index, state)->Ok_0,
        ),
    decreases count - index,
{
    if index < count {
        let source = element(indices.bytes, indices.element_width, index as int);
        let next = dispatch_step(sources, source, state)->Ok_0;
        let lengths = sources[source as int].string_lengths->0;
        let bytes = sources[source as int].bytes;
        let length = lengths[state.positions[source as int] as int];
        let start = state.byte_positions[source as int];
        let piece = bytes.subrange(start as int, start + length as int);
        assert(next.lengths.drop_last() =~= state.lengths);
        assert forall|t: int| 0 <= t < sources.len() implies {
            &&& (#[trigger] next.positions[t]) <= sources[t].string_lengths->0.len()
            &&& next.byte_positions[t] <= sources[t].bytes.len()
            &&& strings_from(indices, next.output, next.lengths, t as nat, index + 1)
                == sources[t].bytes.take(next.byte_positions[t] as int)
            &&& lengths_from(indices, next.lengths, t as nat, index + 1)
                == sources[t].string_lengths->0.take(next.positions[t] as int)
        } by {
            assert(state.positions[t] <= sources[t].string_lengths->0.len());
            lemma_strings_keep(
                indices,
                state.output,
                state.lengths,
                piece,
                length,
                t as nat,
                index,
            );
            assert(next.lengths.take(index as int) =~= state.lengths);
            assert(string_at(next.output, next.lengths, index as int) =~= piece);
            if t == source {
                assert(bytes.take(start as int) + piece =~= bytes.take(start + length as int));
                assert(lengths.take(state.positions[t] as int).push(length) =~= lengths.take(
                    state.positions[t] as int + 1,
                ));
            }
        }
        lemma_strings_use_sources(indices, count, sources, index + 1, next);
    }
}

proof fn lemma_strings_done(
    inputs: Seq<StreamView>,
    variable_inputs: u32,
    header: Seq<u8>,
    format_version: u32,
    limits: Limits,
    checked: bool,
)
    requires
        inputs[0].bytes.len() <= usize::MAX,
        dispatch_shape(inputs, variable_inputs, header, format_version, limits, checked) is Ok,
        ({
            let done = dispatch_from(
                inputs[0],
                inputs[0].bytes.len() / dispatch_index_width(format_version),
                inputs.skip(1),
                0,
                dispatch_start(inputs.skip(1).len()),
            );
            done is Ok && dispatch_complete(inputs.skip(1), done->Ok_0)
        }),
    ensures
        ({
            let count = inputs[0].bytes.len() / dispatch_index_width(format_version);
            let sources = inputs.skip(1);
            let done = dispatch_from(
                inputs[0],
                count,
                sources,
                0,
                dispatch_start(sources.len()),
            )->Ok_0;
            dispatched_strings(inputs[0], sources, count, done.output, done.lengths)
        }),
{
    let indices = inputs[0];
    let count = indices.bytes.len() / dispatch_index_width(format_version);
    let sources = inputs.skip(1);
    let start = dispatch_start(sources.len());
    assert forall|t: int| 0 <= t < sources.len() implies {
        &&& (#[trigger] start.positions[t]) <= sources[t].string_lengths->0.len()
        &&& start.byte_positions[t] <= sources[t].bytes.len()
        &&& strings_from(indices, start.output, start.lengths, t as nat, 0)
            == sources[t].bytes.take(start.byte_positions[t] as int)
        &&& lengths_from(indices, start.lengths, t as nat, 0)
            == sources[t].string_lengths->0.take(start.positions[t] as int)
    } by {
        assert(sources[t].bytes.take(0) =~= Seq::<u8>::empty());
        assert(sources[t].string_lengths->0.take(0) =~= Seq::<u32>::empty());
    }
    lemma_strings_use_sources(indices, count, sources, 0, start);
    lemma_strings_stated(sources, checked, 0, 0, 0);
    let done = dispatch_from(indices, count, sources, 0, start)->Ok_0;
    assert forall|t: int| 0 <= t < sources.len() implies {
        &&& (#[trigger] sources[t]).bytes == strings_from(
            indices,
            done.output,
            done.lengths,
            t as nat,
            count,
        )
        &&& sources[t].string_lengths == Some(lengths_from(indices, done.lengths, t as nat, count))
    } by {
        assert(source_used(sources, done, t));
        assert(done.positions[t] <= sources[t].string_lengths->0.len());
        assert(sources[t].bytes.take(sources[t].bytes.len() as int) =~= sources[t].bytes);
        let lengths = sources[t].string_lengths->0;
        assert(lengths.take(lengths.len() as int) =~= lengths);
        assert(sources[t].string_lengths is Some);
    }
}

/// Sources that are admitted have lengths.
proof fn lemma_strings_stated(
    sources: Seq<StreamView>,
    checked: bool,
    index: nat,
    strings: nat,
    bytes: nat,
)
    requires
        crate::dispatch::dispatch_totals(sources, checked, index, strings, bytes) is Ok,
    ensures
        forall|t: int|
            index <= t < sources.len() ==> (#[trigger] sources[t]).string_lengths is Some,
    decreases sources.len() - index,
{
    if index < sources.len() {
        lemma_strings_stated(
            sources,
            checked,
            index + 1,
            strings + sources[index as int].string_lengths->0.len(),
            bytes + sources[index as int].bytes.len(),
        );
    }
}

/// A dispatch_string node that decodes uses every string of every source once and in
/// order, each where its index names the source.
pub proof fn law_dispatched_strings_are_their_source(
    inputs: Seq<StreamView>,
    variable_inputs: u32,
    header: Seq<u8>,
    format_version: u32,
    limits: Limits,
)
    requires
        inputs[0].bytes.len() <= usize::MAX,
        dispatch_string_node(inputs, variable_inputs, header, format_version, limits) is Ok,
    ensures
        ({
            let output = dispatch_string_node(
                inputs,
                variable_inputs,
                header,
                format_version,
                limits,
            )->Ok_0;
            &&& output.element_width == 1
            &&& output.string_lengths is Some
            &&& dispatched_strings(
                inputs[0],
                inputs.skip(1),
                inputs[0].bytes.len() / dispatch_index_width(format_version),
                output.bytes,
                output.string_lengths->0,
            )
        }),
{
    lemma_index_count(inputs[0].bytes.len(), format_version);
    lemma_strings_done(inputs, variable_inputs, header, format_version, limits, true);
}

/// A dispatch_string node that decodes to plain bytes joins every string of every source
/// once and in order, each where its index names the source; `lengths` are those of the
/// joined strings.
pub proof fn law_joined_strings_are_their_source(
    inputs: Seq<StreamView>,
    variable_inputs: u32,
    header: Seq<u8>,
    format_version: u32,
    limits: Limits,
) -> (lengths: Seq<u32>)
    requires
        inputs[0].bytes.len() <= usize::MAX,
        dispatch_string_serial(inputs, variable_inputs, header, format_version, limits) is Ok,
    ensures
        dispatched_strings(
            inputs[0],
            inputs.skip(1),
            inputs[0].bytes.len() / dispatch_index_width(format_version),
            dispatch_string_serial(
                inputs,
                variable_inputs,
                header,
                format_version,
                limits,
            )->Ok_0,
            lengths,
        ),
{
    lemma_index_count(inputs[0].bytes.len(), format_version);
    lemma_strings_done(inputs, variable_inputs, header, format_version, limits, false);
    dispatch_from(
        inputs[0],
        inputs[0].bytes.len() / dispatch_index_width(format_version),
        inputs.skip(1),
        0,
        dispatch_start(inputs.skip(1).len()),
    )->Ok_0.lengths
}

proof fn lemma_index_count(len: nat, format_version: u32)
    requires
        len <= usize::MAX,
    ensures
        len / dispatch_index_width(format_version) <= usize::MAX,
{
    vstd::arithmetic::div_mod::lemma_div_is_ordered_by_denominator(
        len as int,
        1,
        dispatch_index_width(format_version) as int,
    );
}

} // verus!
