//! Strings that were sorted into sources are put back.

use vstd::prelude::*;

use crate::dispatch::{
    dispatch_complete, dispatch_from, dispatch_start, dispatch_step, source_used, DispatchState,
};
use crate::dispatch_order::{
    dispatched_strings, lengths_from, string_at, string_start, strings_from,
};
use crate::stream::{element, sum_lengths, StreamView};

verus! {

/// What the first strings give is the beginning of what more of them give.
proof fn lemma_more_strings(
    indices: StreamView,
    bytes: Seq<u8>,
    lengths: Seq<u32>,
    source: nat,
    fewer: nat,
    count: nat,
)
    requires
        fewer <= count,
    ensures
        strings_from(indices, bytes, lengths, source, fewer).is_prefix_of(
            strings_from(indices, bytes, lengths, source, count),
        ),
        lengths_from(indices, lengths, source, fewer).is_prefix_of(
            lengths_from(indices, lengths, source, count),
        ),
    decreases count - fewer,
{
    if fewer < count {
        lemma_more_strings(indices, bytes, lengths, source, fewer, (count - 1) as nat);
        let few = strings_from(indices, bytes, lengths, source, fewer);
        let most = strings_from(indices, bytes, lengths, source, (count - 1) as nat);
        let all = strings_from(indices, bytes, lengths, source, count);
        assert(all.take(few.len() as int) =~= most.take(few.len() as int));
        let few = lengths_from(indices, lengths, source, fewer);
        let most = lengths_from(indices, lengths, source, (count - 1) as nat);
        let all = lengths_from(indices, lengths, source, count);
        assert(all.take(few.len() as int) =~= most.take(few.len() as int));
    } else {
        let all = strings_from(indices, bytes, lengths, source, count);
        assert(all.take(all.len() as int) =~= all);
        let all = lengths_from(indices, lengths, source, count);
        assert(all.take(all.len() as int) =~= all);
    }
}

proof fn lemma_start(lengths: Seq<u32>, index: int)
    requires
        0 <= index <= lengths.len(),
    ensures
        string_start(lengths, index) <= sum_lengths(lengths),
        index < lengths.len() ==> string_start(lengths, index + 1) == string_start(lengths, index)
            + lengths[index],
    decreases lengths.len() - index,
{
    if index < lengths.len() {
        assert(lengths.take(index + 1).drop_last() =~= lengths.take(index));
        lemma_start(lengths, index + 1);
    } else {
        assert(lengths.take(index) =~= lengths);
    }
}

/// How far dispatching is behind the first `index` strings.
spec fn put_back(
    indices: StreamView,
    sources: Seq<StreamView>,
    bytes: Seq<u8>,
    lengths: Seq<u32>,
    index: nat,
    state: DispatchState,
) -> bool {
    &&& state.positions.len() == sources.len()
    &&& state.byte_positions.len() == sources.len()
    &&& state.output == bytes.take(string_start(lengths, index as int) as int)
    &&& state.lengths == lengths.take(index as int)
    &&& forall|t: int|
        0 <= t < sources.len() ==> {
            &&& (#[trigger] state.positions[t]) == lengths_from(
                indices,
                lengths,
                t as nat,
                index,
            ).len()
            &&& state.byte_positions[t] == strings_from(
                indices,
                bytes,
                lengths,
                t as nat,
                index,
            ).len()
        }
}

#[verifier::rlimit(40)]
proof fn lemma_step_back(
    indices: StreamView,
    sources: Seq<StreamView>,
    count: nat,
    bytes: Seq<u8>,
    lengths: Seq<u32>,
    index: nat,
    state: DispatchState,
)
    requires
        index < count,
        dispatched_strings(indices, sources, count, bytes, lengths),
        forall|t: int|
            0 <= t < sources.len() ==> (#[trigger] sources[t]).bytes.len() <= usize::MAX,
        put_back(indices, sources, bytes, lengths, index, state),
    ensures
        ({
            let step = dispatch_step(
                sources,
                element(indices.bytes, indices.element_width, index as int),
                state,
            );
            &&& step is Ok
            &&& put_back(indices, sources, bytes, lengths, index + 1, step->Ok_0)
        }),
{
    let source = element(indices.bytes, indices.element_width, index as int);
    assert(source < sources.len());
    let stream = sources[source as int];
    let own = lengths_from(indices, lengths, source, count);
    assert(stream.string_lengths == Some(own));
    assert(stream.bytes == strings_from(indices, bytes, lengths, source, count));
    let before = lengths_from(indices, lengths, source, index);
    let behind = lengths_from(indices, lengths, source, index + 1);
    assert(behind == before.push(lengths[index as int]));
    lemma_more_strings(indices, bytes, lengths, source, index + 1, count);
    assert(own.take(behind.len() as int) == behind);
    assert(state.positions[source as int] == before.len());
    assert(own[before.len() as int] == behind[before.len() as int]);
    let length = lengths[index as int];
    lemma_start(lengths, index as int);
    lemma_start(lengths, index as int + 1);
    let text = strings_from(indices, bytes, lengths, source, index);
    let more = strings_from(indices, bytes, lengths, source, index + 1);
    let piece = string_at(bytes, lengths, index as int);
    assert(more == text + piece);
    assert(piece.len() == length);
    assert(stream.bytes.take(more.len() as int) == more);
    let begin = state.byte_positions[source as int];
    assert(begin == text.len());
    assert(stream.bytes.subrange(begin as int, begin + length as int) =~= more.subrange(
        begin as int,
        begin + length as int,
    ));
    assert(more.subrange(begin as int, begin + length as int) =~= piece);
    let next = dispatch_step(sources, source, state)->Ok_0;
    assert(next.output =~= bytes.take(string_start(lengths, index as int + 1) as int));
    assert(next.lengths =~= lengths.take(index as int + 1));
    assert forall|t: int| 0 <= t < sources.len() implies {
        &&& (#[trigger] next.positions[t]) == lengths_from(
            indices,
            lengths,
            t as nat,
            index + 1,
        ).len()
        &&& next.byte_positions[t] == strings_from(
            indices,
            bytes,
            lengths,
            t as nat,
            index + 1,
        ).len()
    } by {
        assert(state.positions[t] == lengths_from(indices, lengths, t as nat, index).len());
    }
}

proof fn lemma_put_back(
    indices: StreamView,
    sources: Seq<StreamView>,
    count: nat,
    bytes: Seq<u8>,
    lengths: Seq<u32>,
    index: nat,
    state: DispatchState,
)
    requires
        index <= count,
        dispatched_strings(indices, sources, count, bytes, lengths),
        forall|t: int|
            0 <= t < sources.len() ==> (#[trigger] sources[t]).bytes.len() <= usize::MAX,
        put_back(indices, sources, bytes, lengths, index, state),
    ensures
        ({
            let done = dispatch_from(indices, count, sources, index, state);
            &&& done is Ok
            &&& put_back(indices, sources, bytes, lengths, count, done->Ok_0)
        }),
    decreases count - index,
{
    if index < count {
        lemma_step_back(indices, sources, count, bytes, lengths, index, state);
        let next = dispatch_step(
            sources,
            element(indices.bytes, indices.element_width, index as int),
            state,
        )->Ok_0;
        lemma_put_back(indices, sources, count, bytes, lengths, index + 1, next);
    }
}

/// Strings that were sorted into sources, each into the one that its index names, are put
/// back as they were, and every source is used up.
pub proof fn law_sorted_strings_are_put_back(
    indices: StreamView,
    sources: Seq<StreamView>,
    count: nat,
    bytes: Seq<u8>,
    lengths: Seq<u32>,
)
    requires
        dispatched_strings(indices, sources, count, bytes, lengths),
        forall|t: int|
            0 <= t < sources.len() ==> (#[trigger] sources[t]).bytes.len() <= usize::MAX,
    ensures
        ({
            let done = dispatch_from(indices, count, sources, 0, dispatch_start(sources.len()));
            &&& done is Ok
            &&& done->Ok_0.output == bytes
            &&& done->Ok_0.lengths == lengths
            &&& dispatch_complete(sources, done->Ok_0)
        }),
{
    let start = dispatch_start(sources.len());
    assert(lengths.take(0) =~= Seq::empty());
    assert(string_start(lengths, 0) == 0);
    assert(bytes.take(0) =~= Seq::empty());
    lemma_put_back(indices, sources, count, bytes, lengths, 0, start);
    let done = dispatch_from(indices, count, sources, 0, start)->Ok_0;
    assert(lengths.take(count as int) =~= lengths);
    assert(bytes.take(bytes.len() as int) =~= bytes);
    assert forall|t: int| 0 <= t < sources.len() implies #[trigger] source_used(
        sources,
        done,
        t,
    ) by {
        assert(done.positions[t] == lengths_from(indices, lengths, t as nat, count).len());
        assert(sources[t].string_lengths == Some(lengths_from(indices, lengths, t as nat, count)));
    }
}

} // verus!
