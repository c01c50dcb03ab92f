//! What a node that fails midway has written by then.

use vstd::prelude::*;

use crate::dispatch::{dispatch_from, dispatch_step, dispatch_written_from, DispatchState};
use crate::lz::{lz_decode_from, lz_extend, lz_sequence, lz_written_from, LzStreams};
use crate::lz_factors::{lemma_extended, repeats};
use crate::stream::{element, StreamView};

verus! {

/// Whether `text`, from `position` on, is what the sequences from `index` on say, up to the
/// first thing that cannot be done: literals that the streams or the output have no place
/// for, a match at no distance or in front of the output or beyond its end, or literals
/// left at the end that do not fill the output.
pub open spec fn lz_begins(
    streams: LzStreams,
    count: nat,
    output_len: nat,
    base: nat,
    text: Seq<u8>,
    index: nat,
    literal_pos: nat,
    position: nat,
) -> bool
    decreases count - index,
{
    if index >= count {
        let left = streams.literals.len() - literal_pos;
        &&& literal_pos <= streams.literals.len()
        &&& if position + left == output_len && base + output_len <= usize::MAX {
            text.len() == output_len && text.skip(position as int) == streams.literals.skip(
                literal_pos as int,
            )
        } else {
            text.len() == position
        }
    } else if lz_sequence(streams, index as int) is Err {
        text.len() == position
    } else {
        let lengths = streams.literal_lengths;
        let literals = element(lengths.bytes, lengths.element_width, index as int);
        let distance = element(
            streams.offsets.bytes,
            streams.offsets.element_width,
            index as int,
        );
        let copied = element(
            streams.match_lengths.bytes,
            streams.match_lengths.element_width,
            index as int,
        );
        let middle = position + literals;
        if literal_pos + literals > streams.literals.len() || literal_pos + literals > usize::MAX
            || middle > output_len || base + middle > usize::MAX {
            text.len() == position
        } else {
            &&& middle <= text.len()
            &&& text.subrange(position as int, middle as int) == streams.literals.subrange(
                literal_pos as int,
                (literal_pos + literals) as int,
            )
            &&& if distance == 0 || distance > middle || middle + copied > output_len || base
                + middle + copied > usize::MAX {
                text.len() == middle
            } else {
                &&& middle + copied <= text.len()
                &&& repeats(text, middle, middle + copied, distance)
                &&& lz_begins(
                    streams,
                    count,
                    output_len,
                    base,
                    text,
                    index + 1,
                    literal_pos + literals,
                    middle + copied,
                )
            }
        }
    }
}

/// What LZ sequences write, whether they fail or not, is what they say up to the first
/// thing that cannot be done; where they do not fail, it is what they decode to.
pub proof fn law_lz_writes_what_can_be_done(
    streams: LzStreams,
    count: nat,
    output_len: nat,
    base: nat,
    index: nat,
    literal_pos: nat,
    output: Seq<u8>,
)
    requires
        index <= count,
        literal_pos <= streams.literals.len(),
        output.len() <= output_len,
    ensures
        ({
            let text = lz_written_from(
                streams,
                count,
                output_len,
                base,
                index,
                literal_pos,
                output,
            );
            &&& output.len() <= text.len() <= output_len
            &&& text.take(output.len() as int) == output
            &&& lz_begins(
                streams,
                count,
                output_len,
                base,
                text,
                index,
                literal_pos,
                output.len(),
            )
            &&& lz_decode_from(streams, count, output_len, base, index, literal_pos, output) is Ok
                ==> text == lz_decode_from(
                streams,
                count,
                output_len,
                base,
                index,
                literal_pos,
                output,
            )->Ok_0
        }),
    decreases count - index,
{
    let text = lz_written_from(streams, count, output_len, base, index, literal_pos, output);
    assert(output.take(output.len() as int) =~= output);
    if index >= count {
        let rest = streams.literals.skip(literal_pos as int);
        if output.len() + rest.len() == output_len && base + output_len <= usize::MAX {
            assert(text == output + rest);
            assert(text.skip(output.len() as int) =~= rest);
            assert(text.take(output.len() as int) =~= output);
        }
    } else if lz_sequence(streams, index as int) is Ok {
        let (literal_len, distance, copied) = lz_sequence(streams, index as int)->Ok_0;
        let literal_end = literal_pos + literal_len as nat;
        let part = streams.literals.subrange(literal_pos as int, literal_end as int);
        let literals = output + part;
        if literal_end > streams.literals.len() || literal_end > usize::MAX || base + output.len()
            + literal_len > usize::MAX || output.len() + literal_len > output_len {
        } else if distance == 0 || distance > literals.len() || base + literals.len() + copied
            > usize::MAX || literals.len() + copied > output_len {
            assert(text == literals);
            assert(text.take(output.len() as int) =~= output);
            assert(text.subrange(output.len() as int, literals.len() as int) =~= part);
        } else {
            let next = lz_extend(literals, distance as nat, copied as nat);
            lemma_extended(literals, distance as nat, copied as nat);
            law_lz_writes_what_can_be_done(
                streams,
                count,
                output_len,
                base,
                index + 1,
                literal_end,
                next,
            );
            assert(text.take(next.len() as int) == next);
            assert forall|k: int| 0 <= k < next.len() implies #[trigger] text[k] == next[k] by {
                assert(text.take(next.len() as int)[k] == next[k]);
            }
            assert forall|k: int| 0 <= k < literals.len() implies #[trigger] next[k]
                == literals[k] by {
                assert(next.take(literals.len() as int)[k] == literals[k]);
            }
            assert(text.take(output.len() as int) =~= output);
            assert(text.subrange(output.len() as int, literals.len() as int) =~= part);
            assert(repeats(
                text,
                literals.len(),
                literals.len() + copied as nat,
                distance as nat,
            ));
        }
    }
}

/// The strings that a dispatch which fails has written are those of the indices in front
/// of the one that fails: `done` indices dispatch to them, and the next one is refused.
pub proof fn law_dispatch_writes_up_to_the_fault(
    indices: StreamView,
    count: nat,
    sources: Seq<StreamView>,
    index: nat,
    state: DispatchState,
) -> (done: nat)
    requires
        index <= count,
    ensures
        index <= done <= count,
        dispatch_from(indices, done, sources, index, state) is Ok,
        dispatch_written_from(indices, count, sources, index, state) == dispatch_from(
            indices,
            done,
            sources,
            index,
            state,
        )->Ok_0.output,
        done < count ==> dispatch_step(
            sources,
            element(indices.bytes, indices.element_width, done as int),
            dispatch_from(indices, done, sources, index, state)->Ok_0,
        ) is Err,
        done == count <==> dispatch_from(indices, count, sources, index, state) is Ok,
    decreases count - index,
{
    if index >= count {
        count
    } else {
        let step = dispatch_step(
            sources,
            element(indices.bytes, indices.element_width, index as int),
            state,
        );
        if step is Err {
            index
        } else {
            law_dispatch_writes_up_to_the_fault(indices, count, sources, index + 1, step->Ok_0)
        }
    }
}

} // verus!
