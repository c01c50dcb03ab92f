//! What LZ sequences say of the bytes that they decode to.

use vstd::prelude::*;

use crate::bytes::{law_var_u64_round_trip, var_bytes};
use crate::error::ErrorView;
use crate::limits::Limits;
use crate::lz::{
    law_lz_match_is_periodic, lz_decode, lz_decode_from, lz_extend, lz_sequence, lz_shape,
    lz_streams, narrow_lz_decode, LzStreams,
};
use crate::stream::{element, lemma_element_inside, lemma_whole_elements, numeric_width, StreamView};

verus! {

/// Whether the bytes of `text` from `start` to `end` repeat those `distance` before them.
pub open spec fn repeats(text: Seq<u8>, start: nat, end: nat, distance: nat) -> bool {
    &&& 0 < distance <= start
    &&& forall|k: int| start <= k < end ==> #[trigger] text[k] == text[k - distance]
}

/// Whether `text`, from `position` on, is what the sequences from `index` on say: as many
/// literals as the first length states, then as many bytes as the second length states,
/// each equal to the one that stands the stated distance before it; and the literals that
/// are left at the end.
pub open spec fn lz_fits(
    streams: LzStreams,
    count: nat,
    text: Seq<u8>,
    index: nat,
    literal_pos: nat,
    position: nat,
) -> bool
    decreases count - index,
{
    if index >= count {
        &&& position <= text.len()
        &&& literal_pos <= streams.literals.len()
        &&& text.skip(position as int) == streams.literals.skip(literal_pos as int)
    } else {
        let lengths = streams.literal_lengths;
        let literals = element(lengths.bytes, lengths.element_width, index as int);
        let distance = element(
            streams.offsets.bytes,
            streams.offsets.element_width,
            index as int,
        );
        let copied = element(
            streams.match_lengths.bytes,
            streams.match_lengths.element_width,
            index as int,
        );
        let middle = position + literals;
        &&& literal_pos + literals <= streams.literals.len()
        &&& middle + copied <= text.len()
        &&& text.subrange(position as int, middle as int) == streams.literals.subrange(
            literal_pos as int,
            (literal_pos + literals) as int,
        )
        &&& repeats(text, middle, middle + copied, distance)
        &&& lz_fits(
            streams,
            count,
            text,
            index + 1,
            literal_pos + literals,
            middle + copied,
        )
    }
}

/// Extending by a match gives bytes that repeat.
pub proof fn lemma_extended(output: Seq<u8>, distance: nat, len: nat)
    requires
        0 < distance <= output.len(),
    ensures
        lz_extend(output, distance, len).len() == output.len() + len,
        lz_extend(output, distance, len).take(output.len() as int) == output,
        repeats(
            lz_extend(output, distance, len),
            output.len(),
            output.len() + len,
            distance,
        ),
    decreases len,
{
    law_lz_match_is_periodic(output, distance, len);
    if len > 0 {
        let shorter = lz_extend(output, distance, (len - 1) as nat);
        lemma_extended(output, distance, (len - 1) as nat);
        let all = lz_extend(output, distance, len);
        assert forall|k: int| output.len() <= k < output.len() + len implies #[trigger] all[k]
            == all[k - distance] by {
            if k < output.len() + len - 1 {
                assert(shorter[k] == shorter[k - distance]);
            }
        }
    }
}

/// Bytes that repeat are what extending by a match gives.
pub proof fn lemma_repeated(text: Seq<u8>, start: nat, len: nat, distance: nat)
    requires
        start + len <= text.len(),
        repeats(text, start, start + len, distance),
    ensures
        lz_extend(text.take(start as int), distance, len) == text.take((start + len) as int),
    decreases len,
{
    if len > 0 {
        lemma_repeated(text, start, (len - 1) as nat, distance);
        let shorter = text.take(start + len - 1);
        assert(text[start + len - 1] == text[start + len - 1 - distance]);
        assert(shorter.push(shorter[shorter.len() - distance]) =~= text.take((start + len) as int));
    } else {
        assert(text.take(start as int) =~= text.take((start + len) as int));
    }
}

/// What fits stays so where only the bytes in front of it change.
proof fn lemma_fits(
    streams: LzStreams,
    count: nat,
    output_len: nat,
    base: nat,
    index: nat,
    literal_pos: nat,
    output: Seq<u8>,
)
    requires
        index <= count,
        literal_pos <= streams.literals.len(),
        lz_decode_from(streams, count, output_len, base, index, literal_pos, output) is Ok,
    ensures
        ({
            let text = lz_decode_from(
                streams,
                count,
                output_len,
                base,
                index,
                literal_pos,
                output,
            )->Ok_0;
            &&& text.len() == output_len
            &&& output.len() <= text.len()
            &&& text.take(output.len() as int) == output
            &&& lz_fits(streams, count, text, index, literal_pos, output.len())
        }),
    decreases count - index,
{
    let text = lz_decode_from(
        streams,
        count,
        output_len,
        base,
        index,
        literal_pos,
        output,
    )->Ok_0;
    if index >= count {
        let rest = streams.literals.skip(literal_pos as int);
        assert(text.skip(output.len() as int) =~= rest);
        assert(text.take(output.len() as int) =~= output);
    } else {
        let (literal_len, distance, copied) = lz_sequence(streams, index as int)->Ok_0;
        let literal_end = literal_pos + literal_len as nat;
        let part = streams.literals.subrange(literal_pos as int, literal_end as int);
        let literals = output + part;
        let next = lz_extend(literals, distance as nat, copied as nat);
        lemma_extended(literals, distance as nat, copied as nat);
        lemma_fits(streams, count, output_len, base, index + 1, literal_end, next);
        assert(text.take(next.len() as int) == next);
        assert(text.take(output.len() as int) =~= next.take(literals.len() as int).take(
            output.len() as int,
        ));
        assert(next.take(literals.len() as int).take(output.len() as int) =~= output);
        assert(text.subrange(output.len() as int, literals.len() as int) =~= next.take(
            literals.len() as int,
        ).subrange(output.len() as int, literals.len() as int));
        assert(literals.subrange(output.len() as int, literals.len() as int) =~= part);
        assert forall|k: int| literals.len() <= k < literals.len() + copied implies
            #[trigger] text[k] == text[k - distance] by {
            assert(text.take(next.len() as int)[k] == next[k]);
            assert(text.take(next.len() as int)[k - distance] == next[k - distance]);
        }
    }
}

/// What fits is decoded.
proof fn lemma_decoded(
    streams: LzStreams,
    count: nat,
    base: nat,
    text: Seq<u8>,
    index: nat,
    literal_pos: nat,
    position: nat,
)
    requires
        index <= count,
        base + text.len() <= usize::MAX,
        streams.literals.len() <= usize::MAX,
        numeric_width(streams.offsets.element_width as int),
        numeric_width(streams.literal_lengths.element_width as int),
        numeric_width(streams.match_lengths.element_width as int),
        count * streams.offsets.element_width <= streams.offsets.bytes.len() <= usize::MAX,
        count * streams.literal_lengths.element_width <= streams.literal_lengths.bytes.len()
            <= usize::MAX,
        count * streams.match_lengths.element_width <= streams.match_lengths.bytes.len()
            <= usize::MAX,
        position <= text.len(),
        lz_fits(streams, count, text, index, literal_pos, position),
    ensures
        lz_decode_from(
            streams,
            count,
            text.len(),
            base,
            index,
            literal_pos,
            text.take(position as int),
        ) == Ok::<Seq<u8>, ErrorView>(text),
    decreases count - index,
{
    let output = text.take(position as int);
    if index >= count {
        let rest = streams.literals.skip(literal_pos as int);
        assert(text.skip(position as int).len() == rest.len());
        assert(output + rest =~= text) by {
            assert(output + text.skip(position as int) =~= text);
        }
    } else {
        lemma_element_inside(index, count, streams.offsets.element_width);
        lemma_element_inside(index, count, streams.literal_lengths.element_width);
        lemma_element_inside(index, count, streams.match_lengths.element_width);
        let lengths = streams.literal_lengths;
        let literal_len = element(lengths.bytes, lengths.element_width, index as int);
        let distance = element(
            streams.offsets.bytes,
            streams.offsets.element_width,
            index as int,
        );
        let copied = element(
            streams.match_lengths.bytes,
            streams.match_lengths.element_width,
            index as int,
        );
        let middle = position + literal_len;
        assert(lz_sequence(streams, index as int) == Ok::<(usize, usize, usize), ErrorView>(
            (literal_len as usize, distance as usize, copied as usize),
        ));
        let part = streams.literals.subrange(
            literal_pos as int,
            (literal_pos + literal_len) as int,
        );
        assert(output + part =~= text.take(middle as int)) by {
            assert(output + text.subrange(position as int, middle as int) =~= text.take(
                middle as int,
            ));
        }
        lemma_repeated(text, middle, copied, distance);
        lemma_decoded(
            streams,
            count,
            base,
            text,
            index + 1,
            literal_pos + literal_len,
            middle + copied,
        );
    }
}

/// How many sequences the streams of an LZ node hold.
pub open spec fn lz_count(inputs: Seq<StreamView>) -> nat {
    inputs[1].bytes.len() / inputs[1].element_width
}

/// What an LZ node decodes to is what its sequences say: the literals in order, and at each
/// match the bytes that stand the stated distance back.
pub proof fn law_lz_output_fits_its_sequences(
    inputs: Seq<StreamView>,
    header: Seq<u8>,
    limits: Limits,
    base: nat,
)
    requires
        inputs[1].bytes.len() <= usize::MAX,
        lz_decode(inputs, header, limits, base) is Ok,
    ensures
        lz_fits(
            lz_streams(inputs),
            lz_count(inputs),
            lz_decode(inputs, header, limits, base)->Ok_0,
            0,
            0,
            0,
        ),
{
    let (output_len, count) = lz_shape(inputs, header, limits)->Ok_0;
    lemma_whole_elements(inputs[1].bytes.len(), inputs[1].element_width);
    lemma_fits(
        lz_streams(inputs),
        count as nat,
        output_len as nat,
        base,
        0,
        0,
        Seq::empty(),
    );
}

/// Bytes that were cut into literals and repeats come back: an LZ node whose streams state
/// the cuts, and whose header states the number of bytes, decodes to them.
pub proof fn law_lz_gives_back_what_was_cut(
    inputs: Seq<StreamView>,
    limits: Limits,
    base: nat,
    text: Seq<u8>,
)
    requires
        inputs.len() == 4,
        inputs[0].element_width == 1,
        inputs[0].bytes.len() <= usize::MAX,
        forall|i: int|
            1 <= i < 4 ==> {
                &&& numeric_width((#[trigger] inputs[i]).element_width as int)
                &&& inputs[i].bytes.len() == lz_count(inputs) * inputs[i].element_width
                &&& inputs[i].bytes.len() <= usize::MAX
            },
        limits.admits(text.len() as int),
        base + text.len() <= usize::MAX,
        lz_fits(lz_streams(inputs), lz_count(inputs), text, 0, 0, 0),
    ensures
        lz_decode(inputs, var_bytes(text.len()), limits, base) == Ok::<Seq<u8>, ErrorView>(text),
{
    let header = var_bytes(text.len());
    let count = lz_count(inputs);
    law_var_u64_round_trip(Seq::empty(), text.len() as u64, Seq::empty());
    assert(Seq::<u8>::empty() + header + Seq::<u8>::empty() =~= header);
    assert(Seq::<u8>::empty() + header =~= header);
    lemma_counted(count, inputs[1].element_width);
    lemma_counted(count, inputs[2].element_width);
    lemma_counted(count, inputs[3].element_width);
    assert(inputs[1].bytes.len() == count * inputs[1].element_width);
    assert(inputs[2].bytes.len() == count * inputs[2].element_width);
    assert(inputs[3].bytes.len() == count * inputs[3].element_width);
    assert(text.take(0) =~= Seq::empty());
    lemma_decoded(lz_streams(inputs), count, base, text, 0, 0, 0);
}

pub proof fn lemma_counted(count: nat, width: nat)
    requires
        width > 0,
    ensures
        (count * width) % width == 0,
        (count * width) / width == count,
        count <= count * width,
{
    vstd::arithmetic::div_mod::lemma_div_by_multiple(count as int, width as int);
    vstd::arithmetic::div_mod::lemma_mod_multiples_basic(count as int, width as int);
    assert(count <= count * width) by (nonlinear_arith)
        requires
            width >= 1,
    ;
}

/// Sequences with one-byte offsets and two-byte lengths that decode give what they say.
pub proof fn law_narrow_lz_output_fits_its_sequences(
    literals: Seq<u8>,
    offsets: Seq<u8>,
    literal_lengths: Seq<u8>,
    match_lengths: Seq<u8>,
    count: nat,
    output_len: nat,
    base: nat,
    len: nat,
    capacity: nat,
)
    requires
        narrow_lz_decode(
            literals,
            offsets,
            literal_lengths,
            match_lengths,
            count,
            output_len,
            base,
            len,
            capacity,
        ) is Ok,
    ensures
        ({
            let text = narrow_lz_decode(
                literals,
                offsets,
                literal_lengths,
                match_lengths,
                count,
                output_len,
                base,
                len,
                capacity,
            )->Ok_0;
            let streams = LzStreams {
                literals,
                offsets: StreamView { bytes: offsets, element_width: 1, string_lengths: None },
                literal_lengths: StreamView {
                    bytes: literal_lengths,
                    element_width: 2,
                    string_lengths: None,
                },
                match_lengths: StreamView {
                    bytes: match_lengths,
                    element_width: 2,
                    string_lengths: None,
                },
            };
            &&& text.len() == output_len
            &&& lz_fits(streams, count, text, 0, 0, 0)
        }),
{
    let streams = LzStreams {
        literals,
        offsets: StreamView { bytes: offsets, element_width: 1, string_lengths: None },
        literal_lengths: StreamView {
            bytes: literal_lengths,
            element_width: 2,
            string_lengths: None,
        },
        match_lengths: StreamView { bytes: match_lengths, element_width: 2, string_lengths: None },
    };
    lemma_fits(streams, count, output_len, base, 0, 0, Seq::empty());
}

} // verus!
