//! What field LZ tokens say of the bytes that they decode to.

use vstd::prelude::*;

use crate::bytes::{law_var_u64_round_trip, var_bytes};
use crate::error::ErrorView;
use crate::field_lz::{
    field_decode_from, field_initial_state, field_lz_decode, field_offset, field_shape, field_step,
    field_streams, field_streams_decode, field_u32, FieldState, FieldStreams,
};
use crate::limits::Limits;
use crate::lz::lz_extend;
use crate::lz_factors::{lemma_counted, lemma_extended, lemma_repeated, repeats};
use crate::stream::{element, numeric_width, StreamView};

verus! {

/// How far the streams of a field LZ node were read: bytes of the literals, and integers of
/// the other streams.
#[verifier::ext_equal]
pub struct FieldCursor {
    pub literals: nat,
    pub offsets: nat,
    pub extra_literal_lengths: nat,
    pub extra_match_lengths: nat,
}

/// The distance that a token names, in bytes: one of the recent distances by its place
/// among them, or the next integer of the offset stream.
pub open spec fn named_distance(
    streams: FieldStreams,
    recent: Seq<nat>,
    code: nat,
    cursor: FieldCursor,
) -> nat {
    if code < 3 {
        recent[code as int]
    } else {
        element(streams.offsets, 4, cursor.offsets as int) * streams.element_width
    }
}

/// The recent distances once one was used: it comes first, and the others behind it in
/// their order; one that was not among them pushes out the last.
pub open spec fn moved_to_front(recent: Seq<nat>, code: nat, distance: nat) -> Seq<nat> {
    if code < 3 {
        seq![recent[code as int]] + recent.remove(code as int)
    } else {
        seq![distance] + recent.drop_last()
    }
}

/// A length in elements: what four bits of a token state, and where all of them are set the
/// next integer of a stream of extra lengths as well.
pub open spec fn stated_length(code: nat, extras: Seq<u8>, index: nat) -> nat {
    if code == 15 {
        15 + element(extras, 4, index as int)
    } else {
        code
    }
}

/// How far the streams are read once a token was.
pub open spec fn token_read(
    cursor: FieldCursor,
    offset_code: nat,
    literal_code: nat,
    match_code: nat,
    literals: nat,
) -> FieldCursor {
    FieldCursor {
        literals: cursor.literals + literals,
        offsets: cursor.offsets + (if offset_code == 3 {
            1nat
        } else {
            0nat
        }),
        extra_literal_lengths: cursor.extra_literal_lengths + (if literal_code == 15 {
            1nat
        } else {
            0nat
        }),
        extra_match_lengths: cursor.extra_match_lengths + (if match_code == 15 {
            1nat
        } else {
            0nat
        }),
    }
}

/// The fewest elements of a match.
pub open spec fn least_match(width: nat) -> nat {
    if width == 1 {
        4
    } else if width == 2 {
        2
    } else {
        1
    }
}

/// Whether the integers that a token needs are there.
pub open spec fn token_backed(
    streams: FieldStreams,
    cursor: FieldCursor,
    offset_code: nat,
    literal_code: nat,
    match_code: nat,
) -> bool {
    &&& offset_code == 3 ==> 4 * cursor.offsets + 4 <= streams.offsets.len()
    &&& literal_code == 15 ==> 4 * cursor.extra_literal_lengths + 4
        <= streams.extra_literal_lengths.len()
    &&& match_code == 15 ==> 4 * cursor.extra_match_lengths + 4
        <= streams.extra_match_lengths.len()
}

/// Whether `text`, from `position` on, is what the tokens from `index` on say: each names a
/// number of literals, a distance and a number of bytes that repeat those at that distance;
/// and the literals that are left come at the end.
pub open spec fn field_fits(
    streams: FieldStreams,
    text: Seq<u8>,
    index: nat,
    recent: Seq<nat>,
    cursor: FieldCursor,
    position: nat,
) -> bool
    decreases streams.tokens.len() / 2 - index,
{
    if index >= streams.tokens.len() / 2 {
        &&& position <= text.len()
        &&& cursor.literals <= streams.literals.len()
        &&& text.skip(position as int) == streams.literals.skip(cursor.literals as int)
        &&& 4 * cursor.offsets == streams.offsets.len()
        &&& 4 * cursor.extra_literal_lengths == streams.extra_literal_lengths.len()
        &&& 4 * cursor.extra_match_lengths == streams.extra_match_lengths.len()
    } else {
        let width = streams.element_width;
        let token = element(streams.tokens, 2, index as int);
        let offset_code = token % 4;
        let literal_code = token / 4 % 16;
        let match_code = token / 64 % 16;
        let distance = named_distance(streams, recent, offset_code, cursor);
        let literals = stated_length(
            literal_code,
            streams.extra_literal_lengths,
            cursor.extra_literal_lengths,
        ) * width;
        let copied = (least_match(width) + stated_length(
            match_code,
            streams.extra_match_lengths,
            cursor.extra_match_lengths,
        )) * width;
        let middle = position + literals;
        &&& token_backed(streams, cursor, offset_code, literal_code, match_code)
        &&& cursor.literals + literals <= streams.literals.len()
        &&& middle + copied <= text.len()
        &&& text.subrange(position as int, middle as int) == streams.literals.subrange(
            cursor.literals as int,
            (cursor.literals + literals) as int,
        )
        &&& repeats(text, middle, middle + copied, distance)
        &&& field_fits(
            streams,
            text,
            index + 1,
            moved_to_front(recent, offset_code, distance),
            token_read(cursor, offset_code, literal_code, match_code, literals),
            middle + copied,
        )
    }
}

/// The recent distances that decoding starts with: one, two and four elements.
pub open spec fn first_distances(width: nat) -> Seq<nat> {
    seq![width, 2 * width, 4 * width]
}

pub open spec fn cursor_start() -> FieldCursor {
    FieldCursor { literals: 0, offsets: 0, extra_literal_lengths: 0, extra_match_lengths: 0 }
}

/// The state of a decoder that has come as far as a cursor.
spec fn state_at(recent: Seq<nat>, cursor: FieldCursor, output: Seq<u8>) -> FieldState {
    FieldState {
        reps: (recent[0], recent[1], recent[2]),
        literal_pos: cursor.literals,
        offset_pos: 4 * cursor.offsets,
        extra_literal_pos: 4 * cursor.extra_literal_lengths,
        extra_match_pos: 4 * cursor.extra_match_lengths,
        output,
    }
}

proof fn lemma_moved(recent: Seq<nat>, code: nat, distance: nat)
    requires
        recent.len() == 3,
        code <= 3,
    ensures
        moved_to_front(recent, code, distance).len() == 3,
        code == 0 ==> moved_to_front(recent, code, distance) == recent,
        code == 1 ==> moved_to_front(recent, code, distance) == seq![
            recent[1],
            recent[0],
            recent[2],
        ],
        code == 2 ==> moved_to_front(recent, code, distance) == seq![
            recent[2],
            recent[0],
            recent[1],
        ],
        code == 3 ==> moved_to_front(recent, code, distance) == seq![
            distance,
            recent[0],
            recent[1],
        ],
{
    let moved = moved_to_front(recent, code, distance);
    if code == 0 {
        assert(moved =~= recent);
    } else if code == 1 {
        assert(moved =~= seq![recent[1], recent[0], recent[2]]);
    } else if code == 2 {
        assert(moved =~= seq![recent[2], recent[0], recent[1]]);
    } else {
        assert(moved =~= seq![distance, recent[0], recent[1]]);
    }
}

/// The parts of a token: its codes, the bytes that it names, and the distance.
proof fn lemma_token_step(
    streams: FieldStreams,
    output_len: nat,
    base: nat,
    index: nat,
    recent: Seq<nat>,
    cursor: FieldCursor,
    output: Seq<u8>,
)
    requires
        recent.len() == 3,
        numeric_width(streams.element_width as int),
        cursor.literals <= streams.literals.len(),
    ensures
        ({
            let width = streams.element_width;
            let token = element(streams.tokens, 2, index as int);
            let offset_code = token % 4;
            let literal_code = token / 4 % 16;
            let match_code = token / 64 % 16;
            let distance = named_distance(streams, recent, offset_code, cursor);
            let literals = stated_length(
                literal_code,
                streams.extra_literal_lengths,
                cursor.extra_literal_lengths,
            ) * width;
            let copied = (least_match(width) + stated_length(
                match_code,
                streams.extra_match_lengths,
                cursor.extra_match_lengths,
            )) * width;
            let next = moved_to_front(recent, offset_code, distance);
            let read = token_read(cursor, offset_code, literal_code, match_code, literals);
            let step = field_step(
                streams,
                output_len,
                base,
                index,
                state_at(recent, cursor, output),
            );
            let end = cursor.literals + literals;
            let part = output + streams.literals.subrange(cursor.literals as int, end as int);
            &&& next.len() == 3
            &&& next[0] == distance
            &&& step is Ok ==> {
                &&& token_backed(streams, cursor, offset_code, literal_code, match_code)
                &&& end <= streams.literals.len()
                &&& 0 < distance <= part.len()
                &&& part.len() + copied <= output_len
                &&& step->Ok_0 == state_at(next, read, lz_extend(part, distance, copied))
            }
            &&& token_backed(streams, cursor, offset_code, literal_code, match_code) && end
                <= streams.literals.len() && streams.literals.len() <= usize::MAX && base
                + output_len <= usize::MAX && 0 < distance <= part.len() && part.len() + copied
                <= output_len ==> step is Ok
        }),
{
    let width = streams.element_width;
    let token = element(streams.tokens, 2, index as int);
    let code = token % 4;
    let distance = named_distance(streams, recent, code, cursor);
    lemma_moved(recent, code, distance);
    let state = state_at(recent, cursor, output);
    let located = field_offset(streams, state, code);
    let literal_code = token / 4 % 16;
    let match_code = token / 64 % 16;
    let extra_literals = element(
        streams.extra_literal_lengths,
        4,
        cursor.extra_literal_lengths as int,
    );
    let extra_matches = element(
        streams.extra_match_lengths,
        4,
        cursor.extra_match_lengths as int,
    );
    assert(field_u32(streams.offsets, 4 * cursor.offsets) is Ok ==> field_u32(
        streams.offsets,
        4 * cursor.offsets,
    )->Ok_0 == element(streams.offsets, 4, cursor.offsets as int));
    assert(field_u32(streams.extra_literal_lengths, 4 * cursor.extra_literal_lengths) is Ok
        ==> field_u32(
        streams.extra_literal_lengths,
        4 * cursor.extra_literal_lengths,
    )->Ok_0 == extra_literals);
    assert(field_u32(streams.extra_match_lengths, 4 * cursor.extra_match_lengths) is Ok
        ==> field_u32(
        streams.extra_match_lengths,
        4 * cursor.extra_match_lengths,
    )->Ok_0 == extra_matches);
    let more = stated_length(
        literal_code,
        streams.extra_literal_lengths,
        cursor.extra_literal_lengths,
    );
    let copies = least_match(width) + stated_length(
        match_code,
        streams.extra_match_lengths,
        cursor.extra_match_lengths,
    );
    assert(more <= more * width) by (nonlinear_arith)
        requires
            width >= 1,
    ;
    assert(copies <= copies * width) by (nonlinear_arith)
        requires
            width >= 1,
    ;
}

proof fn lemma_fits(
    streams: FieldStreams,
    output_len: nat,
    base: nat,
    index: nat,
    recent: Seq<nat>,
    cursor: FieldCursor,
    output: Seq<u8>,
)
    requires
        recent.len() == 3,
        numeric_width(streams.element_width as int),
        cursor.literals <= streams.literals.len(),
        field_decode_from(
            streams,
            output_len,
            base,
            index,
            state_at(recent, cursor, output),
        ) is Ok,
    ensures
        ({
            let text = field_decode_from(
                streams,
                output_len,
                base,
                index,
                state_at(recent, cursor, output),
            )->Ok_0;
            &&& output.len() <= text.len()
            &&& text.take(output.len() as int) == output
            &&& field_fits(streams, text, index, recent, cursor, output.len())
        }),
    decreases streams.tokens.len() / 2 - index,
{
    let state = state_at(recent, cursor, output);
    let text = field_decode_from(streams, output_len, base, index, state)->Ok_0;
    if index >= streams.tokens.len() / 2 {
        assert(text.skip(output.len() as int) =~= streams.literals.skip(cursor.literals as int));
        assert(text.take(output.len() as int) =~= output);
    } else {
        lemma_token_step(streams, output_len, base, index, recent, cursor, output);
        let width = streams.element_width;
        let token = element(streams.tokens, 2, index as int);
        let offset_code = token % 4;
        let literal_code = token / 4 % 16;
        let match_code = token / 64 % 16;
        let distance = named_distance(streams, recent, offset_code, cursor);
        let literals = stated_length(
            literal_code,
            streams.extra_literal_lengths,
            cursor.extra_literal_lengths,
        ) * width;
        let copied = (least_match(width) + stated_length(
            match_code,
            streams.extra_match_lengths,
            cursor.extra_match_lengths,
        )) * width;
        let end = cursor.literals + literals;
        let piece = streams.literals.subrange(cursor.literals as int, end as int);
        let part = output + piece;
        let all = lz_extend(part, distance, copied);
        lemma_extended(part, distance, copied);
        let read = token_read(cursor, offset_code, literal_code, match_code, literals);
        lemma_fits(
            streams,
            output_len,
            base,
            index + 1,
            moved_to_front(recent, offset_code, distance),
            read,
            all,
        );
        assert(text.take(output.len() as int) =~= all.take(part.len() as int).take(
            output.len() as int,
        ));
        assert(part.take(output.len() as int) =~= output);
        assert(text.subrange(output.len() as int, part.len() as int) =~= all.take(
            part.len() as int,
        ).subrange(output.len() as int, part.len() as int));
        assert(part.subrange(output.len() as int, part.len() as int) =~= piece);
        assert forall|k: int| part.len() <= k < part.len() + copied implies #[trigger] text[k]
            == text[k - distance] by {
            assert(text.take(all.len() as int)[k] == all[k]);
            assert(text.take(all.len() as int)[k - distance] == all[k - distance]);
        }
    }
}

proof fn lemma_decoded(
    streams: FieldStreams,
    output_len: nat,
    base: nat,
    text: Seq<u8>,
    index: nat,
    recent: Seq<nat>,
    cursor: FieldCursor,
    position: nat,
)
    requires
        recent.len() == 3,
        numeric_width(streams.element_width as int),
        streams.literals.len() <= usize::MAX,
        base + output_len <= usize::MAX,
        text.len() <= output_len,
        cursor.literals <= streams.literals.len(),
        position <= text.len(),
        field_fits(streams, text, index, recent, cursor, position),
    ensures
        field_decode_from(
            streams,
            output_len,
            base,
            index,
            state_at(recent, cursor, text.take(position as int)),
        ) == Ok::<Seq<u8>, ErrorView>(text),
    decreases streams.tokens.len() / 2 - index,
{
    let output = text.take(position as int);
    if index >= streams.tokens.len() / 2 {
        let rest = streams.literals.skip(cursor.literals as int);
        assert(text.skip(position as int).len() == rest.len());
        assert(output + rest =~= text) by {
            assert(output + text.skip(position as int) =~= text);
        }
    } else {
        lemma_token_step(streams, output_len, base, index, recent, cursor, output);
        let width = streams.element_width;
        let token = element(streams.tokens, 2, index as int);
        let offset_code = token % 4;
        let literal_code = token / 4 % 16;
        let match_code = token / 64 % 16;
        let distance = named_distance(streams, recent, offset_code, cursor);
        let literals = stated_length(
            literal_code,
            streams.extra_literal_lengths,
            cursor.extra_literal_lengths,
        ) * width;
        let copied = (least_match(width) + stated_length(
            match_code,
            streams.extra_match_lengths,
            cursor.extra_match_lengths,
        )) * width;
        let end = cursor.literals + literals;
        let middle = position + literals;
        let piece = streams.literals.subrange(cursor.literals as int, end as int);
        assert(output + piece =~= text.take(middle as int)) by {
            assert(output + text.subrange(position as int, middle as int) =~= text.take(
                middle as int,
            ));
        }
        lemma_repeated(text, middle, copied, distance);
        lemma_decoded(
            streams,
            output_len,
            base,
            text,
            index + 1,
            moved_to_front(recent, offset_code, distance),
            token_read(cursor, offset_code, literal_code, match_code, literals),
            middle + copied,
        );
    }
}

/// What a field LZ node decodes to is what its tokens say: the literals in order, and at
/// each match the bytes that stand back by the distance that the token names among the
/// recent ones or by itself.
pub proof fn law_field_lz_output_fits_its_tokens(
    inputs: Seq<StreamView>,
    header: Seq<u8>,
    limits: Limits,
    base: nat,
)
    requires
        field_lz_decode(inputs, header, limits, base) is Ok,
    ensures
        field_fits(
            field_streams(inputs),
            field_lz_decode(inputs, header, limits, base)->Ok_0,
            0,
            first_distances(inputs[0].element_width),
            cursor_start(),
            0,
        ),
{
    let capacity = field_shape(inputs, header, limits)->Ok_0;
    let width = inputs[0].element_width;
    assert(state_at(first_distances(width), cursor_start(), Seq::empty())
        =~= field_initial_state(width));
    lemma_fits(
        field_streams(inputs),
        capacity as nat,
        base,
        0,
        first_distances(width),
        cursor_start(),
        Seq::empty(),
    );
}

/// Bytes that were cut into literals and repeats come back: a field LZ node whose streams
/// state the cuts, and whose header states a number of elements that holds the bytes,
/// decodes to them.
pub proof fn law_field_lz_gives_back_what_was_cut(
    inputs: Seq<StreamView>,
    elements: nat,
    limits: Limits,
    base: nat,
    text: Seq<u8>,
)
    requires
        inputs.len() == 5,
        numeric_width(inputs[0].element_width as int),
        inputs[0].bytes.len() <= usize::MAX,
        inputs[1].element_width == 2,
        inputs[1].bytes.len() % 2 == 0,
        forall|i: int|
            2 <= i < 5 ==> (#[trigger] inputs[i]).element_width == 4 && inputs[i].bytes.len() % 4
                == 0,
        elements <= u64::MAX,
        text.len() <= elements * inputs[0].element_width,
        limits.admits((elements * inputs[0].element_width) as int),
        base + elements * inputs[0].element_width <= usize::MAX,
        field_fits(
            field_streams(inputs),
            text,
            0,
            first_distances(inputs[0].element_width),
            cursor_start(),
            0,
        ),
    ensures
        field_lz_decode(inputs, var_bytes(elements), limits, base) == Ok::<Seq<u8>, ErrorView>(
            text,
        ),
{
    let header = var_bytes(elements);
    let width = inputs[0].element_width;
    law_var_u64_round_trip(Seq::empty(), elements as u64, Seq::empty());
    assert(Seq::<u8>::empty() + header + Seq::<u8>::empty() =~= header);
    assert(Seq::<u8>::empty() + header =~= header);
    lemma_counted(elements, width);
    assert(state_at(first_distances(width), cursor_start(), Seq::empty())
        =~= field_initial_state(width));
    assert(inputs[2].element_width == 4 && inputs[3].element_width == 4
        && inputs[4].element_width == 4);
    assert(text.take(0) =~= Seq::empty());
    lemma_decoded(
        field_streams(inputs),
        elements * width,
        base,
        text,
        0,
        first_distances(width),
        cursor_start(),
        0,
    );
}

/// Field LZ streams that decode give what their tokens say.
pub proof fn law_field_streams_output_fits_their_tokens(
    streams: FieldStreams,
    output_len: nat,
    base: nat,
)
    requires
        field_streams_decode(streams, output_len, base) is Ok,
    ensures
        field_fits(
            streams,
            field_streams_decode(streams, output_len, base)->Ok_0,
            0,
            first_distances(streams.element_width),
            cursor_start(),
            0,
        ),
{
    let width = streams.element_width;
    assert(state_at(first_distances(width), cursor_start(), Seq::empty())
        =~= field_initial_state(width));
    lemma_fits(
        streams,
        output_len,
        base,
        0,
        first_distances(width),
        cursor_start(),
        Seq::empty(),
    );
}

} // verus!
