//! What the streams of a fastlz_deprecated node say of its output.

use vstd::prelude::*;

use crate::bytes::{
    law_le_round_trip, law_var_u64_round_trip, le_bytes, le_value, lemma_byte_range_values,
    lemma_le_bytes_len, var_bytes,
};
use crate::deprecated_lz::{
    entropy_header, literal_payload, literal_range, raw_payload, sized_slice,
};
use crate::error::ErrorView;
use crate::fastlz::{
    fastlz_decode, fastlz_deprecated_node, fastlz_extra, fastlz_extra_from, fastlz_from,
    fastlz_lengths, fastlz_literals, fastlz_offset, fastlz_payload, fastlz_start, fastlz_token,
    FastLzState, FastLzView,
};
use crate::limits::Limits;
use crate::lz::lz_extend;
use crate::lz_factors::{lemma_extended, lemma_repeated, repeats};
use crate::stream::{element, StreamView};

verus! {

/// How far the streams are used up.
pub struct FastLzCursor {
    pub literals: nat,
    pub offsets: nat,
    pub extras: nat,
}

/// The literal and match lengths of a token, and the extras used up behind it: the token's
/// own fields, or two lengths of the extras where they are zero.
pub open spec fn token_lengths(extras: Seq<u8>, used: nat, token: nat) -> Option<(nat, nat, nat)> {
    if token >= 4 {
        Some((token / 4 % 16, token / 64 % 32, used))
    } else {
        match fastlz_extra(extras, used) {
            Err(_) => None,
            Ok((literals, middle)) => match fastlz_extra(extras, middle) {
                Err(_) => None,
                Ok((copied, next)) => Some((literals, copied, next)),
            },
        }
    }
}

/// Whether `text`, from `position` on, is what the tokens from `index` on say: literals, then
/// bytes that repeat those a distance back; and the literals that are left at the end. The low
/// two bits of a token say how many bytes the distance takes, none for the last one again. A
/// first token of 60 stands for 15 literals alone.
pub open spec fn fastlz_fits(
    streams: FastLzView,
    text: Seq<u8>,
    index: nat,
    cursor: FastLzCursor,
    last: nat,
    position: nat,
) -> bool
    decreases streams.tokens.len() / 2 - index,
{
    if index >= streams.tokens.len() / 2 {
        &&& position <= text.len()
        &&& cursor.literals <= streams.literals.len()
        &&& cursor.offsets == streams.offsets.len()
        &&& cursor.extras == streams.extras.len()
        &&& text.skip(position as int) == streams.literals.skip(cursor.literals as int)
    } else {
        let token = element(streams.tokens, 2, index as int);
        let alone = index == 0 && token == 60;
        let size = if alone {
            0
        } else {
            token % 4
        };
        let distance = if size == 0 {
            last
        } else {
            le_value(
                streams.offsets.subrange(cursor.offsets as int, (cursor.offsets + size) as int),
            )
        };
        let lengths = if alone {
            Some((15nat, 0nat, cursor.extras))
        } else {
            token_lengths(streams.extras, cursor.extras, token)
        };
        match lengths {
            None => false,
            Some((literals, copied, extras)) => {
                let middle = position + literals;
                let end = middle + copied;
                &&& cursor.offsets + size <= streams.offsets.len()
                &&& cursor.literals + literals <= streams.literals.len()
                &&& end <= text.len()
                &&& text.subrange(position as int, middle as int) == streams.literals.subrange(
                    cursor.literals as int,
                    (cursor.literals + literals) as int,
                )
                &&& !alone ==> distance >= 16 && repeats(text, middle, end, distance)
                &&& fastlz_fits(
                    streams,
                    text,
                    index + 1,
                    FastLzCursor {
                        literals: cursor.literals + literals,
                        offsets: cursor.offsets + size,
                        extras,
                    },
                    distance,
                    end,
                )
            },
        }
    }
}

/// The state of the decoder at a cursor.
spec fn state_at(cursor: FastLzCursor, last: nat, output: Seq<u8>) -> FastLzState {
    FastLzState {
        literal_pos: cursor.literals,
        offsets_pos: cursor.offsets,
        extras_pos: cursor.extras,
        rep: last,
        output,
    }
}

/// What a decoder makes of its last state.
spec fn finished(
    streams: FastLzView,
    decoded_size: nat,
    state: Result<FastLzState, ErrorView>,
) -> bool {
    match state {
        Err(_) => false,
        Ok(state) => {
            let rest = streams.literals.len() - state.literal_pos;
            &&& state.offsets_pos == streams.offsets.len()
            &&& state.extras_pos == streams.extras.len()
            &&& state.output.len() + rest == decoded_size
        },
    }
}

#[verifier::rlimit(30)]
proof fn lemma_fits(
    streams: FastLzView,
    decoded_size: nat,
    index: nat,
    cursor: FastLzCursor,
    last: nat,
    output: Seq<u8>,
)
    requires
        index <= streams.tokens.len() / 2,
        cursor.literals <= streams.literals.len(),
        index > 0 || output.len() == 0,
        finished(
            streams,
            decoded_size,
            fastlz_from(streams, decoded_size, index, state_at(cursor, last, output)),
        ),
    ensures
        ({
            let state =
                fastlz_from(streams, decoded_size, index, state_at(cursor, last, output))->Ok_0;
            let text = state.output + streams.literals.skip(state.literal_pos as int);
            &&& state.literal_pos <= streams.literals.len()
            &&& output.len() <= text.len()
            &&& text.take(output.len() as int) == output
            &&& fastlz_fits(streams, text, index, cursor, last, output.len())
        }),
    decreases streams.tokens.len() / 2 - index,
{
    let start = state_at(cursor, last, output);
    let state = fastlz_from(streams, decoded_size, index, start)->Ok_0;
    let text = state.output + streams.literals.skip(state.literal_pos as int);
    if index >= streams.tokens.len() / 2 {
        assert(text.skip(output.len() as int) =~= streams.literals.skip(cursor.literals as int));
        assert(text.take(output.len() as int) =~= output);
    } else {
        let token = element(streams.tokens, 2, index as int);
        let alone = index == 0 && token == 60;
        let size = if alone {
            0
        } else {
            token % 4
        };
        let (literals, copied, extras) = if alone {
            (15nat, 0nat, cursor.extras)
        } else {
            fastlz_lengths(streams.extras, cursor.extras, token)->Ok_0
        };
        let distance = if alone {
            last
        } else {
            fastlz_offset(streams.offsets, cursor.offsets, token % 4, last)->Ok_0
        };
        let next = FastLzCursor {
            literals: cursor.literals + literals,
            offsets: cursor.offsets + size,
            extras,
        };
        let part = streams.literals.subrange(
            cursor.literals as int,
            (cursor.literals + literals) as int,
        );
        let front = output + part;
        let all = if alone {
            front
        } else {
            lz_extend(front, distance, copied)
        };
        if !alone {
            assert(fastlz_token(streams, decoded_size, token, start) is Ok);
            lemma_extended(front, distance, copied);
        }
        assert(all.take(front.len() as int) =~= front);
        assert(fastlz_from(streams, decoded_size, index, start) == fastlz_from(
            streams,
            decoded_size,
            index + 1,
            state_at(next, distance, all),
        ));
        lemma_fits(streams, decoded_size, index + 1, next, distance, all);
        assert(text.take(all.len() as int) == all);
        assert(text.take(output.len() as int) =~= all.take(front.len() as int).take(
            output.len() as int,
        ));
        assert(front.take(output.len() as int) =~= output);
        assert(text.subrange(output.len() as int, front.len() as int) =~= all.take(
            front.len() as int,
        ).subrange(output.len() as int, front.len() as int));
        assert(front.subrange(output.len() as int, front.len() as int) =~= part);
        if !alone {
            assert forall|k: int| front.len() <= k < front.len() + copied implies
                #[trigger] text[k] == text[k - distance] by {
                assert(text.take(all.len() as int)[k] == all[k]);
                assert(text.take(all.len() as int)[k - distance] == all[k - distance]);
            }
            assert(repeats(text, front.len(), front.len() + copied, distance));
        }
    }
}

#[verifier::rlimit(30)]
proof fn lemma_decoded(
    streams: FastLzView,
    text: Seq<u8>,
    index: nat,
    cursor: FastLzCursor,
    last: nat,
    position: nat,
)
    requires
        index <= streams.tokens.len() / 2,
        text.len() <= usize::MAX,
        streams.literals.len() <= usize::MAX,
        position <= text.len(),
        fastlz_fits(streams, text, index, cursor, last, position),
    ensures
        ({
            let result = fastlz_from(
                streams,
                text.len(),
                index,
                state_at(cursor, last, text.take(position as int)),
            );
            let state = result->Ok_0;
            &&& finished(streams, text.len(), result)
            &&& state.literal_pos <= streams.literals.len()
            &&& state.output + streams.literals.skip(state.literal_pos as int) == text
        }),
    decreases streams.tokens.len() / 2 - index,
{
    let output = text.take(position as int);
    let start = state_at(cursor, last, output);
    if index >= streams.tokens.len() / 2 {
        let rest = streams.literals.skip(cursor.literals as int);
        assert(text.skip(position as int).len() == rest.len());
        assert(output + rest =~= text) by {
            assert(output + text.skip(position as int) =~= text);
        }
    } else {
        let token = element(streams.tokens, 2, index as int);
        let alone = index == 0 && token == 60;
        let size = if alone {
            0
        } else {
            token % 4
        };
        let distance = if size == 0 {
            last
        } else {
            le_value(
                streams.offsets.subrange(cursor.offsets as int, (cursor.offsets + size) as int),
            )
        };
        let (literals, copied, extras) = if alone {
            (15nat, 0nat, cursor.extras)
        } else {
            token_lengths(streams.extras, cursor.extras, token)->Some_0
        };
        let middle = position + literals;
        let end = middle + copied;
        let next = FastLzCursor {
            literals: cursor.literals + literals,
            offsets: cursor.offsets + size,
            extras,
        };
        let part = streams.literals.subrange(
            cursor.literals as int,
            (cursor.literals + literals) as int,
        );
        assert(output + part =~= text.take(middle as int)) by {
            assert(output + text.subrange(position as int, middle as int) =~= text.take(
                middle as int,
            ));
        }
        assert(literal_range(streams.literals, cursor.literals, literals) == Ok::<
            Seq<u8>,
            ErrorView,
        >(part));
        assert(fastlz_literals(
            streams.literals,
            cursor.literals,
            output,
            literals,
            text.len(),
        ) == Ok::<Seq<u8>, ErrorView>(text.take(middle as int)));
        if !alone {
            lemma_repeated(text, middle, copied, distance);
            assert(fastlz_offset(streams.offsets, cursor.offsets, token % 4, last) == Ok::<
                nat,
                ErrorView,
            >(distance));
            assert(fastlz_lengths(streams.extras, cursor.extras, token) == Ok::<
                (nat, nat, nat),
                ErrorView,
            >((literals, copied, extras)));
            assert(fastlz_token(streams, text.len(), token, start) == Ok::<FastLzState, ErrorView>(
                state_at(next, distance, text.take(end as int)),
            ));
        }
        lemma_decoded(streams, text, index + 1, next, distance, end);
    }
}

/// Nothing is used up.
pub open spec fn cursor_start() -> FastLzCursor {
    FastLzCursor { literals: 0, offsets: 0, extras: 0 }
}

/// What the streams of a fastlz_deprecated node decode to is what their tokens say.
pub proof fn law_fastlz_output_fits_its_tokens(streams: FastLzView, decoded_size: nat)
    requires
        fastlz_decode(streams, decoded_size) is Ok,
    ensures
        fastlz_decode(streams, decoded_size)->Ok_0.len() == decoded_size,
        fastlz_fits(
            streams,
            fastlz_decode(streams, decoded_size)->Ok_0,
            0,
            cursor_start(),
            16,
            0,
        ),
{
    let none = Seq::<u8>::empty();
    assert(state_at(cursor_start(), 16, none) == fastlz_start());
    lemma_fits(streams, decoded_size, 0, cursor_start(), 16, none);
    let state = fastlz_from(streams, decoded_size, 0, fastlz_start())->Ok_0;
    assert(streams.literals.skip(state.literal_pos as int) =~= streams.literals.subrange(
        state.literal_pos as int,
        streams.literals.len() as int,
    ));
}

/// Bytes that were cut into literals and repeats come back from the streams that say so.
pub proof fn law_fastlz_gives_back_what_was_cut(streams: FastLzView, text: Seq<u8>)
    requires
        text.len() <= usize::MAX,
        streams.literals.len() <= usize::MAX,
        fastlz_fits(streams, text, 0, cursor_start(), 16, 0),
    ensures
        fastlz_decode(streams, text.len()) == Ok::<Seq<u8>, ErrorView>(text),
{
    assert(text.take(0) =~= Seq::<u8>::empty());
    assert(state_at(cursor_start(), 16, text.take(0)) == fastlz_start());
    lemma_decoded(streams, text, 0, cursor_start(), 16, 0);
    let state = fastlz_from(streams, text.len(), 0, fastlz_start())->Ok_0;
    assert(streams.literals.skip(state.literal_pos as int) =~= streams.literals.subrange(
        state.literal_pos as int,
        streams.literals.len() as int,
    ));
}

/// The 16-bit pieces of a long length.
pub open spec fn length_pieces(value: nat) -> Seq<u8>
    decreases value,
{
    if value < 0xffff {
        le_bytes(value, 2)
    } else {
        seq![255u8, 255u8] + length_pieces((value - 0xffff) as nat)
    }
}

/// A length as the extras hold it.
pub open spec fn length_bytes(value: nat) -> Seq<u8> {
    if value < 255 {
        seq![value as u8]
    } else {
        seq![255u8] + length_pieces((value - 255) as nat)
    }
}

proof fn lemma_pieces(front: Seq<u8>, value: nat, back: Seq<u8>, length: nat)
    requires
        length + value <= usize::MAX,
    ensures
        fastlz_extra_from(front + length_pieces(value) + back, front.len(), length) == Ok::<
            (nat, nat),
            ErrorView,
        >((length + value, front.len() + length_pieces(value).len())),
    decreases value,
{
    let all = front + length_pieces(value) + back;
    lemma_byte_range_values();
    if value < 0xffff {
        lemma_le_bytes_len(value, 2);
        law_le_round_trip(value, 2);
        assert(all.subrange(front.len() as int, front.len() as int + 2) =~= le_bytes(value, 2));
    } else {
        let rest = (value - 0xffff) as nat;
        let mark = seq![255u8, 255u8];
        assert(all.subrange(front.len() as int, front.len() as int + 2) =~= mark);
        lemma_le_bytes_len(0xffff, 2);
        law_le_round_trip(0xffff, 2);
        assert(le_bytes(0xffff, 2) =~= mark) by {
            assert(le_bytes(0xffff, 2) == seq![(0xffffnat % 256) as u8] + le_bytes(255, 1));
            assert(le_bytes(255, 1) == seq![(255nat % 256) as u8] + le_bytes(0, 0));
        }
        lemma_pieces(front + mark, rest, back, length + 0xffff);
        assert(front + mark + length_pieces(rest) + back =~= all);
    }
}

/// A length that was written into the extras reads back.
pub proof fn law_length_reads_back(front: Seq<u8>, value: nat, back: Seq<u8>)
    requires
        value <= usize::MAX,
    ensures
        fastlz_extra(front + length_bytes(value) + back, front.len()) == Ok::<
            (nat, nat),
            ErrorView,
        >((value, front.len() + length_bytes(value).len())),
{
    let all = front + length_bytes(value) + back;
    if value < 255 {
        assert(all[front.len() as int] == value as u8);
    } else {
        let rest = (value - 255) as nat;
        let mark = seq![255u8];
        assert(all[front.len() as int] == 255);
        lemma_pieces(front + mark, rest, back, 255);
        assert(front + mark + length_pieces(rest) + back =~= all);
    }
}

/// The header of a list: its mode, and how many elements it has.
pub open spec fn list_header(mode: nat, count: nat) -> Seq<u8> {
    if count < 16 {
        seq![(mode + 8 * count) as u8]
    } else {
        seq![(128 + mode + 8 * (count % 16)) as u8] + var_bytes(count / 16)
    }
}

/// The header of a list reads back.
pub proof fn law_list_header_reads_back(
    front: Seq<u8>,
    mode: nat,
    count: nat,
    back: Seq<u8>,
    name: Seq<char>,
)
    requires
        mode < 8,
        count <= usize::MAX,
    ensures
        entropy_header(front + list_header(mode, count) + back, front.len(), name) == Ok::<
            (nat, nat, nat),
            ErrorView,
        >((mode, count, front.len() + list_header(mode, count).len())),
{
    let all = front + list_header(mode, count) + back;
    if count < 16 {
        assert(all[front.len() as int] == (mode + 8 * count) as u8);
    } else {
        let byte = (128 + mode + 8 * (count % 16)) as u8;
        let high = (count / 16) as u64;
        assert(all[front.len() as int] == byte);
        law_var_u64_round_trip(front + seq![byte], high, back);
        assert(front + seq![byte] + var_bytes(high as nat) + back =~= all);
        assert(high as nat == count / 16);
        assert(byte as nat / 8 % 16 == count % 16);
        assert(byte as nat % 8 == mode);
        assert(high <= 0xfff_ffff_ffff_ffff);
    }
}

/// A list of bytes as it stands, behind its header.
pub open spec fn raw_list(bytes: Seq<u8>, width: nat) -> Seq<u8> {
    list_header(3, bytes.len() / width) + bytes
}

/// Bytes behind their number.
pub open spec fn sized_list(bytes: Seq<u8>) -> Seq<u8> {
    var_bytes(bytes.len()) + bytes
}

proof fn lemma_raw_list(
    front: Seq<u8>,
    bytes: Seq<u8>,
    width: nat,
    back: Seq<u8>,
    name: Seq<char>,
)
    requires
        width == 1 || width == 2,
        bytes.len() % width == 0,
        (front + raw_list(bytes, width) + back).len() <= usize::MAX,
    ensures
        raw_payload(front + raw_list(bytes, width) + back, front.len(), width, name) == Ok::<
            (Seq<u8>, nat),
            ErrorView,
        >((bytes, front.len() + raw_list(bytes, width).len())),
        width == 1 ==> literal_payload(
            front + raw_list(bytes, width) + back,
            front.len(),
            name,
        ) == Ok::<(Seq<u8>, nat), ErrorView>((bytes, front.len() + raw_list(bytes, width).len())),
{
    let all = front + raw_list(bytes, width) + back;
    let count = bytes.len() / width;
    let head = list_header(3, count);
    law_list_header_reads_back(front, 3, count, bytes + back, name);
    assert(front + head + (bytes + back) =~= all);
    let start = front.len() + head.len();
    assert(count * width == bytes.len());
    assert(all.subrange(start as int, (start + bytes.len()) as int) =~= bytes);
}

proof fn lemma_sized_list(front: Seq<u8>, bytes: Seq<u8>, back: Seq<u8>, name: Seq<char>)
    requires
        (front + sized_list(bytes) + back).len() <= usize::MAX,
    ensures
        sized_slice(front + sized_list(bytes) + back, front.len(), name) == Ok::<
            (Seq<u8>, nat),
            ErrorView,
        >((bytes, front.len() + sized_list(bytes).len())),
{
    let all = front + sized_list(bytes) + back;
    let head = var_bytes(bytes.len());
    law_var_u64_round_trip(front, bytes.len() as u64, bytes + back);
    assert(front + head + (bytes + back) =~= all);
    let start = front.len() + head.len();
    assert(all.subrange(start as int, (start + bytes.len()) as int) =~= bytes);
}

/// The streams of a fastlz_deprecated node as its payload holds them.
pub open spec fn payload_of(streams: FastLzView) -> Seq<u8> {
    raw_list(streams.literals, 1) + raw_list(streams.tokens, 2) + sized_list(streams.offsets)
        + sized_list(streams.extras)
}

/// The streams of a payload read back.
pub proof fn law_fastlz_payload_reads_back(streams: FastLzView)
    requires
        streams.tokens.len() % 2 == 0,
        payload_of(streams).len() <= usize::MAX,
    ensures
        fastlz_payload(payload_of(streams)) == Ok::<FastLzView, ErrorView>(streams),
{
    let all = payload_of(streams);
    let none = Seq::<u8>::empty();
    let one = raw_list(streams.literals, 1);
    let two = raw_list(streams.tokens, 2);
    let three = sized_list(streams.offsets);
    let four = sized_list(streams.extras);
    assert(none + one + (two + three + four) =~= all);
    lemma_raw_list(
        none,
        streams.literals,
        1,
        two + three + four,
        "fastlz_deprecated literals"@,
    );
    assert(one + two + (three + four) =~= all);
    lemma_raw_list(one, streams.tokens, 2, three + four, "fastlz_deprecated tokens"@);
    assert((one + two) + three + four =~= all);
    lemma_sized_list(one + two, streams.offsets, four, "fastlz_deprecated offsets"@);
    assert((one + two + three) + four + none =~= all);
    lemma_sized_list(one + two + three, streams.extras, none, "fastlz_deprecated extras"@);
}

/// Bytes that were cut into literals and repeats, and written as a fastlz_deprecated stream
/// behind their number, come back.
pub proof fn law_fastlz_round_trip(streams: FastLzView, text: Seq<u8>, limits: Limits)
    requires
        text.len() <= u32::MAX,
        limits.admits(text.len() as int),
        streams.tokens.len() % 2 == 0,
        payload_of(streams).len() <= usize::MAX,
        fastlz_fits(streams, text, 0, cursor_start(), 16, 0),
    ensures
        fastlz_deprecated_node(
            StreamView {
                bytes: le_bytes(text.len(), 4) + payload_of(streams),
                element_width: 1,
                string_lengths: None,
            },
            Seq::empty(),
            limits,
        ) == Ok::<Seq<u8>, ErrorView>(text),
{
    let head = le_bytes(text.len(), 4);
    let payload = payload_of(streams);
    let bytes = head + payload;
    lemma_le_bytes_len(text.len(), 4);
    lemma_byte_range_values();
    law_le_round_trip(text.len(), 4);
    assert(bytes.subrange(0, 4) =~= head);
    assert(bytes.subrange(4, bytes.len() as int) =~= payload);
    law_fastlz_payload_reads_back(streams);
    law_fastlz_gives_back_what_was_cut(streams, text);
}

} // verus!
