//! Field LZ: back-references over fixed-width fields, with recent offsets.

use vstd::prelude::*;
use vstd::slice::slice_subrange;

use crate::bytes::{
    append_bytes, le_value, lemma_byte_range_values, lemma_le_value_bound, read_le, read_var_u64,
    var_u64,
};
use crate::error::{
    appends, detailed, error_of, fail, outcome, plain, plain_outcome, same_or_overflow, Error,
    ErrorKind, ErrorView,
};
use crate::limits::{check_output_limit, output_limit_error, Limits};
use crate::lz::{append_lz_match, lemma_lz_extend_behind_prefix, lemma_lz_extend_len, lz_extend};
use crate::scratch::{buffer_capacity, DecodeScratch};
use crate::stream::{
    require_numeric_width, required_width_error, stream_views, typed_stream, OwnedStream,
    StreamInput, StreamView,
};

verus! {

/// The streams of a field LZ node.
#[verifier::ext_equal]
pub struct FieldStreams {
    pub literals: Seq<u8>,
    pub tokens: Seq<u8>,
    pub offsets: Seq<u8>,
    pub extra_literal_lengths: Seq<u8>,
    pub extra_match_lengths: Seq<u8>,
    pub element_width: nat,
}

/// How far a field LZ decode has come.
#[verifier::ext_equal]
pub struct FieldState {
    pub reps: (nat, nat, nat),
    pub literal_pos: nat,
    pub offset_pos: nat,
    pub extra_literal_pos: nat,
    pub extra_match_pos: nat,
    pub output: Seq<u8>,
}

/// The fewest elements that a match of `width`-byte elements covers.
pub open spec fn field_min_match(width: nat) -> nat {
    if width == 1 {
        4
    } else if width == 2 {
        2
    } else {
        1
    }
}

/// The recent offsets that decoding starts with.
pub open spec fn field_initial_reps(width: nat) -> (nat, nat, nat) {
    (width, width * 2, width * 4)
}

/// The 32-bit integer at `position`, or the error of running past the end.
pub open spec fn field_u32(bytes: Seq<u8>, position: nat) -> Result<nat, ErrorView> {
    if position + 4 > bytes.len() {
        Err(detailed(ErrorKind::Malformed, "numeric stream is exhausted"@))
    } else {
        Ok(le_value(bytes.subrange(position as int, position as int + 4)))
    }
}

/// The recent offsets after a match that uses the offset code `code`; the match
/// offset is the first of them.
pub open spec fn field_next_reps(reps: (nat, nat, nat), code: nat, explicit: nat) -> (
    nat,
    nat,
    nat,
) {
    if code == 3 {
        (explicit, reps.0, reps.1)
    } else if code == 0 {
        reps
    } else if code == 1 {
        (reps.1, reps.0, reps.2)
    } else {
        (reps.2, reps.0, reps.1)
    }
}

/// The recent offsets and offset position after reading an offset.
pub open spec fn field_offset(streams: FieldStreams, state: FieldState, code: nat) -> Result<
    FieldState,
    ErrorView,
> {
    if code != 3 {
        Ok(FieldState { reps: field_next_reps(state.reps, code, 0), ..state })
    } else {
        match field_u32(streams.offsets, state.offset_pos) {
            Err(error) => Err(error),
            Ok(raw) => if raw * streams.element_width > usize::MAX {
                Err(plain(ErrorKind::IntegerOverflow))
            } else {
                Ok(
                    FieldState {
                        reps: field_next_reps(state.reps, 3, raw * streams.element_width),
                        offset_pos: state.offset_pos + 4,
                        ..state
                    },
                )
            },
        }
    }
}

/// A length in bytes: `elements`, with an extra count where `code` says so.
pub open spec fn field_length(
    extras: Seq<u8>,
    position: nat,
    code: nat,
    elements: nat,
    width: nat,
) -> Result<(nat, nat), ErrorView> {
    if code != 15 {
        if elements * width > usize::MAX {
            Err(plain(ErrorKind::IntegerOverflow))
        } else {
            Ok((elements * width, position))
        }
    } else {
        match field_u32(extras, position) {
            Err(error) => Err(error),
            Ok(extra) => if elements + extra > usize::MAX || (elements + extra) * width
                > usize::MAX {
                Err(plain(ErrorKind::IntegerOverflow))
            } else {
                Ok(((elements + extra) * width, position + 4))
            },
        }
    }
}

/// The state after copying literals and a match.
pub open spec fn field_copy(
    streams: FieldStreams,
    output_len: nat,
    base: nat,
    state: FieldState,
    literal_len: nat,
    match_len: nat,
) -> Result<FieldState, ErrorView> {
    let literal_end = state.literal_pos + literal_len;
    if literal_end > usize::MAX || base + state.output.len() + literal_len > usize::MAX {
        Err(plain(ErrorKind::IntegerOverflow))
    } else if literal_end > streams.literals.len() {
        Err(detailed(ErrorKind::Malformed, "field_lz literal stream is too short"@))
    } else if state.output.len() + literal_len > output_len {
        Err(detailed(ErrorKind::Malformed, "field_lz literal length exceeds output size"@))
    } else {
        let literals = state.output + streams.literals.subrange(
            state.literal_pos as int,
            literal_end as int,
        );
        let offset = state.reps.0;
        if offset == 0 {
            Err(detailed(ErrorKind::Malformed, "field_lz offset is zero"@))
        } else if offset > literals.len() {
            Err(detailed(ErrorKind::Malformed, "field_lz offset exceeds decoded prefix"@))
        } else if base + literals.len() + match_len > usize::MAX {
            Err(plain(ErrorKind::IntegerOverflow))
        } else if literals.len() + match_len > output_len {
            Err(detailed(ErrorKind::Malformed, "field_lz match length exceeds output size"@))
        } else {
            Ok(
                FieldState {
                    literal_pos: literal_end,
                    output: lz_extend(literals, offset, match_len),
                    ..state
                },
            )
        }
    }
}

/// The state after the token at `index`.
pub open spec fn field_step(
    streams: FieldStreams,
    output_len: nat,
    base: nat,
    index: nat,
    state: FieldState,
) -> Result<FieldState, ErrorView> {
    let token = le_value(streams.tokens.subrange(index as int * 2, index as int * 2 + 2));
    let width = streams.element_width;
    match field_offset(streams, state, token % 4) {
        Err(error) => Err(error),
        Ok(located) => match field_length(
            streams.extra_literal_lengths,
            located.extra_literal_pos,
            token / 4 % 16,
            token / 4 % 16,
            width,
        ) {
            Err(error) => Err(error),
            Ok((literal_len, extra_literal_pos)) => match field_length(
                streams.extra_match_lengths,
                located.extra_match_pos,
                token / 64 % 16,
                token / 64 % 16 + field_min_match(width),
                width,
            ) {
                Err(error) => Err(error),
                Ok((match_len, extra_match_pos)) => field_copy(
                    streams,
                    output_len,
                    base,
                    FieldState { extra_literal_pos, extra_match_pos, ..located },
                    literal_len,
                    match_len,
                ),
            },
        },
    }
}

/// Decodes the tokens from `index` on.
pub open spec fn field_decode_from(
    streams: FieldStreams,
    output_len: nat,
    base: nat,
    index: nat,
    state: FieldState,
) -> Result<Seq<u8>, ErrorView>
    decreases streams.tokens.len() / 2 - index,
{
    if index >= streams.tokens.len() / 2 {
        let rest = streams.literals.skip(state.literal_pos as int);
        if base + state.output.len() + rest.len() > usize::MAX {
            Err(plain(ErrorKind::IntegerOverflow))
        } else if state.output.len() + rest.len() > output_len {
            Err(detailed(ErrorKind::Malformed, "field_lz output size exceeds header capacity"@))
        } else if state.offset_pos != streams.offsets.len() || state.extra_literal_pos
            != streams.extra_literal_lengths.len() || state.extra_match_pos
            != streams.extra_match_lengths.len() {
            Err(
                detailed(ErrorKind::Malformed, "field_lz numeric stream was not fully consumed"@),
            )
        } else {
            Ok(state.output + rest)
        }
    } else {
        match field_step(streams, output_len, base, index, state) {
            Err(error) => Err(error),
            Ok(next) => field_decode_from(streams, output_len, base, index + 1, next),
        }
    }
}

/// Where decoding starts.
pub open spec fn field_initial_state(width: nat) -> FieldState {
    FieldState {
        reps: field_initial_reps(width),
        literal_pos: 0,
        offset_pos: 0,
        extra_literal_pos: 0,
        extra_match_pos: 0,
        output: Seq::empty(),
    }
}

/// The most bytes that a field LZ header declares.
pub open spec fn field_header(header: Seq<u8>, width: nat, limits: Limits) -> Result<
    usize,
    ErrorView,
> {
    match var_u64(header, 0) {
        Err(error) => Err(error),
        Ok((elements, end)) => if end != header.len() {
            Err(detailed(ErrorKind::Malformed, "field_lz header has trailing bytes"@))
        } else if elements > usize::MAX {
            Err(detailed(ErrorKind::LimitExceeded, "field_lz output size is too large"@))
        } else if elements * width > usize::MAX {
            Err(plain(ErrorKind::IntegerOverflow))
        } else if !limits.admits(elements * width) {
            Err(output_limit_error())
        } else {
            Ok((elements * width) as usize)
        },
    }
}

/// The output capacity of a field LZ node, or why it is refused.
pub open spec fn field_shape(inputs: Seq<StreamView>, header: Seq<u8>, limits: Limits) -> Result<
    usize,
    ErrorView,
> {
    if inputs.len() != 5 {
        Err(detailed(ErrorKind::InvalidGraph, "field_lz input count does not match node shape"@))
    } else if !crate::stream::numeric_width(inputs[0].element_width as int) {
        Err(detailed(ErrorKind::InvalidType, "field_lz literal width is unsupported"@))
    } else if required_width_error(inputs[1], 2, "field_lz tokens"@) is Some {
        Err(required_width_error(inputs[1], 2, "field_lz tokens"@)->0)
    } else if required_width_error(inputs[2], 4, "field_lz offsets"@) is Some {
        Err(required_width_error(inputs[2], 4, "field_lz offsets"@)->0)
    } else if required_width_error(inputs[3], 4, "field_lz extra literal lengths"@) is Some {
        Err(required_width_error(inputs[3], 4, "field_lz extra literal lengths"@)->0)
    } else if required_width_error(inputs[4], 4, "field_lz extra match lengths"@) is Some {
        Err(required_width_error(inputs[4], 4, "field_lz extra match lengths"@)->0)
    } else {
        field_header(header, inputs[0].element_width, limits)
    }
}

/// The streams of a field LZ node by their roles.
pub open spec fn field_streams(inputs: Seq<StreamView>) -> FieldStreams {
    FieldStreams {
        literals: inputs[0].bytes,
        tokens: inputs[1].bytes,
        offsets: inputs[2].bytes,
        extra_literal_lengths: inputs[3].bytes,
        extra_match_lengths: inputs[4].bytes,
        element_width: inputs[0].element_width,
    }
}

/// What a field LZ node decodes to behind `base` earlier bytes.
pub open spec fn field_lz_decode(
    inputs: Seq<StreamView>,
    header: Seq<u8>,
    limits: Limits,
    base: nat,
) -> Result<Seq<u8>, ErrorView> {
    match field_shape(inputs, header, limits) {
        Err(error) => Err(error),
        Ok(capacity) => if base + capacity > usize::MAX {
            Err(plain(ErrorKind::IntegerOverflow))
        } else {
            field_decode_from(
                field_streams(inputs),
                capacity as nat,
                base,
                0,
                field_initial_state(inputs[0].element_width),
            )
        },
    }
}

/// A field LZ node that decodes gives at most as many bytes as its header
/// declares.
pub proof fn law_field_lz_stays_within_header(
    inputs: Seq<StreamView>,
    header: Seq<u8>,
    limits: Limits,
    base: nat,
)
    requires
        field_lz_decode(inputs, header, limits, base) is Ok,
    ensures
        field_header(header, inputs[0].element_width, limits) is Ok,
        field_lz_decode(inputs, header, limits, base)->Ok_0.len() <= field_header(
            header,
            inputs[0].element_width,
            limits,
        )->Ok_0,
        limits.admits(field_lz_decode(inputs, header, limits, base)->Ok_0.len() as int),
{
    let capacity = field_shape(inputs, header, limits)->Ok_0;
    lemma_field_decoded_len(
        field_streams(inputs),
        capacity as nat,
        base,
        0,
        field_initial_state(inputs[0].element_width),
    );
}

proof fn lemma_field_decoded_len(
    streams: FieldStreams,
    output_len: nat,
    base: nat,
    index: nat,
    state: FieldState,
)
    requires
        field_decode_from(streams, output_len, base, index, state) is Ok,
    ensures
        field_decode_from(streams, output_len, base, index, state)->Ok_0.len() <= output_len,
    decreases streams.tokens.len() / 2 - index,
{
    if index < streams.tokens.len() / 2 {
        let next = field_step(streams, output_len, base, index, state)->Ok_0;
        lemma_field_decoded_len(streams, output_len, base, index + 1, next);
    }
}

/// What a field LZ node decodes to does not depend on how many bytes stand in front of
/// it, as long as what its header declares fits behind them.
pub proof fn law_field_lz_ignores_earlier_bytes(
    inputs: Seq<StreamView>,
    header: Seq<u8>,
    limits: Limits,
    base: nat,
    other: nat,
)
    requires
        field_lz_decode(inputs, header, limits, base) is Ok,
        other + field_header(header, inputs[0].element_width, limits)->Ok_0 <= usize::MAX,
    ensures
        field_lz_decode(inputs, header, limits, other) == field_lz_decode(
            inputs,
            header,
            limits,
            base,
        ),
{
    let capacity = field_shape(inputs, header, limits)->Ok_0;
    lemma_field_base(
        field_streams(inputs),
        capacity as nat,
        base,
        other,
        0,
        field_initial_state(inputs[0].element_width),
    );
}

/// More bytes in front of a field LZ node change what it comes to only where a size no
/// longer fits.
pub proof fn law_field_lz_only_overflows(
    inputs: Seq<StreamView>,
    header: Seq<u8>,
    limits: Limits,
    fewer: nat,
    more: nat,
)
    requires
        fewer <= more,
    ensures
        same_or_overflow(
            field_lz_decode(inputs, header, limits, fewer),
            field_lz_decode(inputs, header, limits, more),
        ),
{
    if let Ok(capacity) = field_shape(inputs, header, limits) {
        lemma_field_overflow(
            field_streams(inputs),
            capacity as nat,
            fewer,
            more,
            0,
            field_initial_state(inputs[0].element_width),
        );
    }
}

proof fn lemma_field_overflow(
    streams: FieldStreams,
    output_len: nat,
    fewer: nat,
    more: nat,
    index: nat,
    state: FieldState,
)
    requires
        fewer <= more,
    ensures
        same_or_overflow(
            field_decode_from(streams, output_len, fewer, index, state),
            field_decode_from(streams, output_len, more, index, state),
        ),
    decreases streams.tokens.len() / 2 - index,
{
    if index < streams.tokens.len() / 2 {
        let step = field_step(streams, output_len, fewer, index, state);
        assert(field_step(streams, output_len, more, index, state) == step || field_step(
            streams,
            output_len,
            more,
            index,
            state,
        ) == Err::<FieldState, ErrorView>(plain(ErrorKind::IntegerOverflow)));
        if let Ok(next) = step {
            lemma_field_overflow(streams, output_len, fewer, more, index + 1, next);
        }
    }
}

proof fn lemma_field_base(
    streams: FieldStreams,
    output_len: nat,
    base: nat,
    other: nat,
    index: nat,
    state: FieldState,
)
    requires
        field_decode_from(streams, output_len, base, index, state) is Ok,
        other + output_len <= usize::MAX,
    ensures
        field_decode_from(streams, output_len, other, index, state) == field_decode_from(
            streams,
            output_len,
            base,
            index,
            state,
        ),
    decreases streams.tokens.len() / 2 - index,
{
    if index < streams.tokens.len() / 2 {
        let next = field_step(streams, output_len, base, index, state)->Ok_0;
        assert(field_step(streams, output_len, other, index, state) == field_step(
            streams,
            output_len,
            base,
            index,
            state,
        ));
        lemma_field_base(streams, output_len, base, other, index + 1, next);
    }
}

fn read_field_u32(bytes: &[u8], position: usize) -> (result: Result<usize, Error>)
    requires
        position <= bytes.len(),
    ensures
        match result {
            Ok(value) => field_u32(bytes@, position as nat) == Ok::<nat, ErrorView>(value as nat)
                && position + 4 <= bytes.len(),
            Err(error) => field_u32(bytes@, position as nat) == Err::<nat, ErrorView>(error@),
        },
{
    if bytes.len() - position < 4 {
        return Err(fail(ErrorKind::Malformed, "numeric stream is exhausted"));
    }
    proof {
        lemma_le_value_bound(bytes@.subrange(position as int, position + 4));
        lemma_byte_range_values();
    }
    Ok(read_le(bytes, position, 4) as usize)
}

/// Reads a length: `elements` elements, with an extra count where `code` says so.
fn read_field_length(
    extras: &[u8],
    position: usize,
    code: usize,
    elements: usize,
    width: usize,
) -> (result: Result<(usize, usize), Error>)
    requires
        position <= extras.len(),
    ensures
        match result {
            Ok((len, next)) => field_length(
                extras@,
                position as nat,
                code as nat,
                elements as nat,
                width as nat,
            ) == Ok::<(nat, nat), ErrorView>((len as nat, next as nat)) && next <= extras.len(),
            Err(error) => field_length(
                extras@,
                position as nat,
                code as nat,
                elements as nat,
                width as nat,
            ) == Err::<(nat, nat), ErrorView>(error@),
        },
{
    let mut elements: usize = elements;
    let mut next: usize = position;
    if code == 15 {
        let extra: usize = read_field_u32(extras, position)?;
        next = position + 4;
        elements = match elements.checked_add(extra) {
            Some(sum) => sum,
            None => {
                return Err(Error::new(ErrorKind::IntegerOverflow));
            },
        };
    }
    match elements.checked_mul(width) {
        Some(len) => Ok((len, next)),
        None => Err(Error::new(ErrorKind::IntegerOverflow)),
    }
}

/// Decodes field LZ streams into the spare capacity of `output`; `output_len` bounds what
/// is appended. `output` is left as it was where the streams are refused. They are refused
/// where `output_base` is not the length of `output`, and where `Vec::capacity` says that
/// `output_len` more bytes do not fit.
pub fn decode_to_output(
    literals: &[u8],
    tokens: &[u8],
    offsets: &[u8],
    extra_literal_lengths: &[u8],
    extra_match_lengths: &[u8],
    element_width: usize,
    output_len: usize,
    output: &mut Vec<u8>,
    output_base: usize,
) -> (result: Result<(), Error>)
    ensures
        exists|capacity: usize|
            old(output)@.len() <= capacity && appends(
                #[trigger] field_streams_appended(
                    (FieldStreams {
                        literals: literals@,
                        tokens: tokens@,
                        offsets: offsets@,
                        extra_literal_lengths: extra_literal_lengths@,
                        extra_match_lengths: extra_match_lengths@,
                        element_width: element_width as nat,
                    }),
                    output_len as nat,
                    output_base as nat,
                    old(output)@.len(),
                    capacity as nat,
                ),
                old(output)@,
                final(output)@,
                error_of(result),
            ),
{
    let capacity: usize = buffer_capacity(output);
    decode_within(
        literals,
        tokens,
        offsets,
        extra_literal_lengths,
        extra_match_lengths,
        element_width,
        output_len,
        output,
        output_base,
        capacity,
    )
}

/// Decodes field LZ streams at the end of `output`; `output_len` bounds what is
/// appended. `output` is left as it was where the streams are refused. They are refused
/// where `output_base` is not the length of `output`, and where `output_len` more bytes
/// exceed `capacity`.
pub fn decode_within(
    literals: &[u8],
    tokens: &[u8],
    offsets: &[u8],
    extra_literal_lengths: &[u8],
    extra_match_lengths: &[u8],
    element_width: usize,
    output_len: usize,
    output: &mut Vec<u8>,
    output_base: usize,
    capacity: usize,
) -> (result: Result<(), Error>)
    ensures
        appends(
            field_streams_appended(
                (FieldStreams {
                    literals: literals@,
                    tokens: tokens@,
                    offsets: offsets@,
                    extra_literal_lengths: extra_literal_lengths@,
                    extra_match_lengths: extra_match_lengths@,
                    element_width: element_width as nat,
                }),
                output_len as nat,
                output_base as nat,
                old(output)@.len(),
                capacity as nat,
            ),
            old(output)@,
            final(output)@,
            error_of(result),
        ),
{
    if output_len > usize::MAX - output_base {
        return Err(Error::new(ErrorKind::IntegerOverflow));
    }
    if output.len() != output_base || capacity < output_base + output_len {
        return Err(fail(ErrorKind::InvalidGraph, "field_lz output spare capacity is invalid"));
    }
    let ghost before = output@;
    match append_field_tokens(
        literals,
        tokens,
        offsets,
        extra_literal_lengths,
        extra_match_lengths,
        element_width,
        output_len,
        output,
    ) {
        Ok(_) => {
            proof {
                assert(output@ =~= before + output@.skip(before.len() as int));
            }
            Ok(())
        },
        Err(error) => {
            output.truncate(output_base);
            proof {
                assert(output@ =~= before);
            }
            Err(error)
        },
    }
}

/// What field LZ streams decode to, checked for whole elements.
pub open spec fn field_streams_decode(streams: FieldStreams, output_len: nat, base: nat) -> Result<
    Seq<u8>,
    ErrorView,
> {
    if base + output_len > usize::MAX {
        Err(plain(ErrorKind::IntegerOverflow))
    } else if streams.tokens.len() % 2 != 0 || streams.offsets.len() % 4 != 0
        || streams.extra_literal_lengths.len() % 4 != 0 || streams.extra_match_lengths.len() % 4
        != 0 {
        Err(detailed(ErrorKind::Malformed, "numeric stream has partial element"@))
    } else if !crate::stream::numeric_width(streams.element_width as int) {
        Err(detailed(ErrorKind::InvalidType, "field_lz literal width is unsupported"@))
    } else {
        field_decode_from(
            streams,
            output_len,
            base,
            0,
            field_initial_state(streams.element_width),
        )
    }
}

/// The error of output that is not written behind what is there.
pub open spec fn field_place_error() -> ErrorView {
    detailed(ErrorKind::InvalidGraph, "field_lz output spare capacity is invalid"@)
}

/// What field LZ streams append to `len` bytes, with room for `capacity`, where they are
/// told that there are `base`.
pub open spec fn field_streams_appended(
    streams: FieldStreams,
    output_len: nat,
    base: nat,
    len: nat,
    capacity: nat,
) -> Result<Seq<u8>, ErrorView> {
    if base + output_len <= usize::MAX && (base != len || capacity < base + output_len) {
        Err(field_place_error())
    } else {
        field_streams_decode(streams, output_len, base)
    }
}

/// What a field LZ node appends to `len` bytes, where it is told that there are `base`.
pub open spec fn field_lz_appended(
    inputs: Seq<StreamView>,
    header: Seq<u8>,
    limits: Limits,
    base: nat,
    len: nat,
) -> Result<Seq<u8>, ErrorView> {
    match field_shape(inputs, header, limits) {
        Ok(capacity) => if base + capacity <= usize::MAX && base != len {
            Err(field_place_error())
        } else {
            field_lz_decode(inputs, header, limits, base)
        },
        Err(error) => Err(error),
    }
}

#[verifier::rlimit(40)]
fn append_field_tokens(
    literals: &[u8],
    tokens: &[u8],
    offsets: &[u8],
    extra_literal_lengths: &[u8],
    extra_match_lengths: &[u8],
    element_width: usize,
    output_len: usize,
    output: &mut Vec<u8>,
) -> (result: Result<(), Error>)
    ensures
        match result {
            Ok(_) => field_streams_decode(
                (FieldStreams {
                    literals: literals@,
                    tokens: tokens@,
                    offsets: offsets@,
                    extra_literal_lengths: extra_literal_lengths@,
                    extra_match_lengths: extra_match_lengths@,
                    element_width: element_width as nat,
                }),
                output_len as nat,
                old(output)@.len(),
            ) == Ok::<Seq<u8>, ErrorView>(final(output)@.skip(old(output)@.len() as int)),
            Err(error) => field_streams_decode(
                (FieldStreams {
                    literals: literals@,
                    tokens: tokens@,
                    offsets: offsets@,
                    extra_literal_lengths: extra_literal_lengths@,
                    extra_match_lengths: extra_match_lengths@,
                    element_width: element_width as nat,
                }),
                output_len as nat,
                old(output)@.len(),
            ) == Err::<Seq<u8>, ErrorView>(error@),
        },
        final(output)@.len() >= old(output)@.len(),
        final(output)@.take(old(output)@.len() as int) == old(output)@,
{
    let ghost prefix = output@;
    let output_base: usize = output.len();
    proof {
        assert(prefix.take(prefix.len() as int) =~= prefix);
    }
    if output_len > usize::MAX - output_base {
        return Err(Error::new(ErrorKind::IntegerOverflow));
    }
    let output_limit: usize = output_base + output_len;
    if tokens.len() % 2 != 0 || offsets.len() % 4 != 0 || extra_literal_lengths.len() % 4 != 0
        || extra_match_lengths.len() % 4 != 0 {
        return Err(fail(ErrorKind::Malformed, "numeric stream has partial element"));
    }
    let min_match: usize = match element_width {
        1 => 4,
        2 => 2,
        4 | 8 => 1,
        _ => {
            return Err(fail(ErrorKind::InvalidType, "field_lz literal width is unsupported"));
        },
    };
    let ghost streams = FieldStreams {
        literals: literals@,
        tokens: tokens@,
        offsets: offsets@,
        extra_literal_lengths: extra_literal_lengths@,
        extra_match_lengths: extra_match_lengths@,
        element_width: element_width as nat,
    };
    let ghost total = field_decode_from(
        streams,
        output_len as nat,
        prefix.len(),
        0,
        field_initial_state(element_width as nat),
    );
    let mut rep0: usize = element_width;
    let mut rep1: usize = element_width * 2;
    let mut rep2: usize = element_width * 4;
    let mut literal_pos: usize = 0;
    let mut offset_pos: usize = 0;
    let mut extra_literal_pos: usize = 0;
    let mut extra_match_pos: usize = 0;
    let ghost mut decoded = Seq::<u8>::empty();
    let token_count: usize = tokens.len() / 2;
    let mut index: usize = 0;
    proof {
        assert(prefix + decoded =~= prefix);
    }
    while index < token_count
        invariant
            index <= token_count,
            token_count == tokens.len() / 2,
            tokens.len() % 2 == 0,
            prefix == old(output)@,
            output_base == prefix.len(),
            output_limit == output_base + output_len,
            min_match == field_min_match(element_width as nat),
            output@ == prefix + decoded,
            output@.len() <= output_limit,
            literal_pos <= literals.len(),
            offset_pos <= offsets.len(),
            extra_literal_pos <= extra_literal_lengths.len(),
            extra_match_pos <= extra_match_lengths.len(),
            streams == (FieldStreams {
                literals: literals@,
                tokens: tokens@,
                offsets: offsets@,
                extra_literal_lengths: extra_literal_lengths@,
                extra_match_lengths: extra_match_lengths@,
                element_width: element_width as nat,
            }),
            total == field_streams_decode(streams, output_len as nat, old(output)@.len()),
            total == field_decode_from(
                streams,
                output_len as nat,
                prefix.len(),
                index as nat,
                (FieldState {
                    reps: (rep0 as nat, rep1 as nat, rep2 as nat),
                    literal_pos: literal_pos as nat,
                    offset_pos: offset_pos as nat,
                    extra_literal_pos: extra_literal_pos as nat,
                    extra_match_pos: extra_match_pos as nat,
                    output: decoded,
                }),
            ),
        decreases token_count - index,
    {
        let ghost state = FieldState {
            reps: (rep0 as nat, rep1 as nat, rep2 as nat),
            literal_pos: literal_pos as nat,
            offset_pos: offset_pos as nat,
            extra_literal_pos: extra_literal_pos as nat,
            extra_match_pos: extra_match_pos as nat,
            output: decoded,
        };
        proof {
            assert((prefix + decoded).take(prefix.len() as int) =~= prefix);
        }
        let token: usize = read_le(tokens, index * 2, 2) as usize;
        proof {
            lemma_le_value_bound(tokens@.subrange(index * 2, index * 2 + 2));
            lemma_byte_range_values();
            assert(token as nat == le_value(streams.tokens.subrange(index * 2, index * 2 + 2)));
        }
        let offset_code: usize = token % 4;
        let literal_code: usize = token / 4 % 16;
        let match_code: usize = token / 64 % 16;
        if offset_code == 3 {
            let raw: usize = read_field_u32(offsets, offset_pos)?;
            let byte_offset: usize = match raw.checked_mul(element_width) {
                Some(byte_offset) => byte_offset,
                None => {
                    return Err(Error::new(ErrorKind::IntegerOverflow));
                },
            };
            offset_pos = offset_pos + 4;
            rep2 = rep1;
            rep1 = rep0;
            rep0 = byte_offset;
        } else if offset_code == 1 {
            let byte_offset: usize = rep1;
            rep1 = rep0;
            rep0 = byte_offset;
        } else if offset_code == 2 {
            let byte_offset: usize = rep2;
            rep2 = rep1;
            rep1 = rep0;
            rep0 = byte_offset;
        }
        let ghost located = FieldState {
            reps: (rep0 as nat, rep1 as nat, rep2 as nat),
            offset_pos: offset_pos as nat,
            ..state
        };
        assert(field_offset(streams, state, offset_code as nat) == Ok::<FieldState, ErrorView>(
            located,
        ));
        let (literal_len, next_literal_pos) = read_field_length(
            extra_literal_lengths,
            extra_literal_pos,
            literal_code,
            literal_code,
            element_width,
        )?;
        let (match_len, next_match_pos) = read_field_length(
            extra_match_lengths,
            extra_match_pos,
            match_code,
            match_code + min_match,
            element_width,
        )?;
        extra_literal_pos = next_literal_pos;
        extra_match_pos = next_match_pos;
        let ghost measured = FieldState {
            extra_literal_pos: extra_literal_pos as nat,
            extra_match_pos: extra_match_pos as nat,
            ..located
        };
        assert(field_step(streams, output_len as nat, prefix.len(), index as nat, state)
            == field_copy(
            streams,
            output_len as nat,
            prefix.len(),
            measured,
            literal_len as nat,
            match_len as nat,
        ));
        let out_pos: usize = output.len();
        if literal_len > usize::MAX - literal_pos || literal_len > usize::MAX - out_pos {
            return Err(Error::new(ErrorKind::IntegerOverflow));
        }
        let literal_end: usize = literal_pos + literal_len;
        if literal_end > literals.len() {
            return Err(fail(ErrorKind::Malformed, "field_lz literal stream is too short"));
        }
        if out_pos + literal_len > output_limit {
            return Err(fail(ErrorKind::Malformed, "field_lz literal length exceeds output size"));
        }
        let part = slice_subrange(literals, literal_pos, literal_end);
        append_bytes(output, part);
        let ghost with_literals = decoded + literals@.subrange(
            literal_pos as int,
            literal_end as int,
        );
        proof {
            assert(output@ =~= prefix + with_literals);
            assert((prefix + with_literals).take(prefix.len() as int) =~= prefix);
        }
        let out_pos: usize = output.len();
        if rep0 == 0 {
            return Err(fail(ErrorKind::Malformed, "field_lz offset is zero"));
        }
        if rep0 > out_pos - output_base {
            return Err(fail(ErrorKind::Malformed, "field_lz offset exceeds decoded prefix"));
        }
        if match_len > usize::MAX - out_pos {
            return Err(Error::new(ErrorKind::IntegerOverflow));
        }
        if out_pos + match_len > output_limit {
            return Err(fail(ErrorKind::Malformed, "field_lz match length exceeds output size"));
        }
        append_lz_match(output, out_pos, rep0, match_len);
        proof {
            lemma_lz_extend_behind_prefix(prefix, with_literals, rep0 as nat, match_len as nat);
            lemma_lz_extend_len(with_literals, rep0 as nat, match_len as nat);
            decoded = lz_extend(with_literals, rep0 as nat, match_len as nat);
        }
        literal_pos = literal_end;
        index = index + 1;
    }
    proof {
        assert((prefix + decoded).take(prefix.len() as int) =~= prefix);
    }
    let rest = slice_subrange(literals, literal_pos, literals.len());
    proof {
        assert(rest@ =~= literals@.skip(literal_pos as int));
    }
    if rest.len() > usize::MAX - output.len() {
        return Err(Error::new(ErrorKind::IntegerOverflow));
    }
    if output.len() + rest.len() > output_limit {
        return Err(fail(ErrorKind::Malformed, "field_lz output size exceeds header capacity"));
    }
    if offset_pos != offsets.len() || extra_literal_pos != extra_literal_lengths.len()
        || extra_match_pos != extra_match_lengths.len() {
        return Err(fail(ErrorKind::Malformed, "field_lz numeric stream was not fully consumed"));
    }
    append_bytes(output, rest);
    proof {
        assert(output@.skip(prefix.len() as int) =~= decoded + rest@);
        assert(output@.take(prefix.len() as int) =~= prefix);
    }
    Ok(())
}

/// Checks the shape of a field LZ node; returns its output capacity.
fn field_lz_output_capacity(
    inputs: &[StreamInput<'_>],
    header: &[u8],
    limits: Limits,
) -> (result: Result<usize, Error>)
    ensures
        plain_outcome(result) == field_shape(stream_views(inputs@), header@, limits),
{
    if inputs.len() != 5 {
        return Err(
            fail(ErrorKind::InvalidGraph, "field_lz input count does not match node shape"),
        );
    }
    let element_width: usize = inputs[0].element_width;
    if !(element_width == 1 || element_width == 2 || element_width == 4 || element_width == 8) {
        return Err(fail(ErrorKind::InvalidType, "field_lz literal width is unsupported"));
    }
    require_numeric_width(&inputs[1], 2, "field_lz tokens")?;
    require_numeric_width(&inputs[2], 4, "field_lz offsets")?;
    require_numeric_width(&inputs[3], 4, "field_lz extra literal lengths")?;
    require_numeric_width(&inputs[4], 4, "field_lz extra match lengths")?;
    let mut header_offset: usize = 0;
    let output_elements: u64 = read_var_u64(header, &mut header_offset)?;
    if header_offset != header.len() {
        return Err(fail(ErrorKind::Malformed, "field_lz header has trailing bytes"));
    }
    if output_elements > usize::MAX as u64 {
        return Err(fail(ErrorKind::LimitExceeded, "field_lz output size is too large"));
    }
    let output_elements: usize = output_elements as usize;
    let output_capacity: usize = match output_elements.checked_mul(element_width) {
        Some(output_capacity) => output_capacity,
        None => {
            return Err(Error::new(ErrorKind::IntegerOverflow));
        },
    };
    check_output_limit(output_capacity, limits)?;
    Ok(output_capacity)
}

/// Decodes a field LZ node at the end of `output` and returns its element width;
/// `output` is left as it was where the node is refused. It is refused where
/// `output_base` is not the length of `output`, which grows as needed.
pub fn decode_field_lz_node_to_output(
    inputs: &[StreamInput<'_>],
    header: &[u8],
    limits: Limits,
    output: &mut Vec<u8>,
    output_base: usize,
) -> (result: Result<usize, Error>)
    ensures
        appends(
            field_lz_appended(
                stream_views(inputs@),
                header@,
                limits,
                output_base as nat,
                old(output)@.len(),
            ),
            old(output)@,
            final(output)@,
            error_of(result),
        ),
        result is Ok ==> result->Ok_0 == inputs[0].element_width,
{
    let output_capacity: usize = field_lz_output_capacity(inputs, header, limits)?;
    proof {
        assert(field_streams_decode(
            field_streams(stream_views(inputs@)),
            output_capacity as nat,
            output_base as nat,
        ) == field_lz_decode(stream_views(inputs@), header@, limits, output_base as nat));
    }
    decode_within(
        inputs[0].bytes,
        inputs[1].bytes,
        inputs[2].bytes,
        inputs[3].bytes,
        inputs[4].bytes,
        inputs[0].element_width,
        output_capacity,
        output,
        output_base,
        usize::MAX,
    )?;
    Ok(inputs[0].element_width)
}

/// What a field LZ node produces.
pub open spec fn field_lz_node(inputs: Seq<StreamView>, header: Seq<u8>, limits: Limits) -> Result<
    StreamView,
    ErrorView,
> {
    match field_lz_decode(inputs, header, limits, 0) {
        Err(error) => Err(error),
        Ok(bytes) => Ok(typed_stream(bytes, inputs[0].element_width)),
    }
}

/// Decodes a field LZ node into a pooled buffer.
pub fn decode_field_lz_node(
    inputs: &[StreamInput<'_>],
    header: &[u8],
    limits: Limits,
    scratch: &mut DecodeScratch,
) -> (result: Result<OwnedStream, Error>)
    requires
        old(scratch).well_formed(),
    ensures
        outcome(result) == field_lz_node(stream_views(inputs@), header@, limits),
        result is Ok ==> result->Ok_0.recyclable,
        final(scratch).well_formed(),
{
    let output_capacity: usize = field_lz_output_capacity(inputs, header, limits)?;
    let mut output = scratch.take_byte_buffer(output_capacity);
    let element_width: usize = decode_field_lz_node_to_output(
        inputs,
        header,
        limits,
        &mut output,
        0,
    )?;
    proof {
        let decoded = field_lz_decode(stream_views(inputs@), header@, limits, 0)->Ok_0;
        assert(Seq::<u8>::empty() + decoded =~= decoded);
    }
    Ok(OwnedStream::pooled(output, element_width))
}

} // verus!
