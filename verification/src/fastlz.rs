//! The deprecated fast LZ transform.

use vstd::prelude::*;

use crate::bytes::{le_value, lemma_byte_range_values, lemma_le_value_bound, read_le};
use crate::deprecated_lz::{
    literal_payload, literal_range, parse_deprecated_lz_stored_stream,
    parse_legacy_literal_entropy_payload, parse_legacy_raw_entropy_slice, raw_payload,
    read_deprecated_lz_sized_slice, size_prefix, sized_slice, LiteralCursor, LiteralPayload,
};
use crate::error::{detailed, fail, outcome, plain, Error, ErrorKind, ErrorView};
use crate::limits::Limits;
use crate::lz::{append_lz_match, law_lz_match_is_periodic, lz_extend};
use crate::stream::{element, lemma_element_bound, StreamInput, StreamView};

verus! {

pub const FASTLZ_MIN_OFFSET: usize = 16;

/// The streams of a payload.
#[verifier::ext_equal]
pub struct FastLzView {
    pub literals: Seq<u8>,
    pub tokens: Seq<u8>,
    pub offsets: Seq<u8>,
    pub extras: Seq<u8>,
}

/// The streams that a payload holds.
pub open spec fn fastlz_payload(payload: Seq<u8>) -> Result<FastLzView, ErrorView> {
    match literal_payload(payload, 0, "fastlz_deprecated literals"@) {
        Err(error) => Err(error),
        Ok((literals, offset)) => match raw_payload(
            payload,
            offset,
            2,
            "fastlz_deprecated tokens"@,
        ) {
            Err(error) => Err(error),
            Ok((tokens, offset)) => match sized_slice(
                payload,
                offset,
                "fastlz_deprecated offsets"@,
            ) {
                Err(error) => Err(error),
                Ok((offsets, offset)) => match sized_slice(
                    payload,
                    offset,
                    "fastlz_deprecated extras"@,
                ) {
                    Err(error) => Err(error),
                    Ok((extras, offset)) => if offset != payload.len() {
                        Err(
                            detailed(
                                ErrorKind::Malformed,
                                "fastlz_deprecated payload has trailing bytes"@,
                            ),
                        )
                    } else {
                        Ok(FastLzView { literals, tokens, offsets, extras })
                    },
                },
            },
        },
    }
}

/// How far a decoding has come.
#[verifier::ext_equal]
pub struct FastLzState {
    pub literal_pos: nat,
    pub offsets_pos: nat,
    pub extras_pos: nat,
    pub rep: nat,
    pub output: Seq<u8>,
}

/// The offset that a code stands for, and how many offset bytes it takes: none
/// repeats the last offset.
pub open spec fn fastlz_offset(offsets: Seq<u8>, position: nat, code: nat, rep: nat) -> Result<
    nat,
    ErrorView,
> {
    if code == 0 {
        Ok(rep)
    } else if position + code > offsets.len() {
        Err(detailed(ErrorKind::Malformed, "fastlz_deprecated offsets stream is exhausted"@))
    } else {
        Ok(le_value(offsets.subrange(position as int, (position + code) as int)))
    }
}

/// Adds up the 16-bit pieces of a long length, and gives the position behind them.
pub open spec fn fastlz_extra_from(extras: Seq<u8>, position: nat, length: nat) -> Result<
    (nat, nat),
    ErrorView,
>
    decreases extras.len() - position,
{
    if position + 2 > extras.len() {
        Err(detailed(ErrorKind::Malformed, "fastlz_deprecated extras stream is exhausted"@))
    } else {
        let piece = le_value(extras.subrange(position as int, position as int + 2));
        if length + piece > usize::MAX {
            Err(plain(ErrorKind::IntegerOverflow))
        } else if piece < 0xffff {
            Ok((length + piece, position + 2))
        } else {
            fastlz_extra_from(extras, position + 2, length + piece)
        }
    }
}

/// The length at `position` of the extras, and the position behind it.
pub open spec fn fastlz_extra(extras: Seq<u8>, position: nat) -> Result<(nat, nat), ErrorView> {
    if position >= extras.len() {
        Err(detailed(ErrorKind::Malformed, "fastlz_deprecated extras stream is exhausted"@))
    } else if extras[position as int] != 255 {
        Ok((extras[position as int] as nat, position + 1))
    } else {
        fastlz_extra_from(extras, position + 1, 255)
    }
}

/// The literal and match lengths of a token, and the position behind its extras.
pub open spec fn fastlz_lengths(extras: Seq<u8>, position: nat, token: nat) -> Result<
    (nat, nat, nat),
    ErrorView,
> {
    if token / 4 != 0 {
        Ok((token / 4 % 16, token / 64 % 32, position))
    } else {
        match fastlz_extra(extras, position) {
            Err(error) => Err(error),
            Ok((literal_len, position)) => match fastlz_extra(extras, position) {
                Err(error) => Err(error),
                Ok((match_len, position)) => Ok((literal_len, match_len, position)),
            },
        }
    }
}

/// Takes literals where the output still has room for them.
pub open spec fn fastlz_literals(
    literals: Seq<u8>,
    position: nat,
    output: Seq<u8>,
    len: nat,
    decoded_size: nat,
) -> Result<Seq<u8>, ErrorView> {
    if output.len() + len > usize::MAX {
        Err(plain(ErrorKind::IntegerOverflow))
    } else if output.len() + len > decoded_size {
        Err(detailed(ErrorKind::Malformed, "fastlz_deprecated literal length exceeds output size"@))
    } else {
        match literal_range(literals, position, len) {
            Err(error) => Err(error),
            Ok(bytes) => Ok(output + bytes),
        }
    }
}

/// What a token makes of the state.
pub open spec fn fastlz_token(
    streams: FastLzView,
    decoded_size: nat,
    token: nat,
    state: FastLzState,
) -> Result<FastLzState, ErrorView> {
    let code = token % 4;
    match fastlz_offset(streams.offsets, state.offsets_pos, code, state.rep) {
        Err(error) => Err(error),
        Ok(offset) => match fastlz_lengths(streams.extras, state.extras_pos, token) {
            Err(error) => Err(error),
            Ok((literal_len, match_len, extras_pos)) => match fastlz_literals(
                streams.literals,
                state.literal_pos,
                state.output,
                literal_len,
                decoded_size,
            ) {
                Err(error) => Err(error),
                Ok(output) => if offset < FASTLZ_MIN_OFFSET {
                    Err(detailed(ErrorKind::Malformed, "fastlz_deprecated offset is too small"@))
                } else if offset > output.len() {
                    Err(
                        detailed(
                            ErrorKind::Malformed,
                            "fastlz_deprecated offset exceeds decoded prefix"@,
                        ),
                    )
                } else if output.len() + match_len > usize::MAX {
                    Err(plain(ErrorKind::IntegerOverflow))
                } else if output.len() + match_len > decoded_size {
                    Err(
                        detailed(
                            ErrorKind::Malformed,
                            "fastlz_deprecated match length exceeds output size"@,
                        ),
                    )
                } else {
                    Ok(
                        FastLzState {
                            literal_pos: state.literal_pos + literal_len,
                            offsets_pos: state.offsets_pos + code,
                            extras_pos,
                            rep: offset,
                            output: lz_extend(output, offset, match_len),
                        },
                    )
                },
            },
        },
    }
}

/// Decodes the tokens from `index` on.
pub open spec fn fastlz_from(
    streams: FastLzView,
    decoded_size: nat,
    index: nat,
    state: FastLzState,
) -> Result<FastLzState, ErrorView>
    decreases streams.tokens.len() / 2 - index,
{
    if index >= streams.tokens.len() / 2 {
        Ok(state)
    } else {
        let token = element(streams.tokens, 2, index as int);
        if index == 0 && token == 60 {
            match fastlz_literals(
                streams.literals,
                state.literal_pos,
                state.output,
                15,
                decoded_size,
            ) {
                Err(error) => Err(error),
                Ok(output) => fastlz_from(
                    streams,
                    decoded_size,
                    index + 1,
                    FastLzState { literal_pos: state.literal_pos + 15, output, ..state },
                ),
            }
        } else {
            match fastlz_token(streams, decoded_size, token, state) {
                Err(error) => Err(error),
                Ok(state) => fastlz_from(streams, decoded_size, index + 1, state),
            }
        }
    }
}

/// The state in front of the first token.
pub open spec fn fastlz_start() -> FastLzState {
    FastLzState {
        literal_pos: 0,
        offsets_pos: 0,
        extras_pos: 0,
        rep: FASTLZ_MIN_OFFSET as nat,
        output: Seq::empty(),
    }
}

/// The bytes that the streams stand for.
pub open spec fn fastlz_decode(streams: FastLzView, decoded_size: nat) -> Result<
    Seq<u8>,
    ErrorView,
> {
    match fastlz_from(streams, decoded_size, 0, fastlz_start()) {
        Err(error) => Err(error),
        Ok(state) => {
            let rest = streams.literals.len() - state.literal_pos;
            if state.offsets_pos != streams.offsets.len() || state.extras_pos
                != streams.extras.len() {
                Err(
                    detailed(
                        ErrorKind::Malformed,
                        "fastlz_deprecated auxiliary stream was not fully consumed"@,
                    ),
                )
            } else if state.output.len() + rest > usize::MAX {
                Err(plain(ErrorKind::IntegerOverflow))
            } else if state.output.len() + rest != decoded_size {
                Err(
                    detailed(
                        ErrorKind::Malformed,
                        "fastlz_deprecated output size does not match prefix"@,
                    ),
                )
            } else {
                Ok(
                    state.output + streams.literals.subrange(
                        state.literal_pos as int,
                        streams.literals.len() as int,
                    ),
                )
            }
        },
    }
}

/// What a fastlz_deprecated node produces.
pub open spec fn fastlz_deprecated_node(
    source: StreamView,
    header: Seq<u8>,
    limits: Limits,
) -> Result<Seq<u8>, ErrorView> {
    if header.len() != 0 {
        Err(detailed(ErrorKind::Unsupported, "fastlz_deprecated headers are unsupported"@))
    } else {
        match size_prefix(source, limits, "fastlz_deprecated"@) {
            Err(error) => Err(error),
            Ok(size) => match fastlz_payload(source.bytes.subrange(4, source.bytes.len() as int)) {
                Err(error) => Err(error),
                Ok(streams) => fastlz_decode(streams, size),
            },
        }
    }
}

/// Positions stay inside the streams.
pub open spec fn fastlz_inside(streams: FastLzView, decoded_size: nat, state: FastLzState) -> bool {
    &&& state.literal_pos <= streams.literals.len()
    &&& state.offsets_pos <= streams.offsets.len()
    &&& state.extras_pos <= streams.extras.len()
    &&& state.output.len() <= decoded_size
}

proof fn lemma_extra_inside(extras: Seq<u8>, position: nat, length: nat)
    requires
        fastlz_extra_from(extras, position, length) is Ok,
    ensures
        fastlz_extra_from(extras, position, length)->Ok_0.1 <= extras.len(),
    decreases extras.len() - position,
{
    let piece = le_value(extras.subrange(position as int, position as int + 2));
    if piece >= 0xffff {
        lemma_extra_inside(extras, position + 2, length + piece);
    }
}

proof fn lemma_token_inside(
    streams: FastLzView,
    decoded_size: nat,
    token: nat,
    state: FastLzState,
)
    requires
        fastlz_inside(streams, decoded_size, state),
        fastlz_token(streams, decoded_size, token, state) is Ok,
    ensures
        fastlz_inside(
            streams,
            decoded_size,
            fastlz_token(streams, decoded_size, token, state)->Ok_0,
        ),
{
    let offset = fastlz_offset(streams.offsets, state.offsets_pos, token % 4, state.rep)->Ok_0;
    let (literal_len, match_len, extras_pos) = fastlz_lengths(
        streams.extras,
        state.extras_pos,
        token,
    )->Ok_0;
    if token / 4 == 0 {
        let (_, middle) = fastlz_extra(streams.extras, state.extras_pos)->Ok_0;
        if streams.extras[state.extras_pos as int] == 255 {
            lemma_extra_inside(streams.extras, state.extras_pos + 1, 255);
        }
        if streams.extras[middle as int] == 255 {
            lemma_extra_inside(streams.extras, middle + 1, 255);
        }
    }
    let output = fastlz_literals(
        streams.literals,
        state.literal_pos,
        state.output,
        literal_len,
        decoded_size,
    )->Ok_0;
    law_lz_match_is_periodic(output, offset, match_len);
}

proof fn lemma_fastlz_inside(
    streams: FastLzView,
    decoded_size: nat,
    index: nat,
    state: FastLzState,
)
    requires
        fastlz_inside(streams, decoded_size, state),
        fastlz_from(streams, decoded_size, index, state) is Ok,
    ensures
        fastlz_inside(
            streams,
            decoded_size,
            fastlz_from(streams, decoded_size, index, state)->Ok_0,
        ),
    decreases streams.tokens.len() / 2 - index,
{
    if index < streams.tokens.len() / 2 {
        let token = element(streams.tokens, 2, index as int);
        if index == 0 && token == 60 {
            let output = fastlz_literals(
                streams.literals,
                state.literal_pos,
                state.output,
                15,
                decoded_size,
            )->Ok_0;
            lemma_fastlz_inside(
                streams,
                decoded_size,
                index + 1,
                FastLzState { literal_pos: state.literal_pos + 15, output, ..state },
            );
        } else {
            lemma_token_inside(streams, decoded_size, token, state);
            lemma_fastlz_inside(
                streams,
                decoded_size,
                index + 1,
                fastlz_token(streams, decoded_size, token, state)->Ok_0,
            );
        }
    }
}

/// What is decoded has the size that was announced.
pub proof fn law_fastlz_length_is_declared(source: StreamView, header: Seq<u8>, limits: Limits)
    requires
        fastlz_deprecated_node(source, header, limits) is Ok,
    ensures
        fastlz_deprecated_node(source, header, limits)->Ok_0.len() == le_value(
            source.bytes.subrange(0, 4),
        ),
{
    let size = size_prefix(source, limits, "fastlz_deprecated"@)->Ok_0;
    let streams = fastlz_payload(source.bytes.subrange(4, source.bytes.len() as int))->Ok_0;
    lemma_fastlz_inside(streams, size, 0, fastlz_start());
}

/// The streams of a payload.
pub struct FastLzPayload<'a> {
    literals: LiteralPayload<'a>,
    tokens: &'a [u8],
    offsets: &'a [u8],
    extras: &'a [u8],
}

impl<'a> View for FastLzPayload<'a> {
    type V = FastLzView;

    closed spec fn view(&self) -> FastLzView {
        FastLzView {
            literals: self.literals.content(),
            tokens: self.tokens@,
            offsets: self.offsets@,
            extras: self.extras@,
        }
    }
}

/// Splits a payload into its streams.
pub fn parse_fastlz_deprecated_payload<'a>(payload: &'a [u8]) -> (result: Result<
    FastLzPayload<'a>,
    Error,
>)
    ensures
        outcome(result) == fastlz_payload(payload@),
{
    let mut offset: usize = 0;
    let literals = parse_legacy_literal_entropy_payload(
        payload,
        &mut offset,
        "fastlz_deprecated literals",
    )?;
    let tokens = parse_legacy_raw_entropy_slice(
        payload,
        &mut offset,
        2,
        "fastlz_deprecated tokens",
    )?;
    let offsets = read_deprecated_lz_sized_slice(
        payload,
        &mut offset,
        "fastlz_deprecated offsets",
    )?;
    let extras = read_deprecated_lz_sized_slice(
        payload,
        &mut offset,
        "fastlz_deprecated extras",
    )?;
    if offset != payload.len() {
        return Err(fail(ErrorKind::Malformed, "fastlz_deprecated payload has trailing bytes"));
    }
    Ok(FastLzPayload { literals, tokens, offsets, extras })
}

/// Reads the offset that a code stands for.
fn read_fastlz_deprecated_offset(
    code: usize,
    offsets: &[u8],
    position: &mut usize,
    rep: usize,
) -> (result: Result<usize, Error>)
    requires
        code <= 3,
        *old(position) <= offsets@.len(),
    ensures
        match result {
            Ok(offset) => fastlz_offset(offsets@, *old(position) as nat, code as nat, rep as nat)
                == Ok::<nat, ErrorView>(offset as nat) && *final(position) == *old(position) + code
                && *final(position) <= offsets@.len(),
            Err(error) => fastlz_offset(offsets@, *old(position) as nat, code as nat, rep as nat)
                == Err::<nat, ErrorView>(error@),
        },
{
    if code == 0 {
        return Ok(rep);
    }
    if offsets.len() - *position < code {
        return Err(fail(ErrorKind::Malformed, "fastlz_deprecated offsets stream is exhausted"));
    }
    let start: usize = *position;
    proof {
        lemma_le_value_bound(offsets@.subrange(start as int, start + code));
        lemma_byte_range_values();
        crate::bytes::lemma_byte_range_monotone(code as nat, 4);
    }
    *position = start + code;
    Ok(read_le(offsets, start, code) as usize)
}

/// Reads a length off the extras.
fn read_fastlz_deprecated_extra(extras: &[u8], position: &mut usize) -> (result: Result<
    usize,
    Error,
>)
    requires
        *old(position) <= extras@.len(),
    ensures
        *final(position) <= extras@.len(),
        match result {
            Ok(length) => fastlz_extra(extras@, *old(position) as nat) == Ok::<
                (nat, nat),
                ErrorView,
            >((length as nat, *final(position) as nat)),
            Err(error) => fastlz_extra(extras@, *old(position) as nat) == Err::<
                (nat, nat),
                ErrorView,
            >(error@),
        },
{
    if *position >= extras.len() {
        return Err(fail(ErrorKind::Malformed, "fastlz_deprecated extras stream is exhausted"));
    }
    let start: usize = *position;
    let mut length: usize = extras[start] as usize;
    *position = start + 1;
    if length != 255 {
        return Ok(length);
    }
    loop
        invariant
            start == *old(position),
            start < extras@.len(),
            extras@[start as int] == 255,
            *position <= extras@.len(),
            fastlz_extra_from(extras@, (start + 1) as nat, 255) == fastlz_extra_from(
                extras@,
                *position as nat,
                length as nat,
            ),
        decreases extras@.len() - *position,
    {
        if extras.len() - *position < 2 {
            return Err(fail(ErrorKind::Malformed, "fastlz_deprecated extras stream is exhausted"));
        }
        proof {
            lemma_le_value_bound(extras@.subrange(*position as int, *position + 2));
            lemma_byte_range_values();
        }
        let piece: usize = read_le(extras, *position, 2) as usize;
        *position = *position + 2;
        length = match length.checked_add(piece) {
            Some(length) => length,
            None => {
                return Err(Error::new(ErrorKind::IntegerOverflow));
            },
        };
        if piece < 0xffff {
            return Ok(length);
        }
    }
}

/// Appends literals where the output still has room for them.
fn append_fastlz_deprecated_literals<'a>(
    literals: &mut LiteralCursor<'a>,
    output: &mut Vec<u8>,
    len: usize,
    decoded_size: usize,
) -> (result: Result<(), Error>)
    requires
        old(literals).well_formed(),
    ensures
        final(literals).well_formed(),
        final(literals).content() == old(literals).content(),
        match fastlz_literals(
            old(literals).content(),
            old(literals).position(),
            old(output)@,
            len as nat,
            decoded_size as nat,
        ) {
            Ok(longer) => result is Ok && final(output)@ == longer && final(literals).position()
                == old(literals).position() + len,
            Err(error) => result is Err && result->Err_0@ == error,
        },
{
    let output_end: usize = match output.len().checked_add(len) {
        Some(output_end) => output_end,
        None => {
            return Err(Error::new(ErrorKind::IntegerOverflow));
        },
    };
    if output_end > decoded_size {
        return Err(
            fail(ErrorKind::Malformed, "fastlz_deprecated literal length exceeds output size"),
        );
    }
    literals.extend_next(len, output)
}

/// Decodes the streams of a payload.
pub fn decode_fastlz_deprecated_payload(
    payload: FastLzPayload<'_>,
    decoded_size: usize,
) -> (result: Result<Vec<u8>, Error>)
    ensures
        outcome(result) == fastlz_decode(payload@, decoded_size as nat),
{
    let mut output: Vec<u8> = Vec::new();
    let mut literals = LiteralCursor::new(payload.literals);
    let mut offsets_pos: usize = 0;
    let mut extras_pos: usize = 0;
    let mut rep: usize = FASTLZ_MIN_OFFSET;
    let count: usize = payload.tokens.len() / 2;
    let ghost streams = payload@;
    let ghost size = decoded_size as nat;
    proof {
        assert(output@ =~= Seq::empty());
    }
    let mut index: usize = 0;
    while index < count
        invariant
            index <= count,
            streams == payload@,
            size == decoded_size,
            count == payload.tokens@.len() / 2,
            literals.well_formed(),
            literals.content() == streams.literals,
            offsets_pos <= payload.offsets@.len(),
            extras_pos <= payload.extras@.len(),
            fastlz_from(streams, size, 0, fastlz_start()) == fastlz_from(
                streams,
                size,
                index as nat,
                FastLzState {
                    literal_pos: literals.position(),
                    offsets_pos: offsets_pos as nat,
                    extras_pos: extras_pos as nat,
                    rep: rep as nat,
                    output: output@,
                },
            ),
        decreases count - index,
    {
        let ghost state = FastLzState {
            literal_pos: literals.position(),
            offsets_pos: offsets_pos as nat,
            extras_pos: extras_pos as nat,
            rep: rep as nat,
            output: output@,
        };
        proof {
            lemma_element_bound(payload.tokens@, 2, index as int);
            assert(payload.tokens@.len() == payload.tokens.len());
        }
        let token: usize = read_le(payload.tokens, index * 2, 2) as usize;
        if index == 0 && token == 60 {
            append_fastlz_deprecated_literals(&mut literals, &mut output, 15, decoded_size)?;
            index = index + 1;
            continue ;
        }
        let offset: usize = read_fastlz_deprecated_offset(
            token % 4,
            payload.offsets,
            &mut offsets_pos,
            rep,
        )?;
        let (literal_len, match_len): (usize, usize) = if token / 4 == 0 {
            let literal_len: usize = read_fastlz_deprecated_extra(payload.extras, &mut extras_pos)?;
            let match_len: usize = read_fastlz_deprecated_extra(payload.extras, &mut extras_pos)?;
            (literal_len, match_len)
        } else {
            (token / 4 % 16, token / 64 % 32)
        };
        append_fastlz_deprecated_literals(&mut literals, &mut output, literal_len, decoded_size)?;
        if offset < FASTLZ_MIN_OFFSET {
            return Err(fail(ErrorKind::Malformed, "fastlz_deprecated offset is too small"));
        }
        if offset > output.len() {
            return Err(
                fail(ErrorKind::Malformed, "fastlz_deprecated offset exceeds decoded prefix"),
            );
        }
        let match_end: usize = match output.len().checked_add(match_len) {
            Some(match_end) => match_end,
            None => {
                return Err(Error::new(ErrorKind::IntegerOverflow));
            },
        };
        if match_end > decoded_size {
            return Err(
                fail(ErrorKind::Malformed, "fastlz_deprecated match length exceeds output size"),
            );
        }
        let out_pos: usize = output.len();
        append_lz_match(&mut output, out_pos, offset, match_len);
        rep = offset;
        proof {
            let next = fastlz_token(streams, size, token as nat, state);
            assert(next == Ok::<FastLzState, ErrorView>(
                FastLzState {
                    literal_pos: literals.position(),
                    offsets_pos: offsets_pos as nat,
                    extras_pos: extras_pos as nat,
                    rep: rep as nat,
                    output: output@,
                },
            ));
        }
        index = index + 1;
    }
    if offsets_pos != payload.offsets.len() || extras_pos != payload.extras.len() {
        return Err(
            fail(
                ErrorKind::Malformed,
                "fastlz_deprecated auxiliary stream was not fully consumed",
            ),
        );
    }
    let remaining: usize = literals.remaining_len();
    let output_end: usize = match output.len().checked_add(remaining) {
        Some(output_end) => output_end,
        None => {
            return Err(Error::new(ErrorKind::IntegerOverflow));
        },
    };
    if output_end != decoded_size {
        return Err(
            fail(ErrorKind::Malformed, "fastlz_deprecated output size does not match prefix"),
        );
    }
    literals.extend_next(remaining, &mut output)?;
    Ok(output)
}

/// Decodes a fastlz_deprecated node.
pub fn decode_fastlz_deprecated_node(
    source: StreamInput<'_>,
    header: &[u8],
    limits: Limits,
) -> (result: Result<Vec<u8>, Error>)
    ensures
        outcome(result) == fastlz_deprecated_node(source@, header@, limits),
{
    if header.len() != 0 {
        return Err(fail(ErrorKind::Unsupported, "fastlz_deprecated headers are unsupported"));
    }
    let (decoded_size, payload) = parse_deprecated_lz_stored_stream(
        source,
        limits,
        "fastlz_deprecated",
    )?;
    let streams = parse_fastlz_deprecated_payload(payload)?;
    decode_fastlz_deprecated_payload(streams, decoded_size)
}

} // verus!
