//! LZ reconstruction: literals and back-references from separate streams.

use vstd::prelude::*;
use vstd::slice::slice_subrange;

use crate::bytes::{append_bytes, read_var_u64, var_u64};
use crate::error::{
    appends, detailed, error_of, fail, leaves, outcome, plain, same_or_overflow, Error,
    ErrorKind, ErrorView,
};
use crate::limits::{check_output_limit, output_limit_error, Limits};
use crate::scratch::buffer_capacity;
use crate::stream::{
    element_count, numeric_element_count, numeric_width_error, read_usize_numeric_element,
    stream_views, usize_element, validate_numeric_stream_width, StreamInput, StreamView,
};

verus! {

/// `output` followed by `len` bytes, each a copy of the byte `offset` before it.
pub open spec fn lz_extend(output: Seq<u8>, offset: nat, len: nat) -> Seq<u8>
    decreases len,
{
    if len == 0 {
        output
    } else {
        let shorter = lz_extend(output, offset, (len - 1) as nat);
        shorter.push(shorter[shorter.len() - offset])
    }
}

/// A match of `len` bytes at distance `offset` repeats the last `offset` bytes
/// of what came before it, and leaves what came before it in place.
pub proof fn law_lz_match_is_periodic(output: Seq<u8>, offset: nat, len: nat)
    requires
        0 < offset <= output.len(),
    ensures
        lz_extend(output, offset, len).len() == output.len() + len,
        lz_extend(output, offset, len).take(output.len() as int) == output,
        forall|i: int|
            0 <= i < len ==> #[trigger] lz_extend(output, offset, len)[output.len() + i]
                == output[output.len() - offset + i % (offset as int)],
    decreases len,
{
    if len == 0 {
        assert(output.take(output.len() as int) =~= output);
    } else {
        let before = (len - 1) as nat;
        law_lz_match_is_periodic(output, offset, before);
        let shorter = lz_extend(output, offset, before);
        let whole = lz_extend(output, offset, len);
        assert(whole.take(output.len() as int) =~= output) by {
            assert(shorter.take(output.len() as int) =~= whole.take(output.len() as int));
        }
        assert forall|i: int| 0 <= i < len implies #[trigger] whole[output.len() + i]
            == output[output.len() - offset + i % (offset as int)] by {
            if i < before {
                assert(whole[output.len() + i] == shorter[output.len() + i]);
            } else {
                let source = output.len() + i - offset;
                assert(whole[output.len() + i] == shorter[source]);
                if i < offset {
                    assert(shorter[source] == shorter.take(output.len() as int)[source]);
                    vstd::arithmetic::div_mod::lemma_small_mod(i as nat, offset);
                } else {
                    assert(shorter[output.len() + (i - offset)] == output[output.len() - offset + (i
                        - offset) % (offset as int)]);
                    vstd::arithmetic::div_mod::lemma_mod_sub_multiples_vanish(i, offset as int);
                }
            }
        }
    }
}

pub proof fn lemma_lz_extend_len(output: Seq<u8>, offset: nat, len: nat)
    ensures
        lz_extend(output, offset, len).len() == output.len() + len,
    decreases len,
{
    if len > 0 {
        lemma_lz_extend_len(output, offset, (len - 1) as nat);
    }
}

/// Extending a sequence that has a prefix in front extends what follows the
/// prefix.
pub proof fn lemma_lz_extend_behind_prefix(prefix: Seq<u8>, output: Seq<u8>, offset: nat, len: nat)
    requires
        0 < offset <= output.len(),
    ensures
        lz_extend(prefix + output, offset, len) == prefix + lz_extend(output, offset, len),
    decreases len,
{
    if len > 0 {
        let before = (len - 1) as nat;
        lemma_lz_extend_behind_prefix(prefix, output, offset, before);
        lemma_lz_extend_len(output, offset, before);
        assert(lz_extend(prefix + output, offset, len) =~= prefix + lz_extend(output, offset, len));
    }
}

/// Appends a match of `match_len` bytes at distance `match_offset`.
pub(crate) fn append_lz_match(
    output: &mut Vec<u8>,
    out_pos: usize,
    match_offset: usize,
    match_len: usize,
)
    requires
        old(output).len() == out_pos,
        0 < match_offset <= out_pos,
        out_pos + match_len <= usize::MAX,
    ensures
        final(output)@ == lz_extend(old(output)@, match_offset as nat, match_len as nat),
{
    let ghost before = output@;
    let source: usize = out_pos - match_offset;
    let mut copied: usize = 0;
    while copied < match_len
        invariant
            copied <= match_len,
            0 < match_offset <= out_pos,
            source == out_pos - match_offset,
            out_pos + match_len <= usize::MAX,
            output.len() == out_pos + copied,
            output@ == lz_extend(before, match_offset as nat, copied as nat),
        decreases match_len - copied,
    {
        let byte: u8 = output[source + copied];
        output.push(byte);
        copied = copied + 1;
    }
}

/// Appends `match_len` bytes that already stand in `output` at `src_start`.
pub fn append_nonoverlapping_match(output: &mut Vec<u8>, src_start: usize, match_len: usize)
    requires
        src_start + match_len <= old(output).len(),
        old(output).len() + match_len <= usize::MAX,
    ensures
        final(output)@ == old(output)@ + old(output)@.subrange(
            src_start as int,
            src_start + match_len,
        ),
{
    let ghost before = output@;
    let mut copied: usize = 0;
    while copied < match_len
        invariant
            copied <= match_len,
            src_start + match_len <= before.len(),
            before.len() + match_len <= usize::MAX,
            output@ == before + before.subrange(src_start as int, src_start + copied),
        decreases match_len - copied,
    {
        let byte: u8 = output[src_start + copied];
        output.push(byte);
        copied = copied + 1;
        proof {
            assert(output@ =~= before + before.subrange(src_start as int, src_start + copied));
        }
    }
}

/// The four streams of an LZ node.
#[verifier::ext_equal]
pub struct LzStreams {
    pub literals: Seq<u8>,
    pub offsets: StreamView,
    pub literal_lengths: StreamView,
    pub match_lengths: StreamView,
}

/// One LZ sequence: literal length, match offset, match length.
pub open spec fn lz_sequence(streams: LzStreams, index: int) -> Result<
    (usize, usize, usize),
    ErrorView,
> {
    match usize_element(
        streams.literal_lengths.bytes,
        streams.literal_lengths.element_width,
        index,
    ) {
        Err(error) => Err(error),
        Ok(literal_len) => match usize_element(
            streams.offsets.bytes,
            streams.offsets.element_width,
            index,
        ) {
            Err(error) => Err(error),
            Ok(offset) => match usize_element(
                streams.match_lengths.bytes,
                streams.match_lengths.element_width,
                index,
            ) {
                Err(error) => Err(error),
                Ok(match_len) => Ok((literal_len, offset, match_len)),
            },
        },
    }
}

/// Decodes the sequences from `index` on, behind `base` bytes that are not part
/// of the window, with `literal_pos` literals used and `output` decoded.
pub open spec fn lz_decode_from(
    streams: LzStreams,
    count: nat,
    output_len: nat,
    base: nat,
    index: nat,
    literal_pos: nat,
    output: Seq<u8>,
) -> Result<Seq<u8>, ErrorView>
    decreases count - index,
{
    if index >= count {
        let rest = streams.literals.skip(literal_pos as int);
        if base + output.len() + rest.len() > usize::MAX {
            Err(plain(ErrorKind::IntegerOverflow))
        } else if output.len() + rest.len() != output_len {
            Err(detailed(ErrorKind::Malformed, "lz output size does not match header"@))
        } else {
            Ok(output + rest)
        }
    } else {
        match lz_sequence(streams, index as int) {
            Err(error) => Err(error),
            Ok((literal_len, offset, match_len)) => {
                let literal_end = literal_pos + literal_len as nat;
                if literal_end > usize::MAX || base + output.len() + literal_len > usize::MAX {
                    Err(plain(ErrorKind::IntegerOverflow))
                } else if literal_end > streams.literals.len() {
                    Err(detailed(ErrorKind::Malformed, "lz literal stream is too short"@))
                } else if output.len() + literal_len > output_len {
                    Err(detailed(ErrorKind::Malformed, "lz literal length exceeds output size"@))
                } else {
                    let literals = output + streams.literals.subrange(
                        literal_pos as int,
                        literal_end as int,
                    );
                    if offset == 0 {
                        Err(detailed(ErrorKind::Malformed, "lz offset is zero"@))
                    } else if offset > literals.len() {
                        Err(detailed(ErrorKind::Malformed, "lz offset exceeds decoded prefix"@))
                    } else if base + literals.len() + match_len > usize::MAX {
                        Err(plain(ErrorKind::IntegerOverflow))
                    } else if literals.len() + match_len > output_len {
                        Err(
                            detailed(
                                ErrorKind::Malformed,
                                "lz match length exceeds output size"@,
                            ),
                        )
                    } else {
                        lz_decode_from(
                            streams,
                            count,
                            output_len,
                            base,
                            index + 1,
                            literal_end,
                            lz_extend(literals, offset as nat, match_len as nat),
                        )
                    }
                }
            },
        }
    }
}

/// What decoding the sequences from `index` on has put behind `base` bytes when it ends,
/// whether it succeeds or not.
pub open spec fn lz_written_from(
    streams: LzStreams,
    count: nat,
    output_len: nat,
    base: nat,
    index: nat,
    literal_pos: nat,
    output: Seq<u8>,
) -> Seq<u8>
    decreases count - index,
{
    if index >= count {
        match lz_decode_from(streams, count, output_len, base, index, literal_pos, output) {
            Ok(all) => all,
            Err(_) => output,
        }
    } else {
        match lz_sequence(streams, index as int) {
            Err(_) => output,
            Ok((literal_len, offset, match_len)) => {
                let literal_end = literal_pos + literal_len as nat;
                let literals = output + streams.literals.subrange(
                    literal_pos as int,
                    literal_end as int,
                );
                if literal_end > streams.literals.len() || literal_end > usize::MAX || base
                    + literals.len() > usize::MAX || literals.len() > output_len {
                    output
                } else if offset == 0 || offset > literals.len() || base + literals.len()
                    + match_len > usize::MAX || literals.len() + match_len > output_len {
                    literals
                } else {
                    lz_written_from(
                        streams,
                        count,
                        output_len,
                        base,
                        index + 1,
                        literal_end,
                        lz_extend(literals, offset as nat, match_len as nat),
                    )
                }
            },
        }
    }
}

/// The output length and sequence count of an LZ node, or why it is refused.
pub open spec fn lz_shape(inputs: Seq<StreamView>, header: Seq<u8>, limits: Limits) -> Result<
    (usize, usize),
    ErrorView,
> {
    if inputs.len() != 4 {
        Err(detailed(ErrorKind::InvalidGraph, "lz input count does not match node shape"@))
    } else if inputs[0].element_width != 1 {
        Err(detailed(ErrorKind::InvalidType, "lz literals must be serial bytes"@))
    } else if numeric_width_error(inputs[1].element_width as int, "lz offsets"@) is Some {
        Err(numeric_width_error(inputs[1].element_width as int, "lz offsets"@)->0)
    } else if numeric_width_error(
        inputs[2].element_width as int,
        "lz literal lengths"@,
    ) is Some {
        Err(numeric_width_error(inputs[2].element_width as int, "lz literal lengths"@)->0)
    } else if numeric_width_error(inputs[3].element_width as int, "lz match lengths"@) is Some {
        Err(numeric_width_error(inputs[3].element_width as int, "lz match lengths"@)->0)
    } else {
        match element_count(inputs[1].bytes.len(), inputs[1].element_width) {
            Err(error) => Err(error),
            Ok(count) => match element_count(inputs[2].bytes.len(), inputs[2].element_width) {
                Err(error) => Err(error),
                Ok(literal_count) => if literal_count != count {
                    Err(
                        detailed(ErrorKind::Malformed, "lz sequence stream counts do not match"@),
                    )
                } else {
                    match element_count(inputs[3].bytes.len(), inputs[3].element_width) {
                        Err(error) => Err(error),
                        Ok(match_count) => if match_count != count {
                            Err(
                                detailed(
                                    ErrorKind::Malformed,
                                    "lz sequence stream counts do not match"@,
                                ),
                            )
                        } else {
                            match lz_header(header, limits) {
                                Err(error) => Err(error),
                                Ok(output_len) => Ok((output_len, count)),
                            }
                        },
                    }
                },
            },
        }
    }
}

/// The output length that an LZ header declares.
pub open spec fn lz_header(header: Seq<u8>, limits: Limits) -> Result<usize, ErrorView> {
    match var_u64(header, 0) {
        Err(error) => Err(error),
        Ok((value, end)) => if end != header.len() {
            Err(detailed(ErrorKind::Malformed, "lz header has trailing bytes"@))
        } else if value > usize::MAX {
            Err(detailed(ErrorKind::LimitExceeded, "lz output size is too large"@))
        } else if !limits.admits(value as int) {
            Err(output_limit_error())
        } else {
            Ok(value as usize)
        },
    }
}

/// What an LZ node decodes to behind `base` earlier bytes.
pub open spec fn lz_decode(
    inputs: Seq<StreamView>,
    header: Seq<u8>,
    limits: Limits,
    base: nat,
) -> Result<Seq<u8>, ErrorView> {
    match lz_shape(inputs, header, limits) {
        Err(error) => Err(error),
        Ok((output_len, count)) => if base + output_len > usize::MAX {
            Err(plain(ErrorKind::IntegerOverflow))
        } else {
            lz_decode_from(
                lz_streams(inputs),
                count as nat,
                output_len as nat,
                base,
                0,
                0,
                Seq::empty(),
            )
        },
    }
}

/// The streams of an LZ node by their roles.
pub open spec fn lz_streams(inputs: Seq<StreamView>) -> LzStreams {
    LzStreams {
        literals: inputs[0].bytes,
        offsets: inputs[1],
        literal_lengths: inputs[2],
        match_lengths: inputs[3],
    }
}

/// An LZ node that decodes gives exactly as many bytes as its header declares.
pub proof fn law_lz_length_is_declared(
    inputs: Seq<StreamView>,
    header: Seq<u8>,
    limits: Limits,
    base: nat,
)
    requires
        lz_decode(inputs, header, limits, base) is Ok,
    ensures
        lz_header(header, limits) is Ok,
        lz_decode(inputs, header, limits, base)->Ok_0.len() == lz_header(header, limits)->Ok_0,
        limits.admits(lz_decode(inputs, header, limits, base)->Ok_0.len() as int),
{
    let (output_len, count) = lz_shape(inputs, header, limits)->Ok_0;
    lemma_lz_decoded_len(
        lz_streams(inputs),
        count as nat,
        output_len as nat,
        base,
        0,
        0,
        Seq::empty(),
    );
}

proof fn lemma_lz_decoded_len(
    streams: LzStreams,
    count: nat,
    output_len: nat,
    base: nat,
    index: nat,
    literal_pos: nat,
    output: Seq<u8>,
)
    requires
        lz_decode_from(streams, count, output_len, base, index, literal_pos, output) is Ok,
    ensures
        lz_decode_from(
            streams,
            count,
            output_len,
            base,
            index,
            literal_pos,
            output,
        )->Ok_0.len() == output_len,
    decreases count - index,
{
    if index < count {
        let (literal_len, offset, match_len) = lz_sequence(streams, index as int)->Ok_0;
        let literal_end = literal_pos + literal_len as nat;
        let literals = output + streams.literals.subrange(literal_pos as int, literal_end as int);
        lemma_lz_decoded_len(
            streams,
            count,
            output_len,
            base,
            index + 1,
            literal_end,
            lz_extend(literals, offset as nat, match_len as nat),
        );
    }
}

/// What an LZ node decodes to does not depend on how many bytes stand in front of it, as
/// long as its output fits behind them.
pub proof fn law_lz_ignores_earlier_bytes(
    inputs: Seq<StreamView>,
    header: Seq<u8>,
    limits: Limits,
    base: nat,
    other: nat,
)
    requires
        lz_decode(inputs, header, limits, base) is Ok,
        other + lz_decode(inputs, header, limits, base)->Ok_0.len() <= usize::MAX,
    ensures
        lz_decode(inputs, header, limits, other) == lz_decode(inputs, header, limits, base),
{
    law_lz_length_is_declared(inputs, header, limits, base);
    let (output_len, count) = lz_shape(inputs, header, limits)->Ok_0;
    lemma_lz_base(
        lz_streams(inputs),
        count as nat,
        output_len as nat,
        base,
        other,
        0,
        0,
        Seq::empty(),
    );
}

/// More bytes in front of an LZ node change what it comes to only where a size no longer
/// fits.
pub proof fn law_lz_only_overflows(
    inputs: Seq<StreamView>,
    header: Seq<u8>,
    limits: Limits,
    fewer: nat,
    more: nat,
)
    requires
        fewer <= more,
    ensures
        same_or_overflow(
            lz_decode(inputs, header, limits, fewer),
            lz_decode(inputs, header, limits, more),
        ),
{
    if let Ok((output_len, count)) = lz_shape(inputs, header, limits) {
        lemma_lz_overflow(
            lz_streams(inputs),
            count as nat,
            output_len as nat,
            fewer,
            more,
            0,
            0,
            Seq::empty(),
        );
    }
}

proof fn lemma_lz_overflow(
    streams: LzStreams,
    count: nat,
    output_len: nat,
    fewer: nat,
    more: nat,
    index: nat,
    literal_pos: nat,
    output: Seq<u8>,
)
    requires
        fewer <= more,
    ensures
        same_or_overflow(
            lz_decode_from(streams, count, output_len, fewer, index, literal_pos, output),
            lz_decode_from(streams, count, output_len, more, index, literal_pos, output),
        ),
    decreases count - index,
{
    if index < count {
        if let Ok((literal_len, offset, match_len)) = lz_sequence(streams, index as int) {
            let literal_end = literal_pos + literal_len as nat;
            let literals = output + streams.literals.subrange(
                literal_pos as int,
                literal_end as int,
            );
            lemma_lz_overflow(
                streams,
                count,
                output_len,
                fewer,
                more,
                index + 1,
                literal_end,
                lz_extend(literals, offset as nat, match_len as nat),
            );
        }
    }
}

proof fn lemma_lz_base(
    streams: LzStreams,
    count: nat,
    output_len: nat,
    base: nat,
    other: nat,
    index: nat,
    literal_pos: nat,
    output: Seq<u8>,
)
    requires
        lz_decode_from(streams, count, output_len, base, index, literal_pos, output) is Ok,
        other + output_len <= usize::MAX,
    ensures
        lz_decode_from(streams, count, output_len, other, index, literal_pos, output)
            == lz_decode_from(streams, count, output_len, base, index, literal_pos, output),
    decreases count - index,
{
    if index < count {
        let (literal_len, offset, match_len) = lz_sequence(streams, index as int)->Ok_0;
        let literal_end = literal_pos + literal_len as nat;
        let literals = output + streams.literals.subrange(literal_pos as int, literal_end as int);
        lemma_lz_base(
            streams,
            count,
            output_len,
            base,
            other,
            index + 1,
            literal_end,
            lz_extend(literals, offset as nat, match_len as nat),
        );
    }
}

/// Checks the shape of an LZ node; returns its output length and sequence count.
fn validate_lz_node(inputs: &[StreamInput<'_>], header: &[u8], limits: Limits) -> (result: Result<
    (usize, usize),
    Error,
>)
    ensures
        match result {
            Ok(shape) => lz_shape(stream_views(inputs@), header@, limits) == Ok::<
                (usize, usize),
                ErrorView,
            >(shape),
            Err(error) => lz_shape(stream_views(inputs@), header@, limits) == Err::<
                (usize, usize),
                ErrorView,
            >(error@),
        },
{
    if inputs.len() != 4 {
        return Err(fail(ErrorKind::InvalidGraph, "lz input count does not match node shape"));
    }
    if inputs[0].element_width != 1 {
        return Err(fail(ErrorKind::InvalidType, "lz literals must be serial bytes"));
    }
    validate_numeric_stream_width(inputs[1].element_width, "lz offsets")?;
    validate_numeric_stream_width(inputs[2].element_width, "lz literal lengths")?;
    validate_numeric_stream_width(inputs[3].element_width, "lz match lengths")?;
    let count: usize = numeric_element_count(inputs[1].bytes, inputs[1].element_width)?;
    let literal_count: usize = numeric_element_count(inputs[2].bytes, inputs[2].element_width)?;
    if literal_count != count {
        return Err(fail(ErrorKind::Malformed, "lz sequence stream counts do not match"));
    }
    let match_count: usize = numeric_element_count(inputs[3].bytes, inputs[3].element_width)?;
    if match_count != count {
        return Err(fail(ErrorKind::Malformed, "lz sequence stream counts do not match"));
    }
    let mut offset: usize = 0;
    let output_len: u64 = read_var_u64(header, &mut offset)?;
    if offset != header.len() {
        return Err(fail(ErrorKind::Malformed, "lz header has trailing bytes"));
    }
    if output_len > usize::MAX as u64 {
        return Err(fail(ErrorKind::LimitExceeded, "lz output size is too large"));
    }
    let output_len: usize = output_len as usize;
    check_output_limit(output_len, limits)?;
    Ok((output_len, count))
}

/// Decodes the sequences of an LZ node at the end of `output`.
fn append_lz_sequences(
    inputs: &[StreamInput<'_>],
    sequence_count: usize,
    output_len: usize,
    output: &mut Vec<u8>,
) -> (result: Result<(), Error>)
    requires
        inputs.len() == 4,
        old(output).len() + output_len <= usize::MAX,
    ensures
        final(output)@ == old(output)@ + lz_written_from(
            lz_streams(stream_views(inputs@)),
            sequence_count as nat,
            output_len as nat,
            old(output)@.len(),
            0,
            0,
            Seq::empty(),
        ),
        match result {
            Ok(_) => lz_decode_from(
                lz_streams(stream_views(inputs@)),
                sequence_count as nat,
                output_len as nat,
                old(output)@.len(),
                0,
                0,
                Seq::empty(),
            ) == Ok::<Seq<u8>, ErrorView>(final(output)@.skip(old(output)@.len() as int))
                && final(output)@.take(old(output)@.len() as int) == old(output)@
                && final(output)@.len() == old(output)@.len() + output_len,
            Err(error) => lz_decode_from(
                lz_streams(stream_views(inputs@)),
                sequence_count as nat,
                output_len as nat,
                old(output)@.len(),
                0,
                0,
                Seq::empty(),
            ) == Err::<Seq<u8>, ErrorView>(error@) && final(output)@.len() >= old(output)@.len()
                && final(output)@.take(old(output)@.len() as int) == old(output)@,
        },
{
    let literals = inputs[0].bytes;
    let offsets = inputs[1];
    let literal_lengths = inputs[2];
    let match_lengths = inputs[3];
    let output_base: usize = output.len();
    let output_limit: usize = output_base + output_len;
    let ghost prefix = output@;
    let ghost streams = lz_streams(stream_views(inputs@));
    let ghost total = lz_decode_from(
        streams,
        sequence_count as nat,
        output_len as nat,
        prefix.len(),
        0,
        0,
        Seq::empty(),
    );
    let ghost written = lz_written_from(
        streams,
        sequence_count as nat,
        output_len as nat,
        prefix.len(),
        0,
        0,
        Seq::empty(),
    );
    let ghost mut decoded = Seq::<u8>::empty();
    let mut literal_pos: usize = 0;
    let mut sequence: usize = 0;
    proof {
        assert(prefix + decoded =~= prefix);
        assert(prefix.take(prefix.len() as int) =~= prefix);
    }
    while sequence < sequence_count
        invariant
            sequence <= sequence_count,
            prefix == old(output)@,
            output_base == prefix.len(),
            output_limit == output_base + output_len,
            output@ == prefix + decoded,
            output@.len() <= output_limit,
            literal_pos <= literals.len(),
            streams.literals == literals@,
            streams.offsets == offsets@,
            streams.literal_lengths == literal_lengths@,
            streams.match_lengths == match_lengths@,
            streams == lz_streams(stream_views(inputs@)),
            total == lz_decode_from(
                streams,
                sequence_count as nat,
                output_len as nat,
                prefix.len(),
                0,
                0,
                Seq::empty(),
            ),
            total == lz_decode_from(
                streams,
                sequence_count as nat,
                output_len as nat,
                prefix.len(),
                sequence as nat,
                literal_pos as nat,
                decoded,
            ),
            written == lz_written_from(
                streams,
                sequence_count as nat,
                output_len as nat,
                prefix.len(),
                0,
                0,
                Seq::empty(),
            ),
            written == lz_written_from(
                streams,
                sequence_count as nat,
                output_len as nat,
                prefix.len(),
                sequence as nat,
                literal_pos as nat,
                decoded,
            ),
        decreases sequence_count - sequence,
    {
        proof {
            assert((prefix + decoded).take(prefix.len() as int) =~= prefix);
        }
        let literal_len: usize = read_usize_numeric_element(
            literal_lengths.bytes,
            literal_lengths.element_width,
            sequence,
        )?;
        let match_offset: usize = read_usize_numeric_element(
            offsets.bytes,
            offsets.element_width,
            sequence,
        )?;
        let match_len: usize = read_usize_numeric_element(
            match_lengths.bytes,
            match_lengths.element_width,
            sequence,
        )?;
        let out_pos: usize = output.len();
        if literal_len > usize::MAX - literal_pos || literal_len > usize::MAX - out_pos {
            return Err(Error::new(ErrorKind::IntegerOverflow));
        }
        let literal_end: usize = literal_pos + literal_len;
        if literal_end > literals.len() {
            return Err(fail(ErrorKind::Malformed, "lz literal stream is too short"));
        }
        if out_pos + literal_len > output_limit {
            return Err(fail(ErrorKind::Malformed, "lz literal length exceeds output size"));
        }
        let part = slice_subrange(literals, literal_pos, literal_end);
        append_bytes(output, part);
        let ghost with_literals = decoded + literals@.subrange(
            literal_pos as int,
            literal_end as int,
        );
        proof {
            assert(output@ =~= prefix + with_literals);
            assert((prefix + with_literals).take(prefix.len() as int) =~= prefix);
        }
        let out_pos: usize = output.len();
        if match_offset == 0 {
            return Err(fail(ErrorKind::Malformed, "lz offset is zero"));
        }
        if match_offset > out_pos - output_base {
            return Err(fail(ErrorKind::Malformed, "lz offset exceeds decoded prefix"));
        }
        if match_len > usize::MAX - out_pos {
            return Err(Error::new(ErrorKind::IntegerOverflow));
        }
        if out_pos + match_len > output_limit {
            return Err(fail(ErrorKind::Malformed, "lz match length exceeds output size"));
        }
        append_lz_match(output, out_pos, match_offset, match_len);
        proof {
            lemma_lz_extend_behind_prefix(
                prefix,
                with_literals,
                match_offset as nat,
                match_len as nat,
            );
            lemma_lz_extend_len(with_literals, match_offset as nat, match_len as nat);
            decoded = lz_extend(with_literals, match_offset as nat, match_len as nat);
        }
        literal_pos = literal_end;
        sequence = sequence + 1;
    }
    proof {
        assert((prefix + decoded).take(prefix.len() as int) =~= prefix);
    }
    let rest = slice_subrange(literals, literal_pos, literals.len());
    proof {
        assert(rest@ =~= literals@.skip(literal_pos as int));
    }
    if rest.len() > usize::MAX - output.len() {
        return Err(Error::new(ErrorKind::IntegerOverflow));
    }
    if output.len() + rest.len() != output_limit {
        return Err(fail(ErrorKind::Malformed, "lz output size does not match header"));
    }
    append_bytes(output, rest);
    proof {
        assert(output@.skip(prefix.len() as int) =~= decoded + rest@);
        assert(output@.take(prefix.len() as int) =~= prefix);
    }
    Ok(())
}

/// Whether the sequences of an LZ node have one-byte offsets and two-byte lengths.
pub open spec fn narrow_sequences(inputs: Seq<StreamView>) -> bool {
    &&& inputs.len() == 4
    &&& inputs[1].element_width == 1
    &&& inputs[2].element_width == 2
    &&& inputs[3].element_width == 2
}

/// The error of output that is not written behind what is there.
pub open spec fn lz_place_error() -> ErrorView {
    detailed(ErrorKind::InvalidGraph, "lz output spare capacity is invalid"@)
}

/// What an LZ node appends to `len` bytes, where it is told that there are `base`.
pub open spec fn lz_appended(
    inputs: Seq<StreamView>,
    header: Seq<u8>,
    limits: Limits,
    base: nat,
    len: nat,
) -> Result<Seq<u8>, ErrorView> {
    match lz_shape(inputs, header, limits) {
        Ok((output_len, _)) => if base + output_len <= usize::MAX && base != len {
            Err(lz_place_error())
        } else {
            lz_decode(inputs, header, limits, base)
        },
        Err(error) => Err(error),
    }
}

/// What an LZ node that fails has appended by then. Sequences with one-byte offsets and
/// two-byte lengths are checked before anything is written.
pub open spec fn lz_left(
    inputs: Seq<StreamView>,
    header: Seq<u8>,
    limits: Limits,
    base: nat,
    len: nat,
) -> Seq<u8> {
    match lz_shape(inputs, header, limits) {
        Ok((output_len, count)) => if base + output_len > usize::MAX || base != len
            || narrow_sequences(inputs) {
            Seq::empty()
        } else {
            lz_written_from(
                lz_streams(inputs),
                count as nat,
                output_len as nat,
                base,
                0,
                0,
                Seq::empty(),
            )
        },
        Err(_) => Seq::empty(),
    }
}

/// Decodes an LZ node at the end of `output`; where it fails midway, the caller takes back
/// what was written. `output_base` states the length of `output`; where it does not,
/// sequences with one-byte offsets and two-byte lengths are refused.
pub fn decode_lz_node_to_output(
    inputs: &[StreamInput<'_>],
    header: &[u8],
    limits: Limits,
    output: &mut Vec<u8>,
    output_base: usize,
) -> (result: Result<(), Error>)
    requires
        output_base == old(output).len() || narrow_sequences(stream_views(inputs@)),
    ensures
        leaves(
            lz_appended(
                stream_views(inputs@),
                header@,
                limits,
                output_base as nat,
                old(output)@.len(),
            ),
            lz_left(
                stream_views(inputs@),
                header@,
                limits,
                output_base as nat,
                old(output)@.len(),
            ),
            old(output)@,
            final(output)@,
            error_of(result),
        ),
{
    proof {
        assert(output@ + Seq::empty() =~= output@);
    }
    let (output_len, sequence_count) = validate_lz_node(inputs, header, limits)?;
    if output_len > usize::MAX - output_base {
        return Err(Error::new(ErrorKind::IntegerOverflow));
    }
    if output.len() != output_base {
        return Err(fail(ErrorKind::InvalidGraph, "lz output spare capacity is invalid"));
    }
    let narrow: bool = inputs[1].element_width == 1 && inputs[2].element_width == 2
        && inputs[3].element_width == 2;
    let ghost before = output@;
    match append_lz_sequences(inputs, sequence_count, output_len, output) {
        Ok(_) => {
            proof {
                assert(output@ =~= before + output@.skip(before.len() as int));
            }
            Ok(())
        },
        Err(error) => {
            if narrow {
                output.truncate(output_base);
                proof {
                    assert(output@ =~= before);
                }
            }
            Err(error)
        },
    }
}

/// Decodes an LZ node.
pub fn decode_lz_node(inputs: &[StreamInput<'_>], header: &[u8], limits: Limits) -> (result: Result<
    Vec<u8>,
    Error,
>)
    ensures
        outcome(result) == lz_decode(stream_views(inputs@), header@, limits, 0),
{
    let mut output: Vec<u8> = Vec::new();
    decode_lz_node_to_output(inputs, header, limits, &mut output, 0)?;
    proof {
        let decoded = lz_decode(stream_views(inputs@), header@, limits, 0)->Ok_0;
        assert(Seq::<u8>::empty() + decoded =~= decoded);
    }
    Ok(output)
}

/// Decodes LZ sequences with one-byte offsets and two-byte lengths into the spare capacity
/// of `output`, which is left as it was where they are refused. They are refused where
/// `output_base` is not its length, and where `Vec::capacity` says that `output_len` more
/// bytes do not fit.
pub fn decode_u8_u16_u16_to_output(
    literals: &[u8],
    offsets: &[u8],
    literal_lengths: &[u8],
    match_lengths: &[u8],
    sequence_count: usize,
    output_len: usize,
    output: &mut Vec<u8>,
    output_base: usize,
) -> (result: Result<(), Error>)
    ensures
        exists|capacity: usize|
            old(output)@.len() <= capacity && appends(
                #[trigger] narrow_lz_decode(
                    literals@,
                    offsets@,
                    literal_lengths@,
                    match_lengths@,
                    sequence_count as nat,
                    output_len as nat,
                    output_base as nat,
                    old(output)@.len(),
                    capacity as nat,
                ),
                old(output)@,
                final(output)@,
                error_of(result),
            ),
{
    let capacity: usize = buffer_capacity(output);
    decode_u8_u16_u16_within(
        literals,
        offsets,
        literal_lengths,
        match_lengths,
        sequence_count,
        output_len,
        output,
        output_base,
        capacity,
    )
}

/// Decodes LZ sequences with one-byte offsets and two-byte lengths at the end of
/// `output`, which is left as it was where they are refused. They are refused where
/// `output_base` is not its length, and where `output_len` more bytes exceed `capacity`.
pub fn decode_u8_u16_u16_within(
    literals: &[u8],
    offsets: &[u8],
    literal_lengths: &[u8],
    match_lengths: &[u8],
    sequence_count: usize,
    output_len: usize,
    output: &mut Vec<u8>,
    output_base: usize,
    capacity: usize,
) -> (result: Result<(), Error>)
    ensures
        appends(
            narrow_lz_decode(
                literals@,
                offsets@,
                literal_lengths@,
                match_lengths@,
                sequence_count as nat,
                output_len as nat,
                output_base as nat,
                old(output)@.len(),
                capacity as nat,
            ),
            old(output)@,
            final(output)@,
            error_of(result),
        ),
{
    if sequence_count > usize::MAX / 2 {
        return Err(Error::new(ErrorKind::IntegerOverflow));
    }
    let length_bytes: usize = sequence_count * 2;
    if offsets.len() != sequence_count || literal_lengths.len() != length_bytes
        || match_lengths.len() != length_bytes {
        return Err(fail(ErrorKind::Malformed, "lz sequence stream counts do not match"));
    }
    if output_len > usize::MAX - output_base {
        return Err(Error::new(ErrorKind::IntegerOverflow));
    }
    if output.len() != output_base || capacity < output_base + output_len {
        return Err(fail(ErrorKind::InvalidGraph, "lz output spare capacity is invalid"));
    }
    let inputs = [
        StreamInput { bytes: literals, element_width: 1, string_lengths: None },
        StreamInput { bytes: offsets, element_width: 1, string_lengths: None },
        StreamInput { bytes: literal_lengths, element_width: 2, string_lengths: None },
        StreamInput { bytes: match_lengths, element_width: 2, string_lengths: None },
    ];
    let ghost before = output@;
    match append_lz_sequences(inputs.as_slice(), sequence_count, output_len, output) {
        Ok(_) => {
            proof {
                assert(output@ =~= before + output@.skip(before.len() as int));
            }
            Ok(())
        },
        Err(error) => {
            output.truncate(output_base);
            proof {
                assert(output@ =~= before);
            }
            Err(error)
        },
    }
}

/// What LZ sequences with one-byte offsets and two-byte lengths append to `len` bytes, with
/// room for `capacity`, where they are told that there are `base`.
pub open spec fn narrow_lz_decode(
    literals: Seq<u8>,
    offsets: Seq<u8>,
    literal_lengths: Seq<u8>,
    match_lengths: Seq<u8>,
    count: nat,
    output_len: nat,
    base: nat,
    len: nat,
    capacity: nat,
) -> Result<Seq<u8>, ErrorView> {
    if count * 2 > usize::MAX {
        Err(plain(ErrorKind::IntegerOverflow))
    } else if offsets.len() != count || literal_lengths.len() != count * 2 || match_lengths.len()
        != count * 2 {
        Err(detailed(ErrorKind::Malformed, "lz sequence stream counts do not match"@))
    } else if base + output_len > usize::MAX {
        Err(plain(ErrorKind::IntegerOverflow))
    } else if base != len || capacity < base + output_len {
        Err(lz_place_error())
    } else {
        lz_decode_from(
            LzStreams {
                literals,
                offsets: StreamView { bytes: offsets, element_width: 1, string_lengths: None },
                literal_lengths: StreamView {
                    bytes: literal_lengths,
                    element_width: 2,
                    string_lengths: None,
                },
                match_lengths: StreamView {
                    bytes: match_lengths,
                    element_width: 2,
                    string_lengths: None,
                },
            },
            count,
            output_len,
            base,
            0,
            0,
            Seq::empty(),
        )
    }
}

} // verus!
