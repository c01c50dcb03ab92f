//! Finite-state entropy coding.

use vstd::prelude::*;
use zrip_core::bitstream::reader::BitReader;
use zrip_core::bitstream::reader_reverse::ReverseBitReader;
use zrip_core::fse::table_builder::{build_decode_table, parse_fse_table_description};

use crate::bits::{
    bit_length, bit_range, count_bits, lemma_bit_length_bound, lemma_bit_range_monotone,
    lemma_bit_range_values, power_of_two,
};
use crate::bytes::{le_value, read_le};
use crate::error::{
    detailed, fail, outcome, plain, plain_outcome, Error, ErrorKind, ErrorView,
};
use crate::limits::{check_output_limit, output_limit_error, Limits};
use crate::reverse_bits::{
    bits_left, lemma_be_bits_bound, marked_bits, open_reverse, read_reverse, reverse_open_error,
    reverse_read, unread_bits,
};
use crate::stream::{
    element, join_text, lemma_element_bound, packed, push_element, require_numeric_width,
    required_width_error, stream_views, typed_stream, OwnedStream, StreamInput, StreamView,
};

verus! {

/// What `zrip_core::fse::table_builder::parse_fse_table_description` reads off a
/// buffer for symbols up to 255: the normalized counts and the number of bytes
/// taken, or the text of its error.
pub uninterp spec fn fse_description(bytes: Seq<u8>) -> Result<(Seq<i16>, usize), Seq<char>>;

/// What `zrip_core::fse::table_builder::build_decode_table` makes of normalized
/// counts: for each state the base of the next one, the bits to add to it and the
/// symbol; or the text of its error.
pub uninterp spec fn fse_decode_table(counts: Seq<i16>, accuracy_log: u8) -> Result<
    Seq<(u16, u8, u8)>,
    Seq<char>,
>;

/// Reads a table description, by `parse_fse_table_description` on a `BitReader` over
/// `bytes`, with `BitReader::bytes_consumed` for the number of bytes taken. The reader
/// counts the bits of `bytes` in a `usize`, which they must fit.
#[verifier::external_body]
fn read_fse_description(bytes: &[u8]) -> (result: Result<(Vec<i16>, usize), String>)
    requires
        8 * bytes@.len() <= usize::MAX,
    ensures
        match result {
            Ok((counts, used)) => fse_description(bytes@) == Ok::<(Seq<i16>, usize), Seq<char>>(
                (counts@, used),
            ),
            Err(text) => fse_description(bytes@) == Err::<(Seq<i16>, usize), Seq<char>>(text@),
        },
{
    let mut reader = BitReader::new(bytes);
    let (counts, _) = parse_fse_table_description(&mut reader, u8::MAX).map_err(
        |err| format!("{err}"),
    )?;
    Ok((counts, reader.bytes_consumed()))
}

/// Builds a decoding table, by `build_decode_table`. The counts must be valid, as it
/// does not check them. No state asks for more bits than the accuracy log.
#[verifier::external_body]
fn build_fse_table(counts: &[i16], accuracy_log: u8) -> (result: Result<
    Vec<(u16, u8, u8)>,
    String,
>)
    requires
        5 <= accuracy_log <= 12,
        counts@.len() <= 256,
        forall|i: int| 0 <= i < counts@.len() ==> #[trigger] counts@[i] >= -1,
        count_sum(counts@, counts@.len()) == bit_range(accuracy_log as nat),
    ensures
        match result {
            Ok(table) => fse_decode_table(counts@, accuracy_log) == Ok::<
                Seq<(u16, u8, u8)>,
                Seq<char>,
            >(table@) && forall|i: int|
                0 <= i < table@.len() ==> (#[trigger] table@[i]).1 <= accuracy_log,
            Err(text) => fse_decode_table(counts@, accuracy_log) == Err::<
                Seq<(u16, u8, u8)>,
                Seq<char>,
            >(text@),
        },
{
    let table = build_decode_table(counts, accuracy_log).map_err(|err| format!("{err}"))?;
    Ok(table.iter().map(|entry| (entry.base_line, entry.num_bits, entry.symbol)).collect())
}

/// A list of counts without the zeros at its end.
pub open spec fn trim_zeros(counts: Seq<i16>) -> Seq<i16>
    decreases counts.len(),
{
    if counts.len() > 0 && counts.last() == 0 {
        trim_zeros(counts.drop_last())
    } else {
        counts
    }
}

/// The 16 bits of a count.
pub open spec fn count_bits16(count: i16) -> u64 {
    if count >= 0 {
        count as u64
    } else {
        (count + 0x1_0000) as u64
    }
}

/// The bytes of counts, two for each.
pub open spec fn counts_bytes(counts: Seq<i16>) -> Seq<u8> {
    packed(Seq::new(counts.len(), |i: int| count_bits16(counts[i])), 2)
}

/// What is made of the counts that a table description of `len` bytes holds.
pub open spec fn ncount_output(
    description: Result<(Seq<i16>, usize), Seq<char>>,
    len: nat,
    limits: Limits,
) -> Result<StreamView, ErrorView> {
    match description {
        Err(text) => Err(detailed(ErrorKind::Malformed, "invalid fse_ncount: "@ + text)),
        Ok((counts, used)) => if used != len {
            Err(detailed(ErrorKind::Malformed, "fse_ncount input has trailing bytes"@))
        } else if trim_zeros(counts).len() * 2 > usize::MAX {
            Err(plain(ErrorKind::IntegerOverflow))
        } else if !limits.admits((trim_zeros(counts).len() * 2) as int) {
            Err(output_limit_error())
        } else {
            Ok(typed_stream(counts_bytes(trim_zeros(counts)), 2))
        },
    }
}

/// What an fse_ncount node produces.
pub open spec fn fse_ncount_node(source: StreamView, header: Seq<u8>, limits: Limits) -> Result<
    StreamView,
    ErrorView,
> {
    if header.len() != 0 {
        Err(detailed(ErrorKind::Unsupported, "fse_ncount headers are unsupported"@))
    } else if source.element_width != 1 {
        Err(detailed(ErrorKind::InvalidType, "fse_ncount input must be serial"@))
    } else if 8 * source.bytes.len() > usize::MAX {
        Err(plain(ErrorKind::IntegerOverflow))
    } else {
        ncount_output(fse_description(source.bytes), source.bytes.len(), limits)
    }
}

/// The view of a table description that was read.
pub open spec fn description_view(description: Result<(Vec<i16>, usize), String>) -> Result<
    (Seq<i16>, usize),
    Seq<char>,
> {
    match description {
        Ok((counts, used)) => Ok((counts@, used)),
        Err(text) => Err(text@),
    }
}

/// Lays out the counts that a table description of `len` bytes holds.
pub fn lay_out_counts(
    description: Result<(Vec<i16>, usize), String>,
    len: usize,
    limits: Limits,
) -> (result: Result<OwnedStream, Error>)
    ensures
        outcome(result) == ncount_output(description_view(description), len as nat, limits),
        result is Ok ==> !result->Ok_0.recyclable,
{
    let (counts, used) = match description {
        Ok(pair) => pair,
        Err(text) => {
            let detail = join_text("invalid fse_ncount: ", text.as_str());
            return Err(fail(ErrorKind::Malformed, detail.as_str()));
        },
    };
    if used != len {
        return Err(fail(ErrorKind::Malformed, "fse_ncount input has trailing bytes"));
    }
    let ghost all = counts@;
    let mut count: usize = counts.len();
    proof {
        assert(all.take(count as int) =~= all);
    }
    while count > 0 && counts[count - 1] == 0
        invariant
            count <= counts@.len(),
            all == counts@,
            trim_zeros(all) == trim_zeros(all.take(count as int)),
        decreases count,
    {
        proof {
            assert(all.take(count as int).drop_last() =~= all.take(count - 1));
        }
        count = count - 1;
    }
    let ghost kept = all.take(count as int);
    proof {
        assert(trim_zeros(all) == kept);
    }
    let output_len: usize = match count.checked_mul(2) {
        Some(output_len) => output_len,
        None => {
            return Err(Error::new(ErrorKind::IntegerOverflow));
        },
    };
    check_output_limit(output_len, limits)?;
    let mut output: Vec<u8> = Vec::new();
    let ghost values = Seq::new(kept.len(), |i: int| count_bits16(kept[i]));
    let mut index: usize = 0;
    proof {
        assert(values.take(0) =~= Seq::empty());
    }
    while index < count
        invariant
            index <= count <= counts@.len(),
            all == counts@,
            kept == all.take(count as int),
            values == Seq::new(kept.len(), |i: int| count_bits16(kept[i])),
            output@ == packed(values.take(index as int), 2),
        decreases count - index,
    {
        let value: u64 = if counts[index] >= 0 {
            counts[index] as u64
        } else {
            (counts[index] as i64 + 0x1_0000) as u64
        };
        push_element(&mut output, value, 2, Ghost(values.take(index as int)));
        proof {
            assert(values.take(index + 1) =~= values.take(index as int).push(value));
        }
        index = index + 1;
    }
    proof {
        assert(values.take(index as int) =~= values);
    }
    Ok(OwnedStream::typed(output, 2))
}

/// Decodes an fse_ncount node.
pub fn decode_fse_ncount_node(
    source: StreamInput<'_>,
    header: &[u8],
    limits: Limits,
) -> (result: Result<OwnedStream, Error>)
    ensures
        outcome(result) == fse_ncount_node(source@, header@, limits),
        result is Ok ==> !result->Ok_0.recyclable,
{
    if header.len() != 0 {
        return Err(fail(ErrorKind::Unsupported, "fse_ncount headers are unsupported"));
    }
    if source.element_width != 1 {
        return Err(fail(ErrorKind::InvalidType, "fse_ncount input must be serial"));
    }
    if source.bytes.len() > usize::MAX / 8 {
        return Err(Error::new(ErrorKind::IntegerOverflow));
    }
    let description = read_fse_description(source.bytes);
    lay_out_counts(description, source.bytes.len(), limits)
}

/// The number of states and of output bytes of an fse_v2 node.
#[derive(Clone, Copy, Debug, PartialEq, Eq, Structural)]
pub struct FseV2Header {
    pub nb_states: usize,
    pub output_len: usize,
}

/// The header of an fse_v2 node.
pub open spec fn fse_v2_header(header: Seq<u8>) -> Result<FseV2Header, ErrorView> {
    let output_len = le_value(header.subrange(1, header.len() as int));
    if header.len() < 2 || header.len() > 9 {
        Err(detailed(ErrorKind::Malformed, "fse_v2 header is malformed"@))
    } else if header[0] != 2 && header[0] != 4 {
        Err(detailed(ErrorKind::Unsupported, "fse_v2 state count is unsupported"@))
    } else if output_len < 2 {
        Err(detailed(ErrorKind::Malformed, "fse_v2 output count must be at least two"@))
    } else if output_len > usize::MAX {
        Err(detailed(ErrorKind::LimitExceeded, "fse_v2 output size is too large"@))
    } else if output_len < header[0] {
        Err(detailed(ErrorKind::Malformed, "fse_v2 output count is below the state count"@))
    } else {
        Ok(FseV2Header { nb_states: header[0] as usize, output_len: output_len as usize })
    }
}

fn parse_fse_v2_header(header: &[u8]) -> (result: Result<FseV2Header, Error>)
    ensures
        plain_outcome(result) == fse_v2_header(header@),
{
    if header.len() < 2 || header.len() > 9 {
        return Err(fail(ErrorKind::Malformed, "fse_v2 header is malformed"));
    }
    let nb_states: usize = header[0] as usize;
    if nb_states != 2 && nb_states != 4 {
        return Err(fail(ErrorKind::Unsupported, "fse_v2 state count is unsupported"));
    }
    let output_len: u64 = read_le(header, 1, header.len() - 1);
    if output_len < 2 {
        return Err(fail(ErrorKind::Malformed, "fse_v2 output count must be at least two"));
    }
    if output_len > usize::MAX as u64 {
        return Err(fail(ErrorKind::LimitExceeded, "fse_v2 output size is too large"));
    }
    if (output_len as usize) < nb_states {
        return Err(fail(ErrorKind::Malformed, "fse_v2 output count is below the state count"));
    }
    Ok(FseV2Header { nb_states, output_len: output_len as usize })
}

/// The signed integer that 16 bits stand for.
pub open spec fn signed16(bits: nat) -> i16 {
    if bits < 0x8000 {
        bits as i16
    } else {
        (bits - 0x1_0000) as i16
    }
}

/// The counts in a stream of 16-bit integers.
pub open spec fn stream_counts(bytes: Seq<u8>) -> Seq<i16> {
    Seq::new(bytes.len() / 2, |i: int| signed16(element(bytes, 2, i)))
}

/// The number of table cells that the first `count` counts take: one for a count
/// of minus one.
pub open spec fn count_sum(counts: Seq<i16>, count: nat) -> int
    decreases count,
{
    if count == 0 {
        0
    } else {
        count_sum(counts, (count - 1) as nat) + (if counts[count - 1] == -1 {
            1int
        } else {
            counts[count - 1] as int
        })
    }
}

/// The accuracy log of counts, or why they are refused.
pub open spec fn fse_accuracy_log(counts: Seq<i16>) -> Result<u8, ErrorView> {
    let sum = count_sum(counts, counts.len());
    let log = bit_length(sum as nat) - 1;
    if counts.len() < 2 || counts.len() > 256 {
        Err(detailed(ErrorKind::Malformed, "fse_v2 normalized count size is invalid"@))
    } else if exists|i: int| 0 <= i < counts.len() && #[trigger] counts[i] < -1 {
        Err(detailed(ErrorKind::Malformed, "fse_v2 normalized count is invalid"@))
    } else if sum == 0 || sum != bit_range(log as nat) {
        Err(detailed(ErrorKind::Malformed, "fse_v2 normalized count sum is invalid"@))
    } else if log < 5 || log > 12 {
        Err(detailed(ErrorKind::Malformed, "fse_v2 table log is unsupported"@))
    } else {
        Ok(log as u8)
    }
}

fn read_counts(bytes: &[u8]) -> (counts: Vec<i16>)
    requires
        bytes@.len() % 2 == 0,
    ensures
        counts@ == stream_counts(bytes@),
{
    let count: usize = bytes.len() / 2;
    let mut counts: Vec<i16> = Vec::new();
    while counts.len() < count
        invariant
            count == bytes@.len() / 2,
            counts@.len() <= count,
            forall|i: int|
                0 <= i < counts@.len() ==> #[trigger] counts@[i] == stream_counts(bytes@)[i],
        decreases count - counts@.len(),
    {
        proof {
            lemma_element_bound(bytes@, 2, counts@.len() as int);
            assert(bytes@.len() == bytes.len());
        }
        let bits: u64 = read_le(bytes, counts.len() * 2, 2);
        let value: i16 = if bits < 0x8000 {
            bits as i16
        } else {
            (bits as i64 - 0x1_0000) as i16
        };
        counts.push(value);
    }
    proof {
        assert(counts@ =~= stream_counts(bytes@));
    }
    counts
}

/// Checks normalized counts and finds their accuracy log.
pub fn validate_fse_distribution(distribution: &[i16]) -> (result: Result<u8, Error>)
    ensures
        plain_outcome(result) == fse_accuracy_log(distribution@),
        match result {
            Ok(log) => 5 <= log <= 12 && count_sum(distribution@, distribution@.len()) == bit_range(
                log as nat,
            ) && distribution@.len() <= 256 && forall|i: int|
                0 <= i < distribution@.len() ==> #[trigger] distribution@[i] >= -1,
            Err(_) => true,
        },
{
    if distribution.len() < 2 || distribution.len() > 256 {
        return Err(fail(ErrorKind::Malformed, "fse_v2 normalized count size is invalid"));
    }
    let mut sum: u32 = 0;
    let mut index: usize = 0;
    while index < distribution.len()
        invariant
            index <= distribution@.len() <= 256,
            distribution@.len() >= 2,
            sum == count_sum(distribution@, index as nat),
            sum <= index * 0x7fff,
            forall|i: int| 0 <= i < index ==> #[trigger] distribution@[i] >= -1,
        decreases distribution.len() - index,
    {
        let count: i16 = distribution[index];
        if count < -1 {
            return Err(fail(ErrorKind::Malformed, "fse_v2 normalized count is invalid"));
        }
        sum = if count == -1 {
            sum + 1
        } else {
            sum + count as u32
        };
        index = index + 1;
    }
    if sum == 0 {
        return Err(fail(ErrorKind::Malformed, "fse_v2 normalized count sum is invalid"));
    }
    proof {
        lemma_bit_range_values();
        lemma_bit_length_bound(sum as nat, 32);
    }
    let log: usize = count_bits(sum as u64) - 1;
    if sum as u64 != power_of_two(log) {
        return Err(fail(ErrorKind::Malformed, "fse_v2 normalized count sum is invalid"));
    }
    if log < 5 || log > 12 {
        return Err(fail(ErrorKind::Malformed, "fse_v2 table log is unsupported"));
    }
    Ok(log as u8)
}

/// Reads the starting states from `index` on.
pub open spec fn fse_states_from(
    unread: Seq<bool>,
    accuracy_log: nat,
    count: nat,
    states: Seq<nat>,
) -> Result<(Seq<nat>, Seq<bool>), ErrorView>
    decreases count - states.len(),
{
    if states.len() >= count {
        Ok((states, unread))
    } else {
        match reverse_read(unread, accuracy_log) {
            Err(error) => Err(error),
            Ok((state, rest)) => fse_states_from(rest, accuracy_log, count, states.push(state)),
        }
    }
}

/// Decodes the symbols behind `output`: the states take turns, and each moves on
/// after its symbol unless it is the last of that state.
pub open spec fn fse_symbols_from(
    table: Seq<(u16, u8, u8)>,
    unread: Seq<bool>,
    states: Seq<nat>,
    output_len: nat,
    output: Seq<u8>,
) -> Result<(Seq<u8>, Seq<bool>), ErrorView>
    decreases output_len - output.len(),
{
    let turn = output.len() as int % states.len() as int;
    let state = states[turn];
    if output.len() >= output_len {
        Ok((output, unread))
    } else if state >= table.len() {
        Err(detailed(ErrorKind::Malformed, "fse state is invalid"@))
    } else {
        let (base, bits, symbol) = table[state as int];
        if output.len() + states.len() >= output_len {
            fse_symbols_from(table, unread, states, output_len, output.push(symbol))
        } else {
            match reverse_read(unread, bits as nat) {
                Err(error) => Err(error),
                Ok((value, rest)) => fse_symbols_from(
                    table,
                    rest,
                    states.update(turn, base as nat + value),
                    output_len,
                    output.push(symbol),
                ),
            }
        }
    }
}

/// The symbols of a reverse bit stream.
pub open spec fn fse_symbols(
    bits: Seq<u8>,
    header: FseV2Header,
    table: Seq<(u16, u8, u8)>,
    accuracy_log: nat,
) -> Result<Seq<u8>, ErrorView> {
    if 8 * bits.len() > usize::MAX {
        Err(plain(ErrorKind::IntegerOverflow))
    } else {
        match reverse_open_error(bits) {
            Some(text) => Err(detailed(ErrorKind::Malformed, text)),
            None => match fse_states_from(
                marked_bits(bits),
                accuracy_log,
                header.nb_states as nat,
                Seq::empty(),
            ) {
                Err(error) => Err(error),
                Ok((states, rest)) => match fse_symbols_from(
                    table,
                    rest,
                    states,
                    header.output_len as nat,
                    Seq::empty(),
                ) {
                    Err(error) => Err(error),
                    Ok((symbols, rest)) => if rest.len() != 0 {
                        Err(detailed(ErrorKind::Malformed, "fse_v2 input has trailing bits"@))
                    } else {
                        Ok(symbols)
                    },
                },
            },
        }
    }
}

/// What is made of a decoding table, or of the text of the error of building it.
pub open spec fn fse_table_output(
    table: Result<Seq<(u16, u8, u8)>, Seq<char>>,
    bits: Seq<u8>,
    header: FseV2Header,
    accuracy_log: nat,
) -> Result<Seq<u8>, ErrorView> {
    match table {
        Err(text) => Err(detailed(ErrorKind::Malformed, "invalid fse_v2 table: "@ + text)),
        Ok(table) => fse_symbols(bits, header, table, accuracy_log),
    }
}

/// What an fse_v2 node produces.
pub open spec fn fse_v2_node(inputs: Seq<StreamView>, header: Seq<u8>, limits: Limits) -> Result<
    Seq<u8>,
    ErrorView,
> {
    if inputs.len() != 2 {
        Err(detailed(ErrorKind::InvalidGraph, "fse_v2 input count does not match node shape"@))
    } else if let Some(error) = required_width_error(inputs[0], 2, "fse_v2 normalized counts"@) {
        Err(error)
    } else if inputs[1].element_width != 1 {
        Err(detailed(ErrorKind::InvalidType, "fse_v2 bits must be serial"@))
    } else {
        match fse_v2_header(header) {
            Err(error) => Err(error),
            Ok(parsed) => if !limits.admits(parsed.output_len as int) {
                Err(output_limit_error())
            } else {
                let counts = stream_counts(inputs[0].bytes);
                match fse_accuracy_log(counts) {
                    Err(error) => Err(error),
                    Ok(log) => fse_table_output(
                        fse_decode_table(counts, log),
                        inputs[1].bytes,
                        parsed,
                        log as nat,
                    ),
                }
            },
        }
    }
}

/// The values of states.
pub open spec fn state_values(states: Seq<u32>) -> Seq<nat> {
    Seq::new(states.len(), |i: int| states[i] as nat)
}

fn read_states<'a>(reader: &mut ReverseBitReader<'a>, accuracy_log: u8, count: usize) -> (result:
    Result<Vec<u32>, Error>)
    requires
        accuracy_log <= 12,
    ensures
        match result {
            Ok(states) => fse_states_from(
                unread_bits(*old(reader)),
                accuracy_log as nat,
                count as nat,
                Seq::empty(),
            ) == Ok::<(Seq<nat>, Seq<bool>), ErrorView>(
                (state_values(states@), unread_bits(*final(reader))),
            ) && states@.len() == count,
            Err(error) => fse_states_from(
                unread_bits(*old(reader)),
                accuracy_log as nat,
                count as nat,
                Seq::empty(),
            ) == Err::<(Seq<nat>, Seq<bool>), ErrorView>(error@),
        },
        unread_bits(*final(reader)).len() <= unread_bits(*old(reader)).len(),
{
    let mut states: Vec<u32> = Vec::new();
    let ghost total = fse_states_from(
        unread_bits(*reader),
        accuracy_log as nat,
        count as nat,
        Seq::empty(),
    );
    proof {
        assert(state_values(states@) =~= Seq::empty());
    }
    while states.len() < count
        invariant
            accuracy_log <= 12,
            states@.len() <= count,
            total == fse_states_from(
                unread_bits(*old(reader)),
                accuracy_log as nat,
                count as nat,
                Seq::empty(),
            ),
            total == fse_states_from(
                unread_bits(*reader),
                accuracy_log as nat,
                count as nat,
                state_values(states@),
            ),
            unread_bits(*reader).len() <= unread_bits(*old(reader)).len(),
        decreases count - states@.len(),
    {
        let ghost before = states@;
        let state: u32 = read_reverse(reader, accuracy_log)?;
        states.push(state);
        proof {
            assert(state_values(states@) =~= state_values(before).push(state as nat));
        }
    }
    Ok(states)
}

/// Decodes the symbols of a reverse bit stream.
pub fn decode_fse_symbols(
    bits: &[u8],
    header: FseV2Header,
    table: &[(u16, u8, u8)],
    accuracy_log: u8,
) -> (result: Result<Vec<u8>, Error>)
    requires
        accuracy_log <= 12,
        header.nb_states > 0,
        forall|i: int| 0 <= i < table@.len() ==> (#[trigger] table@[i]).1 <= 12,
    ensures
        outcome(result) == fse_symbols(bits@, header, table@, accuracy_log as nat),
{
    if bits.len() > usize::MAX / 8 {
        return Err(Error::new(ErrorKind::IntegerOverflow));
    }
    let mut reader = open_reverse(bits)?;
    proof {
        lemma_bit_range_values();
        lemma_bit_length_bound(bits@.last() as nat, 8);
    }
    let mut states = read_states(&mut reader, accuracy_log, header.nb_states)?;
    let mut output: Vec<u8> = Vec::new();
    let ghost total = fse_symbols_from(
        table@,
        unread_bits(reader),
        state_values(states@),
        header.output_len as nat,
        Seq::empty(),
    );
    proof {
        assert(output@ =~= Seq::empty());
    }
    while output.len() < header.output_len
        invariant
            header.nb_states > 0,
            states@.len() == header.nb_states,
            forall|i: int| 0 <= i < table@.len() ==> (#[trigger] table@[i]).1 <= 12,
            unread_bits(reader).len() <= usize::MAX,
            output@.len() <= header.output_len,
            total == fse_symbols_from(
                table@,
                unread_bits(reader),
                state_values(states@),
                header.output_len as nat,
                output@,
            ),
            fse_symbols(bits@, header, table@, accuracy_log as nat) == (match total {
                Err(error) => Err::<Seq<u8>, ErrorView>(error),
                Ok((symbols, rest)) => if rest.len() != 0 {
                    Err(detailed(ErrorKind::Malformed, "fse_v2 input has trailing bits"@))
                } else {
                    Ok(symbols)
                },
            }),
        decreases header.output_len - output@.len(),
    {
        let turn: usize = output.len() % header.nb_states;
        let ghost before = states@;
        let state: usize = states[turn] as usize;
        if state >= table.len() {
            return Err(fail(ErrorKind::Malformed, "fse state is invalid"));
        }
        let (base, count, symbol) = table[state];
        if header.output_len - output.len() > header.nb_states {
            let ghost unread = unread_bits(reader);
            let value: u32 = read_reverse(&mut reader, count)?;
            proof {
                lemma_be_bits_bound(unread.take(count as int));
                lemma_bit_range_monotone(count as nat, 16);
                lemma_bit_range_values();
            }
            let next: u32 = base as u32 + value;
            states.set(turn, next);
            proof {
                assert(state_values(states@) =~= state_values(before).update(
                    turn as int,
                    next as nat,
                ));
            }
        }
        output.push(symbol);
    }
    if bits_left(&reader) != 0 {
        return Err(fail(ErrorKind::Malformed, "fse_v2 input has trailing bits"));
    }
    Ok(output)
}

/// Decodes an fse_v2 node.
pub fn decode_fse_v2_node(inputs: &[StreamInput<'_>], header: &[u8], limits: Limits) -> (result:
    Result<Vec<u8>, Error>)
    ensures
        outcome(result) == fse_v2_node(stream_views(inputs@), header@, limits),
{
    if inputs.len() != 2 {
        return Err(fail(ErrorKind::InvalidGraph, "fse_v2 input count does not match node shape"));
    }
    let norm = inputs[0];
    let bits = inputs[1];
    require_numeric_width(&norm, 2, "fse_v2 normalized counts")?;
    if bits.element_width != 1 {
        return Err(fail(ErrorKind::InvalidType, "fse_v2 bits must be serial"));
    }
    let parsed = parse_fse_v2_header(header)?;
    check_output_limit(parsed.output_len, limits)?;
    let counts = read_counts(norm.bytes);
    let accuracy_log: u8 = validate_fse_distribution(counts.as_slice())?;
    match build_fse_table(counts.as_slice(), accuracy_log) {
        Ok(table) => decode_fse_symbols(bits.bytes, parsed, table.as_slice(), accuracy_log),
        Err(text) => {
            let detail = join_text("invalid fse_v2 table: ", text.as_str());
            Err(fail(ErrorKind::Malformed, detail.as_str()))
        },
    }
}

proof fn lemma_symbols_len(
    table: Seq<(u16, u8, u8)>,
    unread: Seq<bool>,
    states: Seq<nat>,
    output_len: nat,
    output: Seq<u8>,
)
    requires
        output.len() <= output_len,
        fse_symbols_from(table, unread, states, output_len, output) is Ok,
    ensures
        fse_symbols_from(table, unread, states, output_len, output)->Ok_0.0.len() == output_len,
    decreases output_len - output.len(),
{
    if output.len() < output_len {
        let turn = output.len() as int % states.len() as int;
        let (base, bits, symbol) = table[states[turn] as int];
        if output.len() + states.len() >= output_len {
            lemma_symbols_len(table, unread, states, output_len, output.push(symbol));
        } else {
            let (value, rest) = reverse_read(unread, bits as nat)->Ok_0;
            lemma_symbols_len(
                table,
                rest,
                states.update(turn, base as nat + value),
                output_len,
                output.push(symbol),
            );
        }
    }
}

/// An fse_v2 node that decodes gives exactly as many bytes as its header declares.
pub proof fn law_fse_v2_length_is_declared(
    inputs: Seq<StreamView>,
    header: Seq<u8>,
    limits: Limits,
)
    requires
        fse_v2_node(inputs, header, limits) is Ok,
    ensures
        fse_v2_header(header) is Ok,
        fse_v2_node(inputs, header, limits)->Ok_0.len() == fse_v2_header(header)->Ok_0.output_len,
        limits.admits(fse_v2_node(inputs, header, limits)->Ok_0.len() as int),
{
    let parsed = fse_v2_header(header)->Ok_0;
    let counts = stream_counts(inputs[0].bytes);
    let log = fse_accuracy_log(counts)->Ok_0;
    let table = fse_decode_table(counts, log)->Ok_0;
    let (states, rest) = fse_states_from(
        marked_bits(inputs[1].bytes),
        log as nat,
        parsed.nb_states as nat,
        Seq::empty(),
    )->Ok_0;
    lemma_symbols_len(table, rest, states, parsed.output_len as nat, Seq::empty());
}

} // verus!
