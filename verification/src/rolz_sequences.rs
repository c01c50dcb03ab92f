//! The lists of lengths and codes of the deprecated reduced offset LZ transform. A
//! list is spread over six states, which the match types walk through.

use vstd::prelude::*;
use vstd::slice::slice_subrange;
use zrip_core::bitstream::reader_reverse::ReverseBitReader;

use crate::bits::{
    bit_range, lemma_bit_length_bound, lemma_bit_range_monotone, lemma_bit_range_values, power_of_two,
};
use crate::bytes::{append_bytes, le_value, lemma_byte_range_values, lemma_le_value_bound, read_le};
use crate::deprecated_lz::{
    decode_deprecated_lz_entropy_payload_to_vec, entropy_list, read_deprecated_lz_le_u32,
};
use crate::error::{detailed, fail, plain, Error, ErrorKind, ErrorView};
use crate::limits::Limits;
use crate::reverse_bits::{
    bits_left, lemma_be_bits_bound, marked_bits, open_reverse, read_reverse,
    reverse_open_error, reverse_read, unread_bits,
};
use crate::stream::join_text;

verus! {

pub const ROLZ_STATES: usize = 6;

pub const ROLZ_VALUE_CODES: usize = 59;

/// The state that a match type leads to.
pub open spec fn next_state(state: nat, match_type: u8) -> nat {
    if match_type == 0 {
        0
    } else if match_type == 1 {
        1
    } else if match_type == 3 {
        5
    } else if state == 0 || state == 5 {
        2
    } else if state == 1 {
        3
    } else {
        4
    }
}

/// Finds the state that a match type leads to.
fn rolz_deprecated_markov_next_state(state: usize, match_type: u8) -> (next: usize)
    ensures
        next as nat == next_state(state as nat, match_type),
        next < ROLZ_STATES,
{
    if match_type == 0 {
        0
    } else if match_type == 1 {
        1
    } else if match_type == 3 {
        5
    } else if state == 0 || state == 5 {
        2
    } else if state == 1 {
        3
    } else {
        4
    }
}

/// How many bits follow a code.
pub open spec fn value_bits(code: nat) -> nat {
    if code < 32 {
        0
    } else {
        (code - 27) as nat
    }
}

/// The least value of a code.
pub open spec fn value_base(code: nat) -> nat {
    if code < 32 {
        code
    } else {
        bit_range((code - 27) as nat)
    }
}

/// Where each state's part of a list ends.
pub open spec fn state_totals(source: Seq<u8>, offset: nat) -> Seq<usize> {
    Seq::new(
        ROLZ_STATES as nat,
        |state: int|
            le_value(source.subrange(offset + 4 * state, offset + 4 * state + 4)) as usize,
    )
}

/// No part ends before the one in front of it.
pub open spec fn totals_rise(totals: Seq<usize>) -> bool {
    totals[0] <= totals[1] <= totals[2] <= totals[3] <= totals[4] <= totals[5]
}

/// Where a state's part of a list begins.
pub open spec fn part_start(totals: Seq<usize>, state: int) -> nat {
    if state <= 0 {
        0
    } else {
        totals[state - 1] as nat
    }
}

/// Reads the parts from `state` on.
pub open spec fn codes_from(
    source: Seq<u8>,
    offset: nat,
    totals: Seq<usize>,
    state: nat,
    limits: Limits,
    name: Seq<char>,
    codes: Seq<u8>,
) -> Result<(Seq<u8>, nat), ErrorView>
    decreases ROLZ_STATES - state,
{
    if state >= ROLZ_STATES {
        Ok((codes, offset))
    } else {
        match entropy_list(
            source,
            offset,
            (totals[state as int] - part_start(totals, state as int)) as nat,
            limits,
            name,
        ) {
            Err(error) => Err(error),
            Ok((part, offset)) => codes_from(
                source,
                offset,
                totals,
                state + 1,
                limits,
                name,
                codes + part,
            ),
        }
    }
}

/// Decodes the values from `index` on.
pub open spec fn values_from(
    types: Seq<u8>,
    codes: Seq<u8>,
    totals: Seq<usize>,
    name: Seq<char>,
    index: nat,
    state: nat,
    positions: Seq<usize>,
    unread: Seq<bool>,
    values: Seq<usize>,
) -> Result<Seq<usize>, ErrorView>
    decreases types.len() - index,
{
    if index >= types.len() {
        if positions != totals {
            Err(detailed(ErrorKind::Malformed, name + " state totals are invalid"@))
        } else if unread.len() != 0 {
            Err(detailed(ErrorKind::Malformed, name + " bitstream has trailing bits"@))
        } else {
            Ok(values)
        }
    } else {
        let state = next_state(state, types[index as int]);
        let position = positions[state as int];
        let code = codes[position as int] as nat;
        if position >= totals[state as int] {
            Err(detailed(ErrorKind::Malformed, name + " state totals are invalid"@))
        } else if code >= ROLZ_VALUE_CODES {
            Err(detailed(ErrorKind::Malformed, name + " code is invalid"@))
        } else {
            match reverse_read(unread, value_bits(code)) {
                Err(error) => Err(
                    detailed(ErrorKind::Malformed, name + ": unexpected end of input"@),
                ),
                Ok((more, unread)) => values_from(
                    types,
                    codes,
                    totals,
                    name,
                    index + 1,
                    state,
                    positions.update(state as int, (position + 1) as usize),
                    unread,
                    values.push((value_base(code) + more) as usize),
                ),
            }
        }
    }
}

/// Where each state's part of a list begins.
pub open spec fn part_starts(totals: Seq<usize>) -> Seq<usize> {
    Seq::new(ROLZ_STATES as nat, |state: int| part_start(totals, state) as usize)
}

/// The list at `offset`, one value for each match type, and the offset behind it.
pub open spec fn sequence_values(
    source: Seq<u8>,
    offset: nat,
    types: Seq<u8>,
    limits: Limits,
    name: Seq<char>,
) -> Result<(Seq<usize>, nat), ErrorView> {
    let bit_size = le_value(source.subrange(offset as int, offset as int + 4));
    let totals = state_totals(source, offset + 4);
    let start = offset + 28;
    if types.len() == 0 {
        Ok((Seq::empty(), offset))
    } else if start > source.len() {
        Err(detailed(ErrorKind::Truncated, name + " is truncated"@))
    } else if !totals_rise(totals) {
        Err(detailed(ErrorKind::Malformed, name + " state totals are invalid"@))
    } else if totals[5] != types.len() {
        Err(detailed(ErrorKind::Malformed, name + " sequence count is invalid"@))
    } else if start + bit_size > usize::MAX {
        Err(plain(ErrorKind::IntegerOverflow))
    } else if start + bit_size > source.len() {
        Err(detailed(ErrorKind::Truncated, name + " is truncated"@))
    } else {
        let bits = source.subrange(start as int, (start + bit_size) as int);
        match codes_from(source, start + bit_size, totals, 0, limits, name, Seq::empty()) {
            Err(error) => Err(error),
            Ok((codes, end)) => match reverse_open_error(bits) {
                Some(text) => Err(detailed(ErrorKind::Malformed, text)),
                None => if bits.len() > usize::MAX / 8 {
                    Err(plain(ErrorKind::IntegerOverflow))
                } else {
                    match values_from(
                        types,
                        codes,
                        totals,
                        name,
                        0,
                        0,
                        part_starts(totals),
                        marked_bits(bits),
                        Seq::empty(),
                    ) {
                        Err(error) => Err(error),
                        Ok(values) => Ok((values, end)),
                    }
                },
            },
        }
    }
}

/// Checks where the parts of a list end.
fn validate_rolz_deprecated_seq_totals(totals: &[usize; 6], count: usize, name: &str) -> (result:
    Result<(), Error>)
    ensures
        match result {
            Ok(_) => totals_rise(totals@) && totals@[5] == count,
            Err(error) => error@ == (if !totals_rise(totals@) {
                detailed(ErrorKind::Malformed, name@ + " state totals are invalid"@)
            } else {
                detailed(ErrorKind::Malformed, name@ + " sequence count is invalid"@)
            }) && !(totals_rise(totals@) && totals@[5] == count),
        },
{
    if totals[0] > totals[1] || totals[1] > totals[2] || totals[2] > totals[3] || totals[3]
        > totals[4] || totals[4] > totals[5] {
        let text = join_text(name, " state totals are invalid");
        return Err(fail(ErrorKind::Malformed, text.as_str()));
    }
    if totals[5] != count {
        let text = join_text(name, " sequence count is invalid");
        return Err(fail(ErrorKind::Malformed, text.as_str()));
    }
    Ok(())
}

/// Checks that every part of a list was used up.
fn validate_rolz_deprecated_seq_positions(
    positions: &[usize; 6],
    totals: &[usize; 6],
    name: &str,
) -> (result: Result<(), Error>)
    ensures
        match result {
            Ok(_) => positions@ == totals@,
            Err(error) => positions@ != totals@ && error@ == detailed(
                ErrorKind::Malformed,
                name@ + " state totals are invalid"@,
            ),
        },
{
    let mut state: usize = 0;
    while state < ROLZ_STATES
        invariant
            state <= ROLZ_STATES,
            forall|i: int| 0 <= i < state ==> #[trigger] positions@[i] == totals@[i],
        decreases ROLZ_STATES - state,
    {
        if positions[state] != totals[state] {
            let text = join_text(name, " state totals are invalid");
            return Err(fail(ErrorKind::Malformed, text.as_str()));
        }
        state = state + 1;
    }
    proof {
        assert(positions@ =~= totals@);
    }
    Ok(())
}

/// Reads where each state's part of a list ends.
fn read_state_totals(source: &[u8], offset: usize) -> (totals: [usize; 6])
    requires
        offset + 24 <= source@.len(),
    ensures
        totals@ == state_totals(source@, offset as nat),
{
    let mut totals: [usize; 6] = [0; 6];
    let mut state: usize = 0;
    proof {
        assert(source@.len() == source.len());
    }
    while state < ROLZ_STATES
        invariant
            state <= ROLZ_STATES,
            offset + 24 <= source@.len() <= usize::MAX,
            forall|i: int|
                0 <= i < state ==> #[trigger] totals@[i] == state_totals(source@, offset as nat)[i],
        decreases ROLZ_STATES - state,
    {
        proof {
            lemma_le_value_bound(
                source@.subrange(offset + 4 * state, offset + 4 * state + 4),
            );
            lemma_byte_range_values();
        }
        let total: usize = read_le(source, offset + 4 * state, 4) as usize;
        totals[state] = total;
        state = state + 1;
    }
    proof {
        assert(totals@ =~= state_totals(source@, offset as nat));
    }
    totals
}

/// Reads all parts of a list.
fn read_codes(source: &[u8], offset: &mut usize, totals: &[usize; 6], limits: Limits, name: &str) -> (
result: Result<Vec<u8>, Error>)
    requires
        *old(offset) <= source@.len(),
        totals_rise(totals@),
    ensures
        *final(offset) <= source@.len(),
        match result {
            Ok(codes) => codes_from(
                source@,
                *old(offset) as nat,
                totals@,
                0,
                limits,
                name@,
                Seq::empty(),
            ) == Ok::<(Seq<u8>, nat), ErrorView>((codes@, *final(offset) as nat)) && codes@.len()
                == totals@[5],
            Err(error) => codes_from(
                source@,
                *old(offset) as nat,
                totals@,
                0,
                limits,
                name@,
                Seq::empty(),
            ) == Err::<(Seq<u8>, nat), ErrorView>(error@),
        },
{
    let mut codes: Vec<u8> = Vec::new();
    let ghost total = codes_from(
        source@,
        *offset as nat,
        totals@,
        0,
        limits,
        name@,
        Seq::empty(),
    );
    let mut state: usize = 0;
    proof {
        assert(codes@ =~= Seq::<u8>::empty());
    }
    while state < ROLZ_STATES
        invariant
            state <= ROLZ_STATES,
            *offset <= source@.len(),
            totals_rise(totals@),
            codes@.len() == part_start(totals@, state as int),
            total == codes_from(
                source@,
                *old(offset) as nat,
                totals@,
                0,
                limits,
                name@,
                Seq::empty(),
            ),
            total == codes_from(
                source@,
                *offset as nat,
                totals@,
                state as nat,
                limits,
                name@,
                codes@,
            ),
        decreases ROLZ_STATES - state,
    {
        let begin: usize = if state == 0 {
            0
        } else {
            totals[state - 1]
        };
        let part = decode_deprecated_lz_entropy_payload_to_vec(
            source,
            offset,
            totals[state] - begin,
            limits,
            name,
        )?;
        append_bytes(&mut codes, part.as_slice());
        state = state + 1;
    }
    Ok(codes)
}

/// Decodes one value for each match type.
fn decode_values(
    types: &[u8],
    codes: &[u8],
    totals: &[usize; 6],
    source: ReverseBitReader<'_>,
    name: &str,
) -> (result: Result<Vec<usize>, Error>)
    requires
        totals_rise(totals@),
        codes@.len() == totals@[5],
        unread_bits(source).len() <= usize::MAX,
    ensures
        match result {
            Ok(values) => values_from(
                types@,
                codes@,
                totals@,
                name@,
                0,
                0,
                part_starts(totals@),
                unread_bits(source),
                Seq::empty(),
            ) == Ok::<Seq<usize>, ErrorView>(values@) && values@.len() == types@.len(),
            Err(error) => values_from(
                types@,
                codes@,
                totals@,
                name@,
                0,
                0,
                part_starts(totals@),
                unread_bits(source),
                Seq::empty(),
            ) == Err::<Seq<usize>, ErrorView>(error@),
        },
{
    let ghost bits = unread_bits(source);
    let mut reader = source;
    let mut positions: [usize; 6] = [0, totals[0], totals[1], totals[2], totals[3], totals[4]];
    let mut values: Vec<usize> = Vec::new();
    let mut state: usize = 0;
    let mut index: usize = 0;
    let ghost total = values_from(
        types@,
        codes@,
        totals@,
        name@,
        0,
        0,
        part_starts(totals@),
        bits,
        Seq::empty(),
    );
    proof {
        assert(positions@ =~= part_starts(totals@));
        assert(values@ =~= Seq::<usize>::empty());
    }
    while index < types.len()
        invariant
            index <= types@.len(),
            values@.len() == index,
            positions@.len() == 6,
            totals_rise(totals@),
            codes@.len() == totals@[5],
            bits == unread_bits(source),
            unread_bits(reader).len() <= usize::MAX,
            total == values_from(
                types@,
                codes@,
                totals@,
                name@,
                0,
                0,
                part_starts(totals@),
                bits,
                Seq::empty(),
            ),
            total == values_from(
                types@,
                codes@,
                totals@,
                name@,
                index as nat,
                state as nat,
                positions@,
                unread_bits(reader),
                values@,
            ),
        decreases types@.len() - index,
    {
        state = rolz_deprecated_markov_next_state(state, types[index]);
        let position: usize = positions[state];
        if position >= totals[state] {
            let text = join_text(name, " state totals are invalid");
            return Err(fail(ErrorKind::Malformed, text.as_str()));
        }
        proof {
            assert(totals@[state as int] <= totals@[5]);
        }
        let code: usize = codes[position] as usize;
        if code >= ROLZ_VALUE_CODES {
            let text = join_text(name, " code is invalid");
            return Err(fail(ErrorKind::Malformed, text.as_str()));
        }
        let (count, base): (usize, usize) = if code < 32 {
            (0, code)
        } else {
            proof {
                lemma_bit_range_values();
                lemma_bit_range_monotone((code - 27) as nat, 31);
            }
            (code - 27, power_of_two(code - 27) as usize)
        };
        let ghost before = unread_bits(reader);
        match read_reverse(&mut reader, count as u8) {
            Ok(more) => {
                proof {
                    lemma_be_bits_bound(before.take(count as int));
                    lemma_bit_range_values();
                    if code >= 32 {
                        lemma_bit_range_monotone(count as nat, 31);
                    }
                }
                positions[state] = position + 1;
                values.push(base + more as usize);
            },
            Err(_) => {
                let text = join_text(name, ": unexpected end of input");
                return Err(fail(ErrorKind::Malformed, text.as_str()));
            },
        }
        index = index + 1;
    }
    validate_rolz_deprecated_seq_positions(&positions, totals, name)?;
    if bits_left(&reader) != 0 {
        let text = join_text(name, " bitstream has trailing bits");
        return Err(fail(ErrorKind::Malformed, text.as_str()));
    }
    Ok(values)
}

/// Reads the list at `*offset`, one value for each match type.
pub(crate) fn decode_rolz_deprecated_seq_values(
    source: &[u8],
    offset: &mut usize,
    types: &[u8],
    limits: Limits,
    name: &str,
) -> (result: Result<Vec<usize>, Error>)
    requires
        *old(offset) <= source@.len(),
    ensures
        *final(offset) <= source@.len(),
        match result {
            Ok(values) => sequence_values(source@, *old(offset) as nat, types@, limits, name@)
                == Ok::<(Seq<usize>, nat), ErrorView>((values@, *final(offset) as nat))
                && values@.len() == types@.len(),
            Err(error) => sequence_values(source@, *old(offset) as nat, types@, limits, name@)
                == Err::<(Seq<usize>, nat), ErrorView>(error@),
        },
{
    if types.len() == 0 {
        return Ok(Vec::new());
    }
    let first: usize = *offset;
    if source.len() - first < 28 {
        let text = join_text(name, " is truncated");
        return Err(fail(ErrorKind::Truncated, text.as_str()));
    }
    let bit_size: usize = read_deprecated_lz_le_u32(source, first, name)?;
    let totals: [usize; 6] = read_state_totals(source, first + 4);
    validate_rolz_deprecated_seq_totals(&totals, types.len(), name)?;
    let start: usize = first + 28;
    let bit_end: usize = match start.checked_add(bit_size) {
        Some(bit_end) => bit_end,
        None => {
            return Err(Error::new(ErrorKind::IntegerOverflow));
        },
    };
    if bit_end > source.len() {
        let text = join_text(name, " is truncated");
        return Err(fail(ErrorKind::Truncated, text.as_str()));
    }
    let bits = slice_subrange(source, start, bit_end);
    *offset = bit_end;
    let codes = read_codes(source, offset, &totals, limits, name)?;
    let reader = open_reverse(bits)?;
    if bits.len() > usize::MAX / 8 {
        return Err(Error::new(ErrorKind::IntegerOverflow));
    }
    proof {
        lemma_bit_range_values();
        lemma_bit_length_bound(bits@.last() as nat, 8);
    }
    decode_values(types, codes.as_slice(), &totals, reader, name)
}

} // verus!
