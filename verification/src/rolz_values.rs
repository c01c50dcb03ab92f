//! What the codes and bits of a rolz_deprecated list stand for.

use vstd::prelude::*;

use crate::bits::{bit_range, lemma_bit_range_monotone, lemma_bit_range_values};
use crate::bytes::le_value;
use crate::limits::Limits;
use crate::partition_laws::{floor_log, lemma_floor_log};
use crate::reverse_bits::{be_bits, lemma_be_bits_bound, marked_bits, reverse_read};
use crate::rolz_sequences::{
    codes_from, next_state, part_start, part_starts, sequence_values, state_totals, value_base,
    value_bits, values_from,
};

verus! {

/// The state behind the first `count` match types: a match at a told distance leads to the
/// first state and one in a context to the second; a near one leads on from there to states
/// of its own; a last kind of match has the last state.
pub open spec fn state_behind(types: Seq<u8>, count: nat) -> nat
    decreases count,
{
    if count == 0 {
        0
    } else {
        let before = state_behind(types, (count - 1) as nat);
        match types[count - 1] {
            0 => 0,
            1 => 1,
            3 => 5,
            _ => if before == 1 {
                3
            } else if before == 0 || before == 5 {
                2
            } else {
                4
            },
        }
    }
}

/// The state of the sequence at `index`.
pub open spec fn state_of(types: Seq<u8>, index: int) -> nat {
    state_behind(types, index as nat + 1)
}

/// How many of the first `count` sequences have a state.
pub open spec fn in_state(types: Seq<u8>, state: nat, count: nat) -> nat
    decreases count,
{
    if count == 0 {
        0
    } else {
        in_state(types, state, (count - 1) as nat) + (if state_of(types, count - 1) == state {
            1nat
        } else {
            0nat
        })
    }
}

/// The code of a number: below 32 the number, else from 32 on the place of its highest set
/// bit.
pub open spec fn number_code(value: nat) -> nat {
    if value < 32 {
        value
    } else {
        floor_log(value) + 27
    }
}

/// How many bits stand beside the code of a number: those below the highest set one.
pub open spec fn number_bits(value: nat) -> nat {
    if value < 32 {
        0
    } else {
        floor_log(value)
    }
}

/// What these bits hold.
pub open spec fn number_rest(value: nat) -> nat {
    if value < 32 {
        0
    } else {
        (value - bit_range(floor_log(value))) as nat
    }
}

/// Where the bits of the number at `index` start.
pub open spec fn number_bits_at(values: Seq<usize>, index: nat) -> nat
    decreases index,
{
    if index == 0 {
        0
    } else {
        number_bits_at(values, (index - 1) as nat) + number_bits(values[index - 1] as nat)
    }
}

/// Whether the number at `index` is what its code and bits stand for: the next code of the
/// part of its state, and the next bits.
pub open spec fn number_told(
    types: Seq<u8>,
    codes: Seq<u8>,
    totals: Seq<usize>,
    bits: Seq<bool>,
    values: Seq<usize>,
    index: int,
) -> bool {
    let state = state_of(types, index);
    let start = if state == 0 {
        0
    } else {
        totals[state - 1] as int
    };
    let value = values[index] as nat;
    let place = start + in_state(types, state, index as nat);
    let first = number_bits_at(values, index as nat);
    let end = first + number_bits(value);
    &&& place < totals[state as int]
    &&& codes[place] == number_code(value)
    &&& end <= bits.len()
    &&& be_bits(bits.subrange(first as int, end as int)) == number_rest(value)
}

proof fn lemma_number(code: nat, rest: nat)
    requires
        code < 59,
        rest < bit_range(value_bits(code)),
    ensures
        ({
            let value = value_base(code) + rest;
            &&& value < 0x1_0000_0000
            &&& number_code(value) == code
            &&& number_bits(value) == value_bits(code)
            &&& number_rest(value) == rest
        }),
{
    lemma_bit_range_values();
    let bits = value_bits(code);
    lemma_bit_range_monotone(bits, 31);
    if code >= 32 {
        lemma_bit_range_monotone(5, bits);
        lemma_floor_log(value_base(code) + rest, bits);
    }
}

proof fn lemma_state(types: Seq<u8>, index: nat)
    requires
        index < types.len(),
        forall|i: int| 0 <= i < types.len() ==> #[trigger] types[i] <= 3,
    ensures
        next_state(state_behind(types, index), types[index as int]) == state_behind(
            types,
            index + 1,
        ),
        state_behind(types, index + 1) < 6,
{
    assert(types[index as int] <= 3);
}

proof fn lemma_bits_prefix(values: Seq<usize>, longer: Seq<usize>, index: nat)
    requires
        index <= values.len() <= longer.len(),
        forall|i: int| 0 <= i < values.len() ==> longer[i] == #[trigger] values[i],
    ensures
        number_bits_at(values, index) == number_bits_at(longer, index),
    decreases index,
{
    if index > 0 {
        lemma_bits_prefix(values, longer, (index - 1) as nat);
        assert(longer[index - 1] == values[index - 1]);
    }
}

/// Where each part is used up to behind the first `count` sequences.
spec fn used_up(types: Seq<u8>, totals: Seq<usize>, count: nat, positions: Seq<usize>) -> bool {
    &&& positions.len() == 6
    &&& forall|s: int|
        0 <= s < 6 ==> #[trigger] positions[s] == part_start(totals, s) + in_state(
            types,
            s as nat,
            count,
        )
}

proof fn lemma_values(
    types: Seq<u8>,
    codes: Seq<u8>,
    totals: Seq<usize>,
    name: Seq<char>,
    bits: Seq<bool>,
    positions: Seq<usize>,
    values: Seq<usize>,
)
    requires
        totals.len() == 6,
        values.len() <= types.len(),
        forall|i: int| 0 <= i < types.len() ==> #[trigger] types[i] <= 3,
        used_up(types, totals, values.len(), positions),
        number_bits_at(values, values.len()) <= bits.len(),
        forall|i: int|
            0 <= i < values.len() ==> #[trigger] number_told(
                types,
                codes,
                totals,
                bits,
                values,
                i,
            ),
        values_from(
            types,
            codes,
            totals,
            name,
            values.len(),
            state_behind(types, values.len()),
            positions,
            bits.skip(number_bits_at(values, values.len()) as int),
            values,
        ) is Ok,
    ensures
        ({
            let all = values_from(
                types,
                codes,
                totals,
                name,
                values.len(),
                state_behind(types, values.len()),
                positions,
                bits.skip(number_bits_at(values, values.len()) as int),
                values,
            )->Ok_0;
            &&& all.len() == types.len()
            &&& number_bits_at(all, all.len()) == bits.len()
            &&& forall|i: int|
                0 <= i < all.len() ==> #[trigger] number_told(
                    types,
                    codes,
                    totals,
                    bits,
                    all,
                    i,
                )
            &&& forall|s: int|
                0 <= s < 6 ==> part_start(totals, s) + in_state(types, s as nat, types.len())
                    == #[trigger] totals[s]
        }),
    decreases types.len() - values.len(),
{
    let index = values.len();
    let first = number_bits_at(values, index);
    let unread = bits.skip(first as int);
    if index >= types.len() {
        assert(unread.len() == bits.len() - first);
        assert forall|s: int| 0 <= s < 6 implies part_start(totals, s) + in_state(
            types,
            s as nat,
            types.len(),
        ) == #[trigger] totals[s] by {
            assert(positions[s] == totals[s]);
        }
    } else {
        lemma_state(types, index);
        let state = state_behind(types, index + 1);
        let position = positions[state as int];
        let code = codes[position as int] as nat;
        let size = value_bits(code);
        let part = unread.take(size as int);
        let rest = be_bits(part);
        lemma_be_bits_bound(part);
        assert(reverse_read(unread, size) is Ok);
        lemma_number(code, rest);
        let value = value_base(code) + rest;
        let end = first + size;
        assert(part =~= bits.subrange(first as int, end as int));
        assert(unread.skip(size as int) =~= bits.skip(end as int));
        let more = values.push(value as usize);
        lemma_bits_prefix(values, more, index);
        assert(more[index as int] as nat == value);
        assert(number_bits_at(more, index + 1) == end);
        let after = positions.update(state as int, (position + 1) as usize);
        assert forall|s: int| 0 <= s < 6 implies #[trigger] after[s] == part_start(totals, s)
            + in_state(types, s as nat, index + 1) by {
            assert(positions[s] == part_start(totals, s) + in_state(types, s as nat, index));
        }
        assert forall|i: int| 0 <= i < more.len() implies #[trigger] number_told(
            types,
            codes,
            totals,
            bits,
            more,
            i,
        ) by {
            lemma_bits_prefix(values, more, i as nat);
            if i < index {
                assert(number_told(types, codes, totals, bits, values, i));
            } else {
                assert(positions[state as int] == part_start(totals, state as int) + in_state(
                    types,
                    state,
                    index,
                ));
            }
        }
        lemma_values(types, codes, totals, name, bits, after, more);
    }
}

/// A list of a rolz_deprecated node that decodes holds its numbers: behind the size of its
/// bits stands where the part of each state ends; each number has the next code of the part of
/// its state and the next bits, from the top of the stream down; and codes and bits are used
/// up.
pub proof fn law_rolz_numbers_have_their_codes(
    source: Seq<u8>,
    offset: nat,
    types: Seq<u8>,
    limits: Limits,
    name: Seq<char>,
) -> (codes: Seq<u8>)
    requires
        types.len() > 0,
        forall|i: int| 0 <= i < types.len() ==> #[trigger] types[i] <= 3,
        sequence_values(source, offset, types, limits, name) is Ok,
    ensures
        ({
            let values = sequence_values(source, offset, types, limits, name)->Ok_0.0;
            let size = le_value(source.subrange(offset as int, offset as int + 4));
            let totals = state_totals(source, offset + 4);
            let bits = marked_bits(
                source.subrange(offset as int + 28, offset as int + 28 + size as int),
            );
            &&& values.len() == types.len()
            &&& number_bits_at(values, values.len()) == bits.len()
            &&& totals[5] == types.len()
            &&& codes_from(
                source,
                offset + 28 + size,
                totals,
                0,
                limits,
                name,
                Seq::empty(),
            )->Ok_0.0 == codes
            &&& forall|i: int|
                0 <= i < values.len() ==> #[trigger] number_told(
                    types,
                    codes,
                    totals,
                    bits,
                    values,
                    i,
                )
        }),
{
    let size = le_value(source.subrange(offset as int, offset as int + 4));
    let totals = state_totals(source, offset + 4);
    let start = offset + 28;
    let bits = marked_bits(source.subrange(start as int, (start + size) as int));
    let codes =
        codes_from(source, start + size, totals, 0, limits, name, Seq::empty())->Ok_0.0;
    let positions = part_starts(totals);
    assert(bits.skip(0) =~= bits);
    assert forall|s: int| 0 <= s < 6 implies #[trigger] positions[s] == part_start(totals, s)
        + in_state(types, s as nat, 0) by {}
    lemma_values(types, codes, totals, name, bits, positions, Seq::empty());
    codes
}

} // verus!
