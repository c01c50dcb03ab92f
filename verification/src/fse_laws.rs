//! The states that an FSE bit stream runs through.

use vstd::prelude::*;

use crate::bytes::{le_value, lemma_byte_range_values};
use crate::error::ErrorView;
use crate::fse::{
    count_bits16, counts_bytes, fse_accuracy_log, fse_decode_table, fse_states_from, fse_symbols,
    fse_symbols_from, fse_v2_header, fse_v2_node, signed16, stream_counts, trim_zeros, FseV2Header,
};
use crate::limits::Limits;
use crate::reverse_bits::{be_bits, marked_bits, reverse_read};
use crate::stream::{element, law_packed_element, lemma_packed_len, packed, StreamView};

verus! {

/// Where the bits start that lead on from the state at `index`: behind the `turns` starting
/// states of `log` bits and the bits of all states in front.
pub open spec fn state_bits_at(
    table: Seq<(u16, u8, u8)>,
    log: nat,
    turns: nat,
    states: Seq<nat>,
    index: nat,
) -> nat
    decreases index,
{
    if index == 0 {
        turns * log
    } else {
        state_bits_at(table, log, turns, states, (index - 1) as nat) + table[states[index
            - 1] as int].1 as nat
    }
}

/// Whether the state `turns` places on is the base of the state at `index` and the bits
/// that follow.
pub open spec fn state_leads_on(
    table: Seq<(u16, u8, u8)>,
    log: nat,
    turns: nat,
    bits: Seq<bool>,
    states: Seq<nat>,
    index: int,
) -> bool {
    let start = state_bits_at(table, log, turns, states, index as nat);
    let end = state_bits_at(table, log, turns, states, index as nat + 1);
    &&& end <= bits.len()
    &&& states[index + turns] == table[states[index] as int].0 as nat + be_bits(
        bits.subrange(start as int, end as int),
    )
}

/// Whether a state is the one of `log` bits that stands in front for its turn.
pub open spec fn state_starts(log: nat, bits: Seq<bool>, states: Seq<nat>, turn: int) -> bool {
    &&& (turn + 1) * log <= bits.len()
    &&& states[turn] == be_bits(bits.subrange(turn * log, (turn + 1) * log))
}

/// Whether some states are those that a bit stream runs through, `turns` of them in turn: the
/// first of each turn stand in front, and each state but the last of each turn leads on to the
/// next; nothing else stands in the stream.
pub open spec fn states_run(
    table: Seq<(u16, u8, u8)>,
    log: nat,
    turns: nat,
    bits: Seq<bool>,
    states: Seq<nat>,
) -> bool {
    &&& states.len() >= turns
    &&& forall|i: int| 0 <= i < states.len() ==> #[trigger] states[i] < table.len()
    &&& forall|j: int| 0 <= j < turns ==> #[trigger] state_starts(log, bits, states, j)
    &&& forall|i: int|
        0 <= i < states.len() - turns ==> #[trigger] state_leads_on(
            table,
            log,
            turns,
            bits,
            states,
            i,
        )
    &&& state_bits_at(table, log, turns, states, (states.len() - turns) as nat) == bits.len()
}

/// The symbols of some states.
pub open spec fn state_symbols(table: Seq<(u16, u8, u8)>, states: Seq<nat>) -> Seq<u8> {
    Seq::new(states.len(), |i: int| table[states[i] as int].2)
}

proof fn lemma_first_states(bits: Seq<bool>, log: nat, count: nat, states: Seq<nat>)
    requires
        states.len() <= count,
        states.len() * log <= bits.len(),
    ensures
        ({
            let result = fse_states_from(
                bits.skip((states.len() * log) as int),
                log,
                count,
                states,
            );
            &&& result is Ok <==> count * log <= bits.len()
            &&& result is Ok ==> {
                let (all, rest) = result->Ok_0;
                &&& all.len() == count
                &&& rest == bits.skip((count * log) as int)
                &&& forall|j: int| 0 <= j < states.len() ==> #[trigger] all[j] == states[j]
                &&& forall|j: int|
                    states.len() <= j < count ==> #[trigger] state_starts(log, bits, all, j)
            }
        }),
    decreases count - states.len(),
{
    let done = states.len();
    let start = done * log;
    let unread = bits.skip(start as int);
    if done < count {
        let next = (done + 1) * log;
        assert(next == start + log) by (nonlinear_arith)
            requires
                next == (done + 1) * log,
                start == done * log,
        ;
        assert(next <= count * log) by (nonlinear_arith)
            requires
                next == (done + 1) * log,
                done + 1 <= count,
        ;
        if log <= unread.len() {
            let state = be_bits(unread.take(log as int));
            assert(unread.take(log as int) =~= bits.subrange(start as int, next as int));
            assert(unread.skip(log as int) =~= bits.skip(next as int));
            let more = states.push(state);
            assert(reverse_read(unread, log) is Ok);
            lemma_first_states(bits, log, count, more);
            let result = fse_states_from(unread, log, count, states);
            assert(more.len() * log == next);
            assert(result == fse_states_from(bits.skip(next as int), log, count, more));
            if result is Ok {
                let all = result->Ok_0.0;
                assert(all[done as int] == more[done as int]);
                assert(state_starts(log, bits, all, done as int));
                assert forall|j: int| 0 <= j < done implies #[trigger] all[j] == states[j] by {
                    assert(all[j] == more[j]);
                }
            }
        } else {
            assert(reverse_read(unread, log) is Err);
        }
    }
}

proof fn lemma_turn_place(done: nat, turns: nat, t: int)
    requires
        turns > 0,
        0 <= t < turns,
    ensures
        ({
            let place = done + (t - done) % turns as int;
            &&& done <= place < done + turns
            &&& place % turns as int == t
            &&& t == done as int % turns as int ==> place == done
            &&& t != done as int % turns as int ==> place == done + 1 + (t - (done + 1))
                % turns as int
        }),
{
    let m = turns as int;
    let d = done as int;
    let gap = (t - d) % m;
    vstd::arithmetic::div_mod::lemma_mod_bound(t - d, m);
    vstd::arithmetic::div_mod::lemma_add_mod_noop_right(d, t - d, m);
    assert((d + gap) % m == t % m);
    vstd::arithmetic::div_mod::lemma_small_mod(t as nat, turns);
    if t == d % m {
        vstd::arithmetic::div_mod::lemma_sub_mod_noop_right(t, d, m);
        vstd::arithmetic::div_mod::lemma_sub_mod_noop_right(t, t, m);
        assert((t - d % m) % m == (t - d) % m);
        assert((t - t) % m == 0) by {
            vstd::arithmetic::div_mod::lemma_small_mod(0, turns);
        }
        assert(gap == 0);
    } else {
        if gap == 0 {
            assert(d % m == t);
        }
        let less = gap - 1;
        assert((t - (d + 1)) % m == less) by {
            vstd::arithmetic::div_mod::lemma_sub_mod_noop(t - d, 1, m);
            vstd::arithmetic::div_mod::lemma_sub_mod_noop(gap, 1, m);
            vstd::arithmetic::div_mod::lemma_mod_twice(t - d, m);
            vstd::arithmetic::div_mod::lemma_small_mod(less as nat, turns);
            assert((t - d - 1) % m == (gap - 1) % m);
        }
    }
}

proof fn lemma_runs(
    table: Seq<(u16, u8, u8)>,
    log: nat,
    turns: nat,
    bits: Seq<bool>,
    count: nat,
    states: Seq<nat>,
    output: Seq<u8>,
) -> (more: Seq<nat>)
    requires
        turns > 0,
        count >= turns,
        output.len() <= count,
        states.len() == (if output.len() + turns <= count {
            output.len() + turns
        } else {
            count
        }),
        forall|i: int|
            0 <= i < states.len() - turns ==> #[trigger] state_leads_on(
                table,
                log,
                turns,
                bits,
                states,
                i,
            ),
        state_bits_at(table, log, turns, states, (states.len() - turns) as nat) <= bits.len(),
        forall|i: int| 0 <= i < output.len() ==> #[trigger] states[i] < table.len(),
        fse_symbols_from(
            table,
            bits.skip(
                state_bits_at(table, log, turns, states, (states.len() - turns) as nat) as int,
            ),
            turning_of(states, turns, output.len()),
            count,
            output,
        ) is Ok,
    ensures
        ({
            let (symbols, rest) = fse_symbols_from(
                table,
                bits.skip(
                    state_bits_at(
                        table,
                        log,
                        turns,
                        states,
                        (states.len() - turns) as nat,
                    ) as int,
                ),
                turning_of(states, turns, output.len()),
                count,
                output,
            )->Ok_0;
            let end = state_bits_at(table, log, turns, more, (count - turns) as nat);
            &&& more.len() == count
            &&& forall|i: int| 0 <= i < states.len() ==> #[trigger] more[i] == states[i]
            &&& forall|i: int| 0 <= i < count ==> #[trigger] more[i] < table.len()
            &&& forall|i: int|
                0 <= i < count - turns ==> #[trigger] state_leads_on(
                    table,
                    log,
                    turns,
                    bits,
                    more,
                    i,
                )
            &&& end <= bits.len()
            &&& rest == bits.skip(end as int)
            &&& symbols.len() == count
            &&& forall|i: int| 0 <= i < output.len() ==> #[trigger] symbols[i] == output[i]
            &&& forall|i: int|
                output.len() <= i < count ==> #[trigger] symbols[i] == table[more[i] as int].2
        }),
    decreases count - output.len(),
{
    let done = output.len();
    let current = turning_of(states, turns, done);
    let turn = done as int % turns as int;
    let start = state_bits_at(table, log, turns, states, (states.len() - turns) as nat);
    let unread = bits.skip(start as int);
    vstd::arithmetic::div_mod::lemma_mod_bound(done as int, turns as int);
    if done >= count {
        states
    } else {
        lemma_turn_place(done, turns, turn);
        assert(current[turn] == states[done as int]);
        let state = states[done as int];
        let (base, size, symbol) = table[state as int];
        let longer = output.push(symbol);
        if done + turns >= count {
            assert(turning_of(states, turns, done + 1) =~= current) by {
                lemma_turning_same(states, turns, done, count);
            }
            let more = lemma_runs(table, log, turns, bits, count, states, longer);
            let (symbols, rest) = fse_symbols_from(table, unread, current, count, output)->Ok_0;
            assert(symbols[done as int] == longer[done as int]);
            assert forall|i: int| 0 <= i < done implies #[trigger] symbols[i] == output[i] by {
                assert(symbols[i] == longer[i]);
            }
            assert(more[done as int] == states[done as int]);
            more
        } else {
            let value = be_bits(unread.take(size as int));
            let next = base as nat + value;
            let run = states.push(next);
            lemma_bits_prefix(table, log, turns, states, run, done);
            assert(unread.take(size as int) =~= bits.subrange(
                start as int,
                (start + size) as int,
            ));
            assert(unread.skip(size as int) =~= bits.skip((start + size) as int));
            assert(run[done as int] == state);
            assert(state_bits_at(table, log, turns, run, done + 1) == start + size);
            assert forall|i: int| 0 <= i < run.len() - turns implies #[trigger] state_leads_on(
                table,
                log,
                turns,
                bits,
                run,
                i,
            ) by {
                if i < done {
                    assert(state_leads_on(table, log, turns, bits, states, i));
                    lemma_bits_prefix(table, log, turns, states, run, i as nat);
                    lemma_bits_prefix(table, log, turns, states, run, i as nat + 1);
                }
            }
            assert(turning_of(run, turns, done + 1) =~= current.update(turn, next)) by {
                lemma_turning_next(states, turns, done, next);
            }
            let more = lemma_runs(table, log, turns, bits, count, run, longer);
            let (symbols, rest) = fse_symbols_from(table, unread, current, count, output)->Ok_0;
            assert(symbols[done as int] == longer[done as int]);
            assert forall|i: int| 0 <= i < done implies #[trigger] symbols[i] == output[i] by {
                assert(symbols[i] == longer[i]);
            }
            assert(more[done as int] == run[done as int]);
            assert forall|i: int| 0 <= i < states.len() implies #[trigger] more[i]
                == states[i] by {
                assert(more[i] == run[i]);
            }
            more
        }
    }
}

/// The states in turn after `done` symbols.
spec fn turning_of(states: Seq<nat>, turns: nat, done: nat) -> Seq<nat> {
    Seq::new(turns, |t: int| turning_state(states, turns, done, t))
}

/// The state of one turn after `done` symbols: the next that the turn uses, or the last that
/// it has.
spec fn turning_state(states: Seq<nat>, turns: nat, done: nat, t: int) -> nat {
    let place = done + (t - done) % turns as int;
    if place < states.len() {
        states[place]
    } else {
        states[place - turns]
    }
}

proof fn lemma_turning_same(states: Seq<nat>, turns: nat, done: nat, count: nat)
    requires
        turns > 0,
        turns <= count,
        done < count,
        states.len() == count,
        done + turns >= count,
    ensures
        turning_of(states, turns, done + 1) == turning_of(states, turns, done),
{
    let m = turns as int;
    assert forall|t: int| 0 <= t < turns implies turning_state(states, turns, done + 1, t)
        == turning_state(states, turns, done, t) by {
        lemma_turn_place(done, turns, t);
        lemma_turn_place(done + 1, turns, t);
        if t == done as int % m {
            let place = done + 1 + (t - (done + 1)) % m;
            lemma_turn_last(done, turns, t);
            assert(place == done + turns);
        }
    }
    assert(turning_of(states, turns, done + 1) =~= turning_of(states, turns, done));
}

proof fn lemma_turn_last(done: nat, turns: nat, t: int)
    requires
        turns > 0,
        0 <= t < turns,
        t == done as int % turns as int,
    ensures
        done + 1 + (t - (done + 1)) % turns as int == done + turns,
{
    let m = turns as int;
    let d = done as int;
    vstd::arithmetic::div_mod::lemma_sub_mod_noop_right(t - 1, d, m);
    assert((t - 1 - d) % m == (t - 1 - t) % m);
    assert((-1int) % m == m - 1) by {
        vstd::arithmetic::div_mod::lemma_fundamental_div_mod_converse(-1, m, -1, m - 1);
    }
    assert(t - (d + 1) == t - 1 - d);
}

proof fn lemma_turning_next(states: Seq<nat>, turns: nat, done: nat, next: nat)
    requires
        turns > 0,
        states.len() == done + turns,
    ensures
        turning_of(states.push(next), turns, done + 1) == turning_of(states, turns, done).update(
            done as int % turns as int,
            next,
        ),
{
    let m = turns as int;
    let run = states.push(next);
    let turn = done as int % m;
    vstd::arithmetic::div_mod::lemma_mod_bound(done as int, m);
    let after = turning_of(run, turns, done + 1);
    let before = turning_of(states, turns, done);
    assert forall|t: int| 0 <= t < turns implies after[t] == before.update(turn, next)[t] by {
        lemma_turn_place(done, turns, t);
        lemma_turn_place(done + 1, turns, t);
        if t == turn {
            lemma_turn_last(done, turns, t);
        }
    }
    assert(after =~= before.update(turn, next));
}

proof fn lemma_bits_prefix(
    table: Seq<(u16, u8, u8)>,
    log: nat,
    turns: nat,
    states: Seq<nat>,
    longer: Seq<nat>,
    index: nat,
)
    requires
        index <= states.len() <= longer.len(),
        forall|i: int| 0 <= i < states.len() ==> longer[i] == #[trigger] states[i],
    ensures
        state_bits_at(table, log, turns, states, index) == state_bits_at(
            table,
            log,
            turns,
            longer,
            index,
        ),
    decreases index,
{
    if index > 0 {
        lemma_bits_prefix(table, log, turns, states, longer, (index - 1) as nat);
        assert(longer[index - 1] == states[index - 1]);
    }
}

/// The symbols of an FSE bit stream that decodes are those of the states that it runs
/// through.
pub proof fn law_fse_symbols_are_of_its_states(
    bits: Seq<u8>,
    header: FseV2Header,
    table: Seq<(u16, u8, u8)>,
    log: nat,
) -> (states: Seq<nat>)
    requires
        0 < header.nb_states <= header.output_len,
        fse_symbols(bits, header, table, log) is Ok,
    ensures
        states.len() == header.output_len,
        fse_symbols(bits, header, table, log)->Ok_0 == state_symbols(table, states),
        states_run(table, log, header.nb_states as nat, marked_bits(bits), states),
{
    let unread = marked_bits(bits);
    let turns = header.nb_states as nat;
    let count = header.output_len as nat;
    let none = Seq::<nat>::empty();
    assert(0 * log == 0);
    assert(unread.skip(0) =~= unread);
    lemma_first_states(unread, log, turns, none);
    let (first, rest) = fse_states_from(unread, log, turns, none)->Ok_0;
    assert(turning_of(first, turns, 0) =~= first) by {
        assert forall|t: int| 0 <= t < turns implies turning_state(first, turns, 0, t)
            == first[t] by {
            vstd::arithmetic::div_mod::lemma_small_mod(t as nat, turns);
        }
    }
    let states = lemma_runs(table, log, turns, unread, count, first, Seq::empty());
    let symbols = fse_symbols(bits, header, table, log)->Ok_0;
    assert forall|j: int| 0 <= j < turns implies #[trigger] state_starts(
        log,
        unread,
        states,
        j,
    ) by {
        assert(state_starts(log, unread, first, j));
        assert(states[j] == first[j]);
    }
    let end = state_bits_at(table, log, turns, states, (count - turns) as nat);
    assert(unread.skip(end as int).len() == unread.len() - end);
    assert forall|i: int| 0 <= i < count implies symbols[i] == state_symbols(table, states)[i] by {
        assert(symbols[i] == table[states[i] as int].2);
    }
    assert(symbols =~= state_symbols(table, states));
    states
}

/// How many states are known after `done` symbols of `count`.
spec fn known_states(turns: nat, count: nat, done: nat) -> nat {
    if done + turns <= count {
        done + turns
    } else {
        count
    }
}

proof fn lemma_runs_back(
    table: Seq<(u16, u8, u8)>,
    log: nat,
    turns: nat,
    bits: Seq<bool>,
    states: Seq<nat>,
    done: nat,
)
    requires
        turns > 0,
        states_run(table, log, turns, bits, states),
        done <= states.len(),
    ensures
        ({
            let count = states.len();
            let known = known_states(turns, count, done);
            fse_symbols_from(
                table,
                bits.skip(state_bits_at(table, log, turns, states, (known - turns) as nat) as int),
                turning_of(states.take(known as int), turns, done),
                count,
                state_symbols(table, states).take(done as int),
            ) == Ok::<(Seq<u8>, Seq<bool>), ErrorView>(
                (state_symbols(table, states), Seq::empty()),
            )
        }),
    decreases states.len() - done,
{
    let count = states.len();
    let symbols = state_symbols(table, states);
    let known = known_states(turns, count, done);
    let front = states.take(known as int);
    let start = state_bits_at(table, log, turns, states, (known - turns) as nat);
    let unread = bits.skip(start as int);
    let current = turning_of(front, turns, done);
    let output = symbols.take(done as int);
    let turn = done as int % turns as int;
    vstd::arithmetic::div_mod::lemma_mod_bound(done as int, turns as int);
    if done >= count {
        assert(output =~= symbols);
        assert(unread =~= Seq::<bool>::empty());
    } else {
        lemma_turn_place(done, turns, turn);
        assert(current[turn] == states[done as int]);
        let (base, size, symbol) = table[states[done as int] as int];
        assert(states[done as int] < table.len());
        assert(output.push(symbol) =~= symbols.take(done as int + 1));
        lemma_runs_back(table, log, turns, bits, states, done + 1);
        if done + turns >= count {
            lemma_turning_same(front, turns, done, count);
        } else {
            assert(state_leads_on(table, log, turns, bits, states, done as int));
            let end = state_bits_at(table, log, turns, states, done + 1);
            assert(end == start + size);
            assert(unread.take(size as int) =~= bits.subrange(start as int, end as int));
            assert(unread.skip(size as int) =~= bits.skip(end as int));
            let next = states[(done + turns) as int];
            assert(next == base as nat + be_bits(unread.take(size as int)));
            lemma_turning_next(front, turns, done, next);
            assert(front.push(next) =~= states.take((done + 1 + turns) as int));
        }
    }
}

/// The symbols of states that were written as an FSE bit stream come back.
pub proof fn law_fse_states_come_back(
    bits: Seq<u8>,
    header: FseV2Header,
    table: Seq<(u16, u8, u8)>,
    log: nat,
    states: Seq<nat>,
)
    requires
        0 < header.nb_states <= header.output_len,
        states.len() == header.output_len,
        8 * bits.len() <= usize::MAX,
        bits.len() > 0,
        bits.last() != 0,
        states_run(table, log, header.nb_states as nat, marked_bits(bits), states),
    ensures
        fse_symbols(bits, header, table, log) == Ok::<Seq<u8>, ErrorView>(
            state_symbols(table, states),
        ),
{
    let unread = marked_bits(bits);
    let turns = header.nb_states as nat;
    let none = Seq::<nat>::empty();
    assert(0 * log == 0);
    assert(unread.skip(0) =~= unread);
    lemma_first_states(unread, log, turns, none);
    assert(state_starts(log, unread, states, turns - 1));
    assert((turns - 1 + 1) * log == turns * log);
    let (first, rest) = fse_states_from(unread, log, turns, none)->Ok_0;
    assert forall|t: int| 0 <= t < turns implies #[trigger] first[t] == states[t] by {
        assert(state_starts(log, unread, first, t));
        assert(state_starts(log, unread, states, t));
    }
    assert(first =~= states.take(turns as int));
    assert(turning_of(first, turns, 0) =~= first) by {
        assert forall|t: int| 0 <= t < turns implies turning_state(first, turns, 0, t)
            == first[t] by {
            vstd::arithmetic::div_mod::lemma_small_mod(t as nat, turns);
        }
    }
    lemma_runs_back(table, log, turns, unread, states, 0);
    assert(state_symbols(table, states).take(0) =~= Seq::<u8>::empty());
}

/// An fse_v2 node that decodes gives the symbols of the states that its bits run through, by
/// the table of its counts: 16 bits each, in two's complement. The header has the number of
/// states that take turns, and behind it the number of symbols.
pub proof fn law_fse_v2_output_is_of_its_states(
    inputs: Seq<StreamView>,
    header: Seq<u8>,
    limits: Limits,
    counts: Seq<i16>,
) -> (states: Seq<nat>)
    requires
        fse_v2_node(inputs, header, limits) is Ok,
        counts.len() == inputs[0].bytes.len() / 2,
        forall|i: int|
            0 <= i < counts.len() ==> element(inputs[0].bytes, 2, i) as int
                == (#[trigger] counts[i]) as int % 0x1_0000,
    ensures
        ({
            let log = fse_accuracy_log(counts)->Ok_0;
            let table = fse_decode_table(counts, log)->Ok_0;
            let output = fse_v2_node(inputs, header, limits)->Ok_0;
            &&& fse_accuracy_log(counts) is Ok
            &&& fse_decode_table(counts, log) is Ok
            &&& header[0] == 2 || header[0] == 4
            &&& output.len() == le_value(header.skip(1))
            &&& output == state_symbols(table, states)
            &&& states_run(
                table,
                log as nat,
                header[0] as nat,
                marked_bits(inputs[1].bytes),
                states,
            )
        }),
{
    assert(stream_counts(inputs[0].bytes) =~= counts) by {
        assert forall|i: int| 0 <= i < counts.len() implies signed16(
            element(inputs[0].bytes, 2, i),
        ) == counts[i] by {
            assert(element(inputs[0].bytes, 2, i) as int == counts[i] as int % 0x1_0000);
        }
    }
    let log = fse_accuracy_log(counts)->Ok_0;
    let table = fse_decode_table(counts, log)->Ok_0;
    let parsed = fse_v2_header(header)->Ok_0;
    assert(header.skip(1) =~= header.subrange(1, header.len() as int));
    law_fse_symbols_are_of_its_states(inputs[1].bytes, parsed, table, log as nat)
}

/// Counts that were laid out two bytes each read back, negative ones too.
pub proof fn law_counts_read_back(counts: Seq<i16>)
    ensures
        stream_counts(counts_bytes(counts)) == counts,
{
    let values = Seq::new(counts.len(), |i: int| count_bits16(counts[i]));
    lemma_packed_len(values, 2);
    lemma_byte_range_values();
    assert forall|i: int| 0 <= i < counts.len() implies signed16(
        element(packed(values, 2), 2, i),
    ) == counts[i] by {
        law_packed_element(values, 2, i);
    }
    assert(stream_counts(counts_bytes(counts)) =~= counts);
}

/// Counts without the zeros at their end: nothing but zeros is left out, and the last that
/// stays is not zero.
pub proof fn law_only_trailing_zeros_are_trimmed(counts: Seq<i16>)
    ensures
        trim_zeros(counts).len() <= counts.len(),
        trim_zeros(counts) == counts.take(trim_zeros(counts).len() as int),
        forall|i: int| trim_zeros(counts).len() <= i < counts.len() ==> #[trigger] counts[i] == 0,
        trim_zeros(counts).len() > 0 ==> trim_zeros(counts).last() != 0,
    decreases counts.len(),
{
    if counts.len() > 0 && counts.last() == 0 {
        let front = counts.drop_last();
        law_only_trailing_zeros_are_trimmed(front);
        let kept = trim_zeros(counts).len();
        assert(front.take(kept as int) =~= counts.take(kept as int));
        assert forall|i: int| kept <= i < counts.len() implies #[trigger] counts[i] == 0 by {
            if i < front.len() {
                assert(front[i] == counts[i]);
            }
        }
    } else {
        assert(counts.take(counts.len() as int) =~= counts);
    }
}

} // verus!
