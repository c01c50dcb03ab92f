//! The code words that Huffman weights stand for, and what streams of them decode to.

use vstd::prelude::*;

use crate::bits::{bit_range, lemma_bit_range_monotone, lemma_bit_range_values};
use crate::bytes::{le_value, lemma_byte_range_values};
use crate::error::ErrorView;
use crate::huffman::{
    byte_symbols_from, cell_sum, four_streams_from, huffman_cells, huffman_four_streams,
    huffman_header, huffman_log, huffman_stream, huffman_struct_v2_node, huffman_table,
    huffman_v2_node, large_stream, large_symbols_from, lemma_positive_length,
    lemma_weights_below_log, next_cell, rank_cells, size_at, sized_stream,
};
use crate::limits::Limits;
use crate::reverse_bits::{be_bits, lemma_be_bits_bound, marked_bits};
use crate::stream::{
    element, law_packed_element, lemma_packed_len, packed, required_width_error, typed_stream,
    StreamView,
};

verus! {

/// The low `len` bits of an integer, most significant bit first.
pub open spec fn be_seq(value: nat, len: nat) -> Seq<bool>
    decreases len,
{
    if len == 0 {
        Seq::empty()
    } else {
        be_seq(value / 2, (len - 1) as nat).push(value % 2 == 1)
    }
}

/// How many of the `2^log` equal parts of the code space the first `count` symbols take
/// that stand in front of a symbol: those of a smaller weight, and those of its own weight
/// with a smaller number. A symbol of weight `w` takes `2^(w - 1)` parts.
pub open spec fn parts_in_front(weights: Seq<u8>, symbol: nat, count: nat) -> nat
    decreases count,
{
    if count == 0 {
        0
    } else {
        let other = (count - 1) as nat;
        let weight = weights[other as int];
        let own = weights[symbol as int];
        parts_in_front(weights, symbol, other) + (if weight > 0 && (weight < own || (weight == own
            && other < symbol)) {
            bit_range((weight - 1) as nat)
        } else {
            0
        })
    }
}

/// The code word of a symbol of weight `w`: `log + 1 - w` bits, which say where its parts
/// of the code space start.
pub open spec fn code_word(weights: Seq<u8>, log: nat, symbol: nat) -> Seq<bool> {
    let weight = weights[symbol as int] as nat;
    be_seq(
        parts_in_front(weights, symbol, weights.len()) / bit_range((weight - 1) as nat),
        (log + 1 - weight) as nat,
    )
}

/// The code words of some symbols, one after the other.
pub open spec fn code_words(weights: Seq<u8>, log: nat, symbols: Seq<nat>) -> Seq<bool>
    decreases symbols.len(),
{
    if symbols.len() == 0 {
        Seq::empty()
    } else {
        code_words(weights, log, symbols.drop_last()) + code_word(weights, log, symbols.last())
    }
}

/// Whether every one of some symbols has a code word.
pub open spec fn symbols_coded(weights: Seq<u8>, symbols: Seq<nat>) -> bool {
    forall|i: int|
        0 <= i < symbols.len() ==> (#[trigger] symbols[i]) < weights.len() && weights[symbols[i]
            as int] > 0
}

/// Weights that share the whole code space of `2^log` parts.
pub open spec fn weights_complete(weights: Seq<u8>, log: nat) -> bool {
    &&& cell_sum(weights, weights.len()) == bit_range(log)
    &&& weights.len() <= 65_536
    &&& log <= 255
    &&& forall|i: int| 0 <= i < weights.len() ==> (#[trigger] weights[i]) <= log
}

proof fn lemma_be_seq(value: nat, len: nat)
    ensures
        be_seq(value, len).len() == len,
        be_bits(be_seq(value, len)) == value % bit_range(len),
    decreases len,
{
    if len > 0 {
        let front = be_seq(value / 2, (len - 1) as nat);
        lemma_be_seq(value / 2, (len - 1) as nat);
        assert(be_seq(value, len).drop_last() =~= front);
        let half = bit_range((len - 1) as nat) as int;
        lemma_bit_range_monotone(0, (len - 1) as nat);
        lemma_bit_range_values();
        vstd::arithmetic::div_mod::lemma_mod_breakdown(value as int, 2, half);
    } else {
        lemma_bit_range_values();
    }
}

proof fn lemma_be_seq_back(bits: Seq<bool>)
    ensures
        be_seq(be_bits(bits), bits.len()) == bits,
    decreases bits.len(),
{
    if bits.len() > 0 {
        lemma_be_seq_back(bits.drop_last());
        assert(be_bits(bits) / 2 == be_bits(bits.drop_last()));
        assert(be_seq(be_bits(bits), bits.len()) =~= bits);
    } else {
        assert(be_seq(be_bits(bits), bits.len()) =~= bits);
    }
}

/// The first bits of some bits are what is left of their integer without the low ones.
proof fn lemma_be_take(bits: Seq<bool>, len: nat)
    requires
        len <= bits.len(),
    ensures
        be_bits(bits.take(len as int)) == be_bits(bits) / bit_range((bits.len() - len) as nat),
    decreases bits.len(),
{
    lemma_bit_range_values();
    if len == bits.len() {
        assert(bits.take(len as int) =~= bits);
    } else {
        let shorter = bits.drop_last();
        lemma_be_take(shorter, len);
        assert(shorter.take(len as int) =~= bits.take(len as int));
        assert(be_bits(bits) / 2 == be_bits(shorter));
        let rest = bit_range((shorter.len() - len) as nat);
        lemma_bit_range_monotone(0, (shorter.len() - len) as nat);
        vstd::arithmetic::div_mod::lemma_div_denominator(
            be_bits(bits) as int,
            2,
            rest as int,
        );
        assert(bit_range((bits.len() - len) as nat) == 2 * rest);
        assert(be_bits(bits) / (2 * rest) == be_bits(shorter) / rest);
    }
}

proof fn lemma_bit_range_add(left: nat, right: nat)
    ensures
        bit_range(left + right) == bit_range(left) * bit_range(right),
    decreases left,
{
    if left == 0 {
        assert(bit_range(0) == 1);
        assert(1 * bit_range(right) == bit_range(right));
    } else {
        lemma_bit_range_add((left - 1) as nat, right);
        assert(2 * (bit_range((left - 1) as nat) * bit_range(right)) == (2 * bit_range(
            (left - 1) as nat,
        )) * bit_range(right)) by (nonlinear_arith);
    }
}

/// The next cell begins with the next bits.
proof fn lemma_next_cell(unread: Seq<bool>, log: nat, len: nat)
    requires
        len <= log,
        len <= unread.len(),
    ensures
        next_cell(unread, log) < bit_range(log),
        next_cell(unread, log) / bit_range((log - len) as nat) == be_bits(
            unread.take(len as int),
        ),
{
    lemma_bit_range_monotone(0, (log - len) as nat);
    lemma_bit_range_values();
    if unread.len() >= log {
        let bits = unread.take(log as int);
        lemma_be_bits_bound(bits);
        lemma_be_take(bits, len);
        assert(bits.take(len as int) =~= unread.take(len as int));
    } else {
        let low = (log - unread.len()) as nat;
        let high = (unread.len() - len) as nat;
        let value = be_bits(unread);
        lemma_be_bits_bound(unread);
        lemma_be_take(unread, len);
        lemma_bit_range_add(high, low);
        lemma_bit_range_add(unread.len(), low);
        lemma_bit_range_monotone(0, low);
        lemma_bit_range_monotone(0, high);
        assert((log - len) as nat == high + low);
        assert(value * bit_range(low) < bit_range(unread.len()) * bit_range(low))
            by (nonlinear_arith)
            requires
                value < bit_range(unread.len()),
                bit_range(low) > 0,
        ;
        assert(bit_range(high) * bit_range(low) == bit_range(low) * bit_range(high))
            by (nonlinear_arith);
        vstd::arithmetic::div_mod::lemma_div_denominator(
            (value * bit_range(low)) as int,
            bit_range(low) as int,
            bit_range(high) as int,
        );
        vstd::arithmetic::div_mod::lemma_div_by_multiple(value as int, bit_range(low) as int);
    }
}

/// The cells of one weight that stand in front of a symbol of that weight.
spec fn same_in_front(weights: Seq<u8>, weight: nat, count: nat) -> nat
    decreases count,
{
    if count == 0 {
        0
    } else {
        same_in_front(weights, weight, (count - 1) as nat) + (if weights[count - 1] == weight
            && weight > 0 {
            bit_range((weight - 1) as nat)
        } else {
            0
        })
    }
}

/// The cells of all weights up to one.
spec fn lower_cells(weights: Seq<u8>, weight: nat) -> nat
    decreases weight,
{
    if weight == 0 {
        0
    } else {
        lower_cells(weights, (weight - 1) as nat) + same_in_front(weights, weight, weights.len())
    }
}

/// The cells of weights up to one, among the first `count` symbols.
spec fn lower_among(weights: Seq<u8>, weight: nat, count: nat) -> nat
    decreases weight,
{
    if weight == 0 {
        0
    } else {
        lower_among(weights, (weight - 1) as nat, count) + same_in_front(weights, weight, count)
    }
}

proof fn lemma_lower_among_all(weights: Seq<u8>, weight: nat)
    ensures
        lower_among(weights, weight, weights.len()) == lower_cells(weights, weight),
    decreases weight,
{
    if weight > 0 {
        lemma_lower_among_all(weights, (weight - 1) as nat);
    }
}

proof fn lemma_lower_among_step(weights: Seq<u8>, weight: nat, count: nat)
    ensures
        lower_among(weights, weight, count + 1) == lower_among(weights, weight, count) + (if 1
            <= weights[count as int] <= weight {
            bit_range((weights[count as int] - 1) as nat)
        } else {
            0
        }),
        lower_among(weights, weight, 0) == 0,
    decreases weight,
{
    if weight > 0 {
        lemma_lower_among_step(weights, (weight - 1) as nat, count);
    }
}

proof fn lemma_in_front(weights: Seq<u8>, symbol: nat, count: nat)
    requires
        symbol < weights.len(),
        weights[symbol as int] > 0,
    ensures
        parts_in_front(weights, symbol, count) == lower_among(
            weights,
            (weights[symbol as int] - 1) as nat,
            count,
        ) + same_in_front(
            weights,
            weights[symbol as int] as nat,
            if count < symbol {
                count
            } else {
                symbol
            },
        ),
    decreases count,
{
    if count > 0 {
        lemma_in_front(weights, symbol, (count - 1) as nat);
        lemma_lower_among_step(
            weights,
            (weights[symbol as int] - 1) as nat,
            (count - 1) as nat,
        );
    } else {
        lemma_lower_among_step(weights, (weights[symbol as int] - 1) as nat, 0);
    }
}

proof fn lemma_rank_cells(weights: Seq<u8>, log: nat, weight: nat, count: nat)
    requires
        weight > 0,
        count <= weights.len(),
        weights.len() <= 65_536,
        weight <= log <= 255,
    ensures
        rank_cells(weights, log, weight, count).len() == same_in_front(weights, weight, count),
        forall|c: int|
            0 <= c < rank_cells(weights, log, weight, count).len() ==> {
                let (symbol, bits) = #[trigger] rank_cells(weights, log, weight, count)[c];
                &&& symbol < count
                &&& weights[symbol as int] == weight
                &&& bits == log + 1 - weight
                &&& same_in_front(weights, weight, symbol as nat) <= c < same_in_front(
                    weights,
                    weight,
                    symbol as nat,
                ) + bit_range((weight - 1) as nat)
            },
        forall|s: int, c: int|
            0 <= s < count && weights[s] == weight && same_in_front(weights, weight, s as nat) <= c
                < same_in_front(weights, weight, s as nat) + bit_range((weight - 1) as nat)
                ==> #[trigger] cell_is(rank_cells(weights, log, weight, count), c, s),
    decreases count,
{
    let cells = rank_cells(weights, log, weight, count);
    if count > 0 {
        lemma_rank_cells(weights, log, weight, (count - 1) as nat);
        let front = rank_cells(weights, log, weight, (count - 1) as nat);
        assert forall|c: int| 0 <= c < cells.len() implies {
            let (symbol, bits) = #[trigger] cells[c];
            &&& symbol < count
            &&& weights[symbol as int] == weight
            &&& bits == log + 1 - weight
            &&& same_in_front(weights, weight, symbol as nat) <= c < same_in_front(
                weights,
                weight,
                symbol as nat,
            ) + bit_range((weight - 1) as nat)
        } by {
            if c < front.len() {
                assert(cells[c] == front[c]);
            }
        }
        assert forall|s: int, c: int|
            0 <= s < count && weights[s] == weight && same_in_front(weights, weight, s as nat) <= c
                < same_in_front(weights, weight, s as nat) + bit_range(
                (weight - 1) as nat,
            ) implies #[trigger] cell_is(cells, c, s) by {
            if s < count - 1 {
                assert(cell_is(front, c, s));
            }
        }
    }
}

spec fn cell_is(cells: Seq<(u16, u8)>, c: int, symbol: int) -> bool {
    0 <= c < cells.len() && cells[c].0 == symbol
}

proof fn lemma_cells(weights: Seq<u8>, log: nat, weight: nat)
    requires
        weights.len() <= 65_536,
        weight <= log <= 255,
    ensures
        huffman_cells(weights, log, weight).len() == lower_cells(weights, weight),
        forall|c: int|
            0 <= c < huffman_cells(weights, log, weight).len() ==> {
                let (symbol, bits) = #[trigger] huffman_cells(weights, log, weight)[c];
                let own = weights[symbol as int] as nat;
                &&& symbol < weights.len()
                &&& 1 <= own <= weight
                &&& bits == log + 1 - own
                &&& lower_cells(weights, (own - 1) as nat) + same_in_front(
                    weights,
                    own,
                    symbol as nat,
                ) <= c < lower_cells(weights, (own - 1) as nat) + same_in_front(
                    weights,
                    own,
                    symbol as nat,
                ) + bit_range((own - 1) as nat)
            },
        forall|s: int, c: int|
            0 <= s < weights.len() && 1 <= weights[s] <= weight && lower_cells(
                weights,
                (weights[s] - 1) as nat,
            ) + same_in_front(weights, weights[s] as nat, s as nat) <= c < lower_cells(
                weights,
                (weights[s] - 1) as nat,
            ) + same_in_front(weights, weights[s] as nat, s as nat) + bit_range(
                (weights[s] - 1) as nat,
            ) ==> #[trigger] cell_is(huffman_cells(weights, log, weight), c, s),
    decreases weight,
{
    let cells = huffman_cells(weights, log, weight);
    if weight > 0 {
        lemma_cells(weights, log, (weight - 1) as nat);
        lemma_rank_cells(weights, log, weight, weights.len());
        let front = huffman_cells(weights, log, (weight - 1) as nat);
        let last = rank_cells(weights, log, weight, weights.len());
        assert forall|c: int| 0 <= c < cells.len() implies {
            let (symbol, bits) = #[trigger] cells[c];
            let own = weights[symbol as int] as nat;
            &&& symbol < weights.len()
            &&& 1 <= own <= weight
            &&& bits == log + 1 - own
            &&& lower_cells(weights, (own - 1) as nat) + same_in_front(weights, own, symbol as nat)
                <= c < lower_cells(weights, (own - 1) as nat) + same_in_front(
                weights,
                own,
                symbol as nat,
            ) + bit_range((own - 1) as nat)
        } by {
            if c < front.len() {
                assert(cells[c] == front[c]);
            } else {
                assert(cells[c] == last[c - front.len()]);
            }
        }
        assert forall|s: int, c: int|
            0 <= s < weights.len() && 1 <= weights[s] <= weight && lower_cells(
                weights,
                (weights[s] - 1) as nat,
            ) + same_in_front(weights, weights[s] as nat, s as nat) <= c < lower_cells(
                weights,
                (weights[s] - 1) as nat,
            ) + same_in_front(weights, weights[s] as nat, s as nat) + bit_range(
                (weights[s] - 1) as nat,
            ) implies #[trigger] cell_is(cells, c, s) by {
            if weights[s] < weight {
                assert(cell_is(front, c, s));
            } else {
                assert(cell_is(last, c - front.len(), s));
            }
        }
    }
}

/// What the cells of a table stand for: a cell between where the parts of a symbol start
/// and where they end holds the symbol and the length of its code word.
proof fn lemma_table_cell(weights: Seq<u8>, log: nat, cell: nat)
    requires
        weights_complete(weights, log),
        cell < huffman_table(weights, log).len(),
    ensures
        ({
            let (symbol, bits) = huffman_table(weights, log)[cell as int];
            let own = weights[symbol as int] as nat;
            &&& symbol < weights.len()
            &&& 1 <= own <= log
            &&& bits == log + 1 - own
            &&& parts_in_front(weights, symbol as nat, weights.len()) <= cell < parts_in_front(
                weights,
                symbol as nat,
                weights.len(),
            ) + bit_range((own - 1) as nat)
        }),
{
    lemma_cells(weights, log, log);
    let (symbol, bits) = huffman_cells(weights, log, log)[cell as int];
    lemma_in_front(weights, symbol as nat, weights.len());
    lemma_lower_among_all(weights, (weights[symbol as int] - 1) as nat);
}

proof fn lemma_symbol_cell(weights: Seq<u8>, log: nat, symbol: nat, cell: nat)
    requires
        weights_complete(weights, log),
        symbol < weights.len(),
        weights[symbol as int] > 0,
        parts_in_front(weights, symbol, weights.len()) <= cell < parts_in_front(
            weights,
            symbol,
            weights.len(),
        ) + bit_range((weights[symbol as int] - 1) as nat),
    ensures
        cell < huffman_table(weights, log).len(),
        huffman_table(weights, log)[cell as int].0 == symbol,
        huffman_table(weights, log)[cell as int].1 == log + 1 - weights[symbol as int],
{
    assert(weights[symbol as int] <= log);
    lemma_cells(weights, log, log);
    lemma_in_front(weights, symbol, weights.len());
    lemma_lower_among_all(weights, (weights[symbol as int] - 1) as nat);
    assert(cell_is(huffman_cells(weights, log, log), cell as int, symbol as int));
    let found = huffman_cells(weights, log, log)[cell as int];
    assert(found.0 == symbol);
}

/// The parts of the code space that do not stand in front of a symbol.
spec fn parts_behind(weights: Seq<u8>, symbol: nat, count: nat) -> nat
    decreases count,
{
    if count == 0 {
        0
    } else {
        let other = (count - 1) as nat;
        let weight = weights[other as int];
        let own = weights[symbol as int];
        parts_behind(weights, symbol, other) + (if weight > 0 && !(weight < own || (weight == own
            && other < symbol)) {
            bit_range((weight - 1) as nat)
        } else {
            0
        })
    }
}

proof fn lemma_parts(weights: Seq<u8>, symbol: nat, count: nat)
    requires
        symbol < weights.len(),
        count <= weights.len(),
        weights[symbol as int] > 0,
    ensures
        parts_in_front(weights, symbol, count) + parts_behind(weights, symbol, count) == cell_sum(
            weights,
            count,
        ),
        parts_behind(weights, symbol, count) % bit_range((weights[symbol as int] - 1) as nat) == 0,
    decreases count,
{
    let unit = bit_range((weights[symbol as int] - 1) as nat);
    lemma_bit_range_monotone(0, (weights[symbol as int] - 1) as nat);
    lemma_bit_range_values();
    if count > 0 {
        lemma_parts(weights, symbol, (count - 1) as nat);
        let other = weights[count - 1];
        if other >= weights[symbol as int] {
            lemma_range_multiple(
                (weights[symbol as int] - 1) as nat,
                (other - 1) as nat,
            );
            lemma_multiples_add(
                parts_behind(weights, symbol, (count - 1) as nat),
                bit_range((other - 1) as nat),
                unit,
            );
        }
    }
}

proof fn lemma_range_multiple(small: nat, large: nat)
    requires
        small <= large,
    ensures
        bit_range(large) % bit_range(small) == 0,
{
    lemma_bit_range_add((large - small) as nat, small);
    lemma_bit_range_monotone(0, small);
    lemma_bit_range_values();
    vstd::arithmetic::div_mod::lemma_mod_multiples_basic(
        bit_range((large - small) as nat) as int,
        bit_range(small) as int,
    );
}

proof fn lemma_multiples_add(left: nat, right: nat, unit: nat)
    requires
        unit > 0,
        left % unit == 0,
        right % unit == 0,
    ensures
        (left + right) % unit == 0,
{
    vstd::arithmetic::div_mod::lemma_add_mod_noop(left as int, right as int, unit as int);
    vstd::arithmetic::div_mod::lemma_small_mod(0, unit);
}

/// The parts of a symbol of weight `w` start at a multiple of `2^(w - 1)`, so that its code
/// word is that start without its low bits.
proof fn lemma_start_aligned(weights: Seq<u8>, log: nat, symbol: nat)
    requires
        weights_complete(weights, log),
        symbol < weights.len(),
        weights[symbol as int] > 0,
    ensures
        parts_in_front(weights, symbol, weights.len()) % bit_range(
            (weights[symbol as int] - 1) as nat,
        ) == 0,
        parts_in_front(weights, symbol, weights.len()) < bit_range(log),
{
    assert(weights[symbol as int] <= log);
    let low = (weights[symbol as int] - 1) as nat;
    let unit = bit_range(low);
    lemma_parts(weights, symbol, weights.len());
    lemma_range_multiple(low, log);
    lemma_bit_range_monotone(0, low);
    lemma_bit_range_values();
    let front = parts_in_front(weights, symbol, weights.len());
    let behind = parts_behind(weights, symbol, weights.len());
    vstd::arithmetic::div_mod::lemma_sub_mod_noop(
        bit_range(log) as int,
        behind as int,
        unit as int,
    );
    vstd::arithmetic::div_mod::lemma_small_mod(0, unit);
    assert(front == bit_range(log) - behind);
    lemma_own_behind(weights, symbol, weights.len());
}

proof fn lemma_own_behind(weights: Seq<u8>, symbol: nat, count: nat)
    requires
        symbol < count <= weights.len(),
        weights[symbol as int] > 0,
    ensures
        parts_behind(weights, symbol, count) > 0,
    decreases count,
{
    if symbol < count - 1 {
        lemma_own_behind(weights, symbol, (count - 1) as nat);
    } else {
        lemma_bit_range_monotone(0, (weights[symbol as int] - 1) as nat);
        lemma_bit_range_values();
    }
}

proof fn lemma_same_quotient(start: nat, cell: nat, unit: nat)
    requires
        unit > 0,
        start % unit == 0,
    ensures
        start <= cell < start + unit <==> cell / unit == start / unit,
{
    vstd::arithmetic::div_mod::lemma_fundamental_div_mod(start as int, unit as int);
    vstd::arithmetic::div_mod::lemma_fundamental_div_mod(cell as int, unit as int);
    let a = (start / unit) as int;
    let b = (cell / unit) as int;
    if b < a {
        assert(unit * b + unit <= unit * a) by (nonlinear_arith)
            requires
                b + 1 <= a,
                unit > 0,
        ;
    } else if b > a {
        assert(unit * a + unit <= unit * b) by (nonlinear_arith)
            requires
                a + 1 <= b,
                unit > 0,
        ;
    }
}

/// The next bits are the code word of the symbol that the table gives for them.
proof fn lemma_lookup(weights: Seq<u8>, log: nat, unread: Seq<bool>)
    requires
        weights_complete(weights, log),
        next_cell(unread, log) < huffman_table(weights, log).len(),
        huffman_table(weights, log)[next_cell(unread, log) as int].1 <= unread.len(),
    ensures
        ({
            let (symbol, bits) = huffman_table(weights, log)[next_cell(unread, log) as int];
            &&& symbol < weights.len()
            &&& weights[symbol as int] > 0
            &&& unread.take(bits as int) == code_word(weights, log, symbol as nat)
        }),
{
    let cell = next_cell(unread, log);
    lemma_table_cell(weights, log, cell);
    let (symbol, bits) = huffman_table(weights, log)[cell as int];
    let low = (weights[symbol as int] - 1) as nat;
    lemma_start_aligned(weights, log, symbol as nat);
    lemma_bit_range_monotone(0, low);
    lemma_bit_range_values();
    let start = parts_in_front(weights, symbol as nat, weights.len());
    lemma_same_quotient(start, cell, bit_range(low));
    assert((log - bits) as nat == low);
    lemma_next_cell(unread, log, bits as nat);
    lemma_be_seq_back(unread.take(bits as int));
}

/// Bits that begin with the code word of a symbol give that symbol.
proof fn lemma_find(weights: Seq<u8>, log: nat, symbol: nat, rest: Seq<bool>)
    requires
        weights_complete(weights, log),
        symbol < weights.len(),
        weights[symbol as int] > 0,
    ensures
        ({
            let unread = code_word(weights, log, symbol) + rest;
            let cell = next_cell(unread, log);
            &&& cell < huffman_table(weights, log).len()
            &&& huffman_table(weights, log)[cell as int].0 == symbol
            &&& huffman_table(weights, log)[cell as int].1 == code_word(
                weights,
                log,
                symbol,
            ).len()
            &&& code_word(weights, log, symbol).len() == log + 1 - weights[symbol as int]
        }),
{
    assert(weights[symbol as int] <= log);
    let word = code_word(weights, log, symbol);
    let unread = word + rest;
    let low = (weights[symbol as int] - 1) as nat;
    let len = (log - low) as nat;
    let start = parts_in_front(weights, symbol, weights.len());
    let cell = next_cell(unread, log);
    lemma_start_aligned(weights, log, symbol);
    lemma_bit_range_monotone(0, low);
    lemma_bit_range_values();
    lemma_be_seq(start / bit_range(low), len);
    assert(unread.take(len as int) =~= word);
    lemma_next_cell(unread, log, len);
    lemma_bit_range_add(len, low);
    assert(start / bit_range(low) < bit_range(len)) by {
        vstd::arithmetic::div_mod::lemma_multiply_divide_lt(
            start as int,
            bit_range(low) as int,
            bit_range(len) as int,
        );
    }
    vstd::arithmetic::div_mod::lemma_small_mod(start / bit_range(low), bit_range(len));
    lemma_same_quotient(start, cell, bit_range(low));
    lemma_symbol_cell(weights, log, symbol, cell);
}

/// Some symbols as integers.
pub open spec fn wide_values(symbols: Seq<u64>) -> Seq<nat> {
    Seq::new(symbols.len(), |i: int| symbols[i] as nat)
}

/// Some bytes as integers.
pub open spec fn byte_values(symbols: Seq<u8>) -> Seq<nat> {
    Seq::new(symbols.len(), |i: int| symbols[i] as nat)
}

proof fn lemma_words_front(weights: Seq<u8>, log: nat, first: nat, symbols: Seq<nat>)
    ensures
        code_words(weights, log, seq![first] + symbols) == code_word(weights, log, first)
            + code_words(weights, log, symbols),
    decreases symbols.len(),
{
    let all = seq![first] + symbols;
    if symbols.len() > 0 {
        lemma_words_front(weights, log, first, symbols.drop_last());
        assert(all.drop_last() =~= seq![first] + symbols.drop_last());
        assert(code_words(weights, log, all) =~= code_word(weights, log, first) + code_words(
            weights,
            log,
            symbols,
        ));
    } else {
        assert(all.drop_last() =~= symbols);
        assert(symbols =~= Seq::<nat>::empty());
        assert(code_words(weights, log, symbols) =~= Seq::<bool>::empty());
        assert(all.last() == first);
        assert(code_words(weights, log, all) =~= code_word(weights, log, first) + code_words(
            weights,
            log,
            symbols,
        ));
    }
}

proof fn lemma_large_words(
    weights: Seq<u8>,
    log: nat,
    unread: Seq<bool>,
    count: nat,
    symbols: Seq<u64>,
) -> (more: Seq<u64>)
    requires
        weights_complete(weights, log),
        large_symbols_from(huffman_table(weights, log), log, unread, count, symbols) is Ok,
    ensures
        ({
            let (all, rest) = large_symbols_from(
                huffman_table(weights, log),
                log,
                unread,
                count,
                symbols,
            )->Ok_0;
            &&& all == symbols + more
            &&& symbols_coded(weights, wide_values(more))
            &&& unread == code_words(weights, log, wide_values(more)) + rest
        }),
    decreases count - symbols.len(),
{
    let table = huffman_table(weights, log);
    if symbols.len() >= count {
        let none = Seq::<u64>::empty();
        assert(symbols + none =~= symbols);
        assert(wide_values(none) =~= Seq::<nat>::empty());
        assert(unread =~= code_words(weights, log, wide_values(none)) + unread);
        none
    } else {
        let (symbol, bits) = table[next_cell(unread, log) as int];
        lemma_lookup(weights, log, unread);
        let next = unread.skip(bits as int);
        let behind = lemma_large_words(
            weights,
            log,
            next,
            count,
            symbols.push(symbol as u64),
        );
        let more = seq![symbol as u64] + behind;
        assert(symbols.push(symbol as u64) + behind =~= symbols + more);
        assert(wide_values(more) =~= seq![symbol as nat] + wide_values(behind));
        lemma_words_front(weights, log, symbol as nat, wide_values(behind));
        let rest = large_symbols_from(table, log, unread, count, symbols)->Ok_0.1;
        assert(unread =~= unread.take(bits as int) + next);
        assert(unread =~= code_words(weights, log, wide_values(more)) + rest);
        assert forall|i: int| 0 <= i < wide_values(more).len() implies (
        #[trigger] wide_values(more)[i]) < weights.len() && weights[wide_values(more)[i] as int]
            > 0 by {
            if i > 0 {
                assert(wide_values(more)[i] == wide_values(behind)[i - 1]);
            }
        }
        more
    }
}

/// A stream of 16-bit symbols that decodes holds the code words of its symbols, one after
/// the other, and nothing else.
pub proof fn law_wide_stream_holds_code_words(
    weights: Seq<u8>,
    log: nat,
    bits: Seq<u8>,
    count: nat,
)
    requires
        weights_complete(weights, log),
        large_stream(huffman_table(weights, log), log, bits, count) is Ok,
    ensures
        ({
            let symbols = wide_values(
                large_stream(huffman_table(weights, log), log, bits, count)->Ok_0,
            );
            &&& symbols_coded(weights, symbols)
            &&& marked_bits(bits) == code_words(weights, log, symbols)
        }),
{
    let more = lemma_large_words(weights, log, marked_bits(bits), count, Seq::empty());
    let symbols = large_stream(huffman_table(weights, log), log, bits, count)->Ok_0;
    let rest = large_symbols_from(
        huffman_table(weights, log),
        log,
        marked_bits(bits),
        count,
        Seq::empty(),
    )->Ok_0.1;
    assert(symbols =~= more);
    assert(code_words(weights, log, wide_values(more)) + rest =~= code_words(
        weights,
        log,
        wide_values(more),
    ));
}

proof fn lemma_byte_words(
    weights: Seq<u8>,
    log: nat,
    unread: Seq<bool>,
    count: nat,
    symbols: Seq<u8>,
) -> (more: Seq<u8>)
    requires
        weights_complete(weights, log),
        weights.len() <= 256,
        log >= 1,
        byte_symbols_from(huffman_table(weights, log), log, unread, count, symbols) is Some,
    ensures
        ({
            let all = byte_symbols_from(
                huffman_table(weights, log),
                log,
                unread,
                count,
                symbols,
            )->Some_0;
            &&& all == symbols + more
            &&& symbols_coded(weights, byte_values(more))
            &&& unread == code_words(weights, log, byte_values(more))
        }),
    decreases count - symbols.len(),
{
    let table = huffman_table(weights, log);
    if symbols.len() >= count {
        let none = Seq::<u8>::empty();
        assert(symbols + none =~= symbols);
        assert(byte_values(none) =~= Seq::<nat>::empty());
        assert(unread =~= code_words(weights, log, byte_values(none)));
        none
    } else {
        lemma_table_full(weights, log);
        lemma_next_cell(unread, log, 0);
        let (symbol, bits) = table[next_cell(unread, log) as int];
        lemma_lookup(weights, log, unread);
        let next = unread.skip(bits as int);
        let behind = lemma_byte_words(weights, log, next, count, symbols.push(symbol as u8));
        let more = seq![symbol as u8] + behind;
        assert(symbols.push(symbol as u8) + behind =~= symbols + more);
        assert(byte_values(more) =~= seq![symbol as nat] + byte_values(behind));
        lemma_words_front(weights, log, symbol as nat, byte_values(behind));
        assert(unread =~= unread.take(bits as int) + next);
        assert forall|i: int| 0 <= i < byte_values(more).len() implies (
        #[trigger] byte_values(more)[i]) < weights.len() && weights[byte_values(more)[i] as int]
            > 0 by {
            if i > 0 {
                assert(byte_values(more)[i] == byte_values(behind)[i - 1]);
            }
        }
        more
    }
}

proof fn lemma_table_full(weights: Seq<u8>, log: nat)
    requires
        weights_complete(weights, log),
    ensures
        huffman_table(weights, log).len() == bit_range(log),
{
    lemma_cells(weights, log, log);
    lemma_lower_among_all(weights, log);
    lemma_lower_sum(weights, log, weights.len());
}

proof fn lemma_lower_sum(weights: Seq<u8>, log: nat, count: nat)
    requires
        count <= weights.len(),
        forall|i: int| 0 <= i < weights.len() ==> (#[trigger] weights[i]) <= log,
    ensures
        lower_among(weights, log, count) == cell_sum(weights, count),
    decreases count,
{
    if count > 0 {
        lemma_lower_sum(weights, log, (count - 1) as nat);
        lemma_lower_among_step(weights, log, (count - 1) as nat);
        assert(weights[count - 1] <= log);
    } else {
        lemma_lower_among_step(weights, log, 0);
    }
}

/// A stream of bytes that decodes holds the code words of its bytes, one after the other,
/// and nothing else.
pub proof fn law_byte_stream_holds_code_words(
    weights: Seq<u8>,
    log: u8,
    data: Seq<u8>,
    count: usize,
)
    requires
        weights_complete(weights, log as nat),
        weights.len() <= 256,
        huffman_stream(huffman_table(weights, log as nat), log, data, count) is Ok,
    ensures
        ({
            let bytes = byte_values(
                huffman_stream(huffman_table(weights, log as nat), log, data, count)->Ok_0,
            );
            &&& symbols_coded(weights, bytes)
            &&& marked_bits(data) == code_words(weights, log as nat, bytes)
        }),
{
    let more = lemma_byte_words(
        weights,
        log as nat,
        marked_bits(data),
        count as nat,
        Seq::empty(),
    );
    let bytes = huffman_stream(huffman_table(weights, log as nat), log, data, count)->Ok_0;
    assert(bytes =~= more);
}

proof fn lemma_large_found(
    weights: Seq<u8>,
    log: nat,
    symbols: Seq<u64>,
    more: Seq<u64>,
)
    requires
        weights_complete(weights, log),
        symbols_coded(weights, wide_values(more)),
        log >= 1,
    ensures
        large_symbols_from(
            huffman_table(weights, log),
            log,
            code_words(weights, log, wide_values(more)),
            symbols.len() + more.len(),
            symbols,
        ) == Ok::<(Seq<u64>, Seq<bool>), ErrorView>((symbols + more, Seq::empty())),
    decreases more.len(),
{
    if more.len() == 0 {
        assert(symbols + more =~= symbols);
        assert(wide_values(more) =~= Seq::<nat>::empty());
    } else {
        let first = more[0];
        let behind = more.skip(1);
        assert(wide_values(more)[0] == first as nat);
        assert(wide_values(more) =~= seq![first as nat] + wide_values(behind));
        assert forall|i: int| 0 <= i < wide_values(behind).len() implies (
        #[trigger] wide_values(behind)[i]) < weights.len() && weights[wide_values(behind)[i]
            as int] > 0 by {
            assert(wide_values(more)[i + 1] == wide_values(behind)[i]);
        }
        lemma_words_front(weights, log, first as nat, wide_values(behind));
        let rest = code_words(weights, log, wide_values(behind));
        let unread = code_words(weights, log, wide_values(more));
        lemma_find(weights, log, first as nat, rest);
        let len = code_word(weights, log, first as nat).len();
        assert(weights[first as int] <= log);
        assert(unread.skip(len as int) =~= rest);
        assert(symbols.push(first) + behind =~= symbols + more);
        lemma_large_found(weights, log, symbols.push(first), behind);
    }
}

/// Symbols that were written as their code words come back.
pub proof fn law_wide_stream_round_trip(
    weights: Seq<u8>,
    log: nat,
    bits: Seq<u8>,
    symbols: Seq<u64>,
)
    requires
        weights_complete(weights, log),
        log >= 1,
        symbols_coded(weights, wide_values(symbols)),
        8 * bits.len() <= usize::MAX,
        bits.len() > 0,
        bits.last() != 0,
        marked_bits(bits) == code_words(weights, log, wide_values(symbols)),
    ensures
        large_stream(huffman_table(weights, log), log, bits, symbols.len()) == Ok::<
            Seq<u64>,
            ErrorView,
        >(symbols),
{
    lemma_large_found(weights, log, Seq::empty(), symbols);
    assert(Seq::<u64>::empty() + symbols =~= symbols);
}

proof fn lemma_byte_found(weights: Seq<u8>, log: nat, symbols: Seq<u8>, more: Seq<u8>)
    requires
        weights_complete(weights, log),
        symbols_coded(weights, byte_values(more)),
        log >= 1,
    ensures
        byte_symbols_from(
            huffman_table(weights, log),
            log,
            code_words(weights, log, byte_values(more)),
            symbols.len() + more.len(),
            symbols,
        ) == Some(symbols + more),
    decreases more.len(),
{
    if more.len() == 0 {
        assert(symbols + more =~= symbols);
        assert(byte_values(more) =~= Seq::<nat>::empty());
    } else {
        let first = more[0];
        let behind = more.skip(1);
        assert(byte_values(more)[0] == first as nat);
        assert(byte_values(more) =~= seq![first as nat] + byte_values(behind));
        assert forall|i: int| 0 <= i < byte_values(behind).len() implies (
        #[trigger] byte_values(behind)[i]) < weights.len() && weights[byte_values(behind)[i]
            as int] > 0 by {
            assert(byte_values(more)[i + 1] == byte_values(behind)[i]);
        }
        lemma_words_front(weights, log, first as nat, byte_values(behind));
        let rest = code_words(weights, log, byte_values(behind));
        let unread = code_words(weights, log, byte_values(more));
        lemma_find(weights, log, first as nat, rest);
        let len = code_word(weights, log, first as nat).len();
        assert(weights[first as int] <= log);
        assert(unread.skip(len as int) =~= rest);
        assert(symbols.push(first) + behind =~= symbols + more);
        lemma_byte_found(weights, log, symbols.push(first), behind);
    }
}

/// Bytes that were written as their code words come back.
pub proof fn law_byte_stream_round_trip(
    weights: Seq<u8>,
    log: u8,
    data: Seq<u8>,
    bytes: Seq<u8>,
)
    requires
        weights_complete(weights, log as nat),
        1 <= log <= 11,
        bytes.len() <= usize::MAX,
        symbols_coded(weights, byte_values(bytes)),
        data.len() > 0,
        data.last() != 0,
        marked_bits(data) == code_words(weights, log as nat, byte_values(bytes)),
    ensures
        huffman_stream(
            huffman_table(weights, log as nat),
            log,
            data,
            bytes.len() as usize,
        ) == Ok::<Seq<u8>, Seq<char>>(bytes),
{
    lemma_table_full(weights, log as nat);
    lemma_byte_found(weights, log as nat, Seq::empty(), bytes);
    assert(Seq::<u8>::empty() + bytes =~= bytes);
}

/// The two-byte integers of some bytes.
pub open spec fn wide_elements(bytes: Seq<u8>) -> Seq<nat> {
    Seq::new(bytes.len() / 2, |i: int| element(bytes, 2, i))
}

/// Whether some bits are code words of some symbols in `left` streams: each has the number
/// of its symbols and the number of its bytes in front, four bytes each.
pub open spec fn streams_hold(
    weights: Seq<u8>,
    log: nat,
    bits: Seq<u8>,
    left: nat,
    symbols: Seq<nat>,
) -> bool
    decreases left,
{
    if left == 0 {
        bits.len() == 0 && symbols.len() == 0
    } else {
        let count = le_value(bits.subrange(0, 4));
        let len = le_value(bits.subrange(4, 8));
        let stream = bits.subrange(8, 8 + len as int);
        &&& 8 + len <= bits.len()
        &&& count <= symbols.len()
        &&& len > 0
        &&& stream.last() != 0
        &&& marked_bits(stream) == code_words(weights, log, symbols.take(count as int))
        &&& streams_hold(
            weights,
            log,
            bits.skip(8 + len as int),
            (left - 1) as nat,
            symbols.skip(count as int),
        )
    }
}

proof fn lemma_log_complete(weights: Seq<u8>, max_count: nat, max_log: nat, name: Seq<char>)
    requires
        huffman_log(weights, max_count, max_log, name) is Ok,
        max_count <= 65_536,
        max_log <= 255,
    ensures
        weights_complete(weights, huffman_log(weights, max_count, max_log, name)->Ok_0 as nat),
        huffman_log(weights, max_count, max_log, name)->Ok_0 >= 1,
{
    let log = huffman_log(weights, max_count, max_log, name)->Ok_0 as nat;
    lemma_positive_length(cell_sum(weights, weights.len()), weights);
    lemma_weights_below_log(weights, log);
}

proof fn lemma_wide_join(front: Seq<u64>, back: Seq<u64>)
    ensures
        wide_values(front + back) == wide_values(front) + wide_values(back),
        wide_values(front + back).take(front.len() as int) == wide_values(front),
        wide_values(front + back).skip(front.len() as int) == wide_values(back),
{
    assert(wide_values(front + back) =~= wide_values(front) + wide_values(back));
    assert(wide_values(front + back).take(front.len() as int) =~= wide_values(front));
    assert(wide_values(front + back).skip(front.len() as int) =~= wide_values(back));
}

proof fn lemma_coded_join(weights: Seq<u8>, front: Seq<nat>, back: Seq<nat>)
    ensures
        symbols_coded(weights, front + back) <==> symbols_coded(weights, front) && symbols_coded(
            weights,
            back,
        ),
{
    let all = front + back;
    if symbols_coded(weights, all) {
        assert forall|i: int| 0 <= i < front.len() implies (#[trigger] front[i]) < weights.len()
            && weights[front[i] as int] > 0 by {
            assert(all[i] == front[i]);
        }
        assert forall|i: int| 0 <= i < back.len() implies (#[trigger] back[i]) < weights.len()
            && weights[back[i] as int] > 0 by {
            assert(all[i + front.len()] == back[i]);
        }
    }
}

proof fn lemma_large_count(table: Seq<(u16, u8)>, log: nat, unread: Seq<bool>, count: nat, symbols: Seq<u64>)
    requires
        symbols.len() <= count,
        large_symbols_from(table, log, unread, count, symbols) is Ok,
    ensures
        large_symbols_from(table, log, unread, count, symbols)->Ok_0.0.len() == count,
    decreases count - symbols.len(),
{
    if symbols.len() < count {
        let (symbol, bits) = table[next_cell(unread, log) as int];
        lemma_large_count(
            table,
            log,
            unread.skip(bits as int),
            count,
            symbols.push(symbol as u64),
        );
    }
}

proof fn lemma_four_hold(
    weights: Seq<u8>,
    log: nat,
    bits: Seq<u8>,
    count: nat,
    index: nat,
    cursor: nat,
    symbols: Seq<u64>,
) -> (more: Seq<u64>)
    requires
        weights_complete(weights, log),
        index <= 4,
        cursor <= bits.len(),
        four_streams_from(huffman_table(weights, log), log, bits, count, index, cursor, symbols) is Ok,
    ensures
        four_streams_from(
            huffman_table(weights, log),
            log,
            bits,
            count,
            index,
            cursor,
            symbols,
        )->Ok_0 == symbols + more,
        symbols.len() + more.len() == count,
        symbols_coded(weights, wide_values(more)),
        streams_hold(
            weights,
            log,
            bits.skip(cursor as int),
            (4 - index) as nat,
            wide_values(more),
        ),
    decreases 4 - index,
{
    let table = huffman_table(weights, log);
    if index >= 4 {
        let none = Seq::<u64>::empty();
        assert(symbols + none =~= symbols);
        none
    } else {
        let size = size_at(bits, cursor as int);
        let len = size_at(bits, cursor as int + 4);
        let end = cursor + 8 + len;
        let left = bits.skip(cursor as int);
        let stream = bits.subrange(cursor as int + 8, end as int);
        let part = large_stream(table, log, stream, size)->Ok_0;
        law_wide_stream_holds_code_words(weights, log, stream, size);
        lemma_large_count(table, log, marked_bits(stream), size, Seq::empty());
        let behind = lemma_four_hold(
            weights,
            log,
            bits,
            count,
            index + 1,
            end,
            symbols + part,
        );
        let more = part + behind;
        assert(symbols + part + behind =~= symbols + more);
        lemma_wide_join(part, behind);
        lemma_coded_join(weights, wide_values(part), wide_values(behind));
        assert(left.subrange(0, 4) =~= bits.subrange(cursor as int, cursor as int + 4));
        assert(left.subrange(4, 8) =~= bits.subrange(cursor as int + 4, cursor as int + 4 + 4));
        assert(left.subrange(8, 8 + len as int) =~= stream);
        assert(left.skip(8 + len as int) =~= bits.skip(end as int));
        more
    }
}

proof fn lemma_four_found(
    weights: Seq<u8>,
    log: nat,
    bits: Seq<u8>,
    count: nat,
    index: nat,
    cursor: nat,
    symbols: Seq<u64>,
    more: Seq<u64>,
)
    requires
        weights_complete(weights, log),
        log >= 1,
        index <= 4,
        cursor <= bits.len(),
        8 * bits.len() <= usize::MAX,
        count <= usize::MAX,
        symbols.len() + more.len() == count,
        symbols_coded(weights, wide_values(more)),
        streams_hold(
            weights,
            log,
            bits.skip(cursor as int),
            (4 - index) as nat,
            wide_values(more),
        ),
    ensures
        four_streams_from(
            huffman_table(weights, log),
            log,
            bits,
            count,
            index,
            cursor,
            symbols,
        ) == Ok::<Seq<u64>, ErrorView>(symbols + more),
    decreases 4 - index,
{
    let left = bits.skip(cursor as int);
    if index >= 4 {
        assert(symbols + more =~= symbols);
    } else {
        let size = size_at(bits, cursor as int);
        let len = size_at(bits, cursor as int + 4);
        let end = cursor + 8 + len;
        assert(left.subrange(0, 4) =~= bits.subrange(cursor as int, cursor as int + 4));
        assert(left.subrange(4, 8) =~= bits.subrange(cursor as int + 4, cursor as int + 4 + 4));
        let stream = bits.subrange(cursor as int + 8, end as int);
        assert(left.subrange(8, 8 + len as int) =~= stream);
        assert(left.skip(8 + len as int) =~= bits.skip(end as int));
        let part = more.take(size as int);
        let behind = more.skip(size as int);
        assert(part + behind =~= more);
        lemma_wide_join(part, behind);
        lemma_coded_join(weights, wide_values(part), wide_values(behind));
        law_wide_stream_round_trip(weights, log, stream, part);
        lemma_four_found(
            weights,
            log,
            bits,
            count,
            index + 1,
            end,
            symbols + part,
            behind,
        );
        assert(symbols + part + behind =~= symbols + more);
    }
}

proof fn lemma_packed_wide(weights: Seq<u8>, symbols: Seq<u64>)
    requires
        weights.len() <= 65_536,
        symbols_coded(weights, wide_values(symbols)),
    ensures
        wide_elements(packed(symbols, 2)) == wide_values(symbols),
{
    lemma_packed_len(symbols, 2);
    lemma_byte_range_values();
    assert forall|i: int| 0 <= i < symbols.len() implies element(packed(symbols, 2), 2, i)
        == symbols[i] as nat by {
        assert(wide_values(symbols)[i] < weights.len());
        law_packed_element(symbols, 2, i);
    }
    assert(wide_elements(packed(symbols, 2)) =~= wide_values(symbols));
}

/// A huffman_struct_v2 node that decodes gives the two-byte elements whose code words its
/// second input holds: in one stream, or in four where the header's first byte is odd. Each
/// element is a symbol whose weight is not zero, and the header says how many there are.
pub proof fn law_huffman_struct_v2_bits_are_code_words(
    inputs: Seq<StreamView>,
    header: Seq<u8>,
    limits: Limits,
)
    requires
        huffman_struct_v2_node(inputs, header, limits) is Ok,
    ensures
        ({
            let weights = inputs[0].bytes;
            let log = huffman_log(weights, 65_536, 20, "huffman_struct_v2"@)->Ok_0 as nat;
            let output = huffman_struct_v2_node(inputs, header, limits)->Ok_0;
            let symbols = wide_elements(output.bytes);
            &&& weights_complete(weights, log)
            &&& output.element_width == 2
            &&& output.bytes.len() == 2 * symbols.len()
            &&& symbols.len() == le_value(header.skip(1))
            &&& symbols_coded(weights, symbols)
            &&& streams_hold(
                weights,
                log,
                inputs[1].bytes,
                if header[0] % 2 == 1 {
                    4
                } else {
                    1
                },
                symbols,
            )
        }),
{
    let weights = inputs[0].bytes;
    let bits = inputs[1].bytes;
    lemma_log_complete(weights, 65_536, 20, "huffman_struct_v2"@);
    let log = huffman_log(weights, 65_536, 20, "huffman_struct_v2"@)->Ok_0 as nat;
    let table = huffman_table(weights, log);
    let parsed = huffman_header(header, "huffman_struct_v2"@)->Ok_0;
    let count = parsed.output_len as nat;
    assert(header.skip(1) =~= header.subrange(1, header.len() as int));
    assert(bits.skip(0) =~= bits);
    if parsed.x4 {
        let symbols = lemma_four_hold(weights, log, bits, count, 0, 0, Seq::empty());
        assert(Seq::<u64>::empty() + symbols =~= symbols);
        lemma_packed_wide(weights, symbols);
        lemma_packed_len(symbols, 2);
    } else {
        let symbols = sized_stream(table, log, bits, count)->Ok_0;
        let stream = bits.subrange(8, bits.len() as int);
        law_wide_stream_holds_code_words(weights, log, stream, count);
        lemma_large_count(table, log, marked_bits(stream), count, Seq::empty());
        lemma_packed_wide(weights, symbols);
        lemma_packed_len(symbols, 2);
        let values = wide_values(symbols);
        assert(values.take(count as int) =~= values);
        assert(bits.skip(8 + size_at(bits, 4) as int).len() == 0);
        assert(values.skip(count as int).len() == 0);
        assert(streams_hold(
            weights,
            log,
            bits.skip(8 + size_at(bits, 4) as int),
            0,
            values.skip(count as int),
        ));
    }
}

/// Two-byte elements that were written as their code words come back from a
/// huffman_struct_v2 node.
pub proof fn law_huffman_struct_v2_round_trip(
    inputs: Seq<StreamView>,
    header: Seq<u8>,
    limits: Limits,
    symbols: Seq<u64>,
)
    requires
        inputs.len() == 2,
        required_width_error(inputs[0], 1, "huffman_struct_v2 weights"@) is None,
        inputs[1].element_width == 1,
        8 * inputs[1].bytes.len() <= usize::MAX,
        huffman_log(inputs[0].bytes, 65_536, 20, "huffman_struct_v2"@) is Ok,
        2 <= header.len() <= 9,
        le_value(header.skip(1)) == symbols.len(),
        symbols.len() >= 2,
        2 * symbols.len() <= usize::MAX,
        limits.admits(2 * symbols.len() as int),
        symbols_coded(inputs[0].bytes, wide_values(symbols)),
        streams_hold(
            inputs[0].bytes,
            huffman_log(inputs[0].bytes, 65_536, 20, "huffman_struct_v2"@)->Ok_0 as nat,
            inputs[1].bytes,
            if header[0] % 2 == 1 {
                4
            } else {
                1
            },
            wide_values(symbols),
        ),
    ensures
        huffman_struct_v2_node(inputs, header, limits) == Ok::<StreamView, ErrorView>(
            typed_stream(packed(symbols, 2), 2),
        ),
        wide_elements(packed(symbols, 2)) == wide_values(symbols),
{
    let weights = inputs[0].bytes;
    let bits = inputs[1].bytes;
    lemma_log_complete(weights, 65_536, 20, "huffman_struct_v2"@);
    let log = huffman_log(weights, 65_536, 20, "huffman_struct_v2"@)->Ok_0 as nat;
    let count = symbols.len();
    assert(header.skip(1) =~= header.subrange(1, header.len() as int));
    assert(bits.skip(0) =~= bits);
    lemma_packed_wide(weights, symbols);
    if header[0] % 2 == 1 {
        lemma_four_found(weights, log, bits, count, 0, 0, Seq::empty(), symbols);
        assert(Seq::<u64>::empty() + symbols =~= symbols);
    } else {
        let len = size_at(bits, 4);
        let size = size_at(bits, 0);
        let values = wide_values(symbols);
        assert(streams_hold(weights, log, bits.skip(8 + len as int), 0, values.skip(size as int)));
        assert(bits.skip(8 + len as int).len() == bits.len() - 8 - len);
        assert(values.skip(size as int).len() == count - size);
        assert(values.take(size as int) =~= values);
        law_wide_stream_round_trip(weights, log, bits.subrange(8, bits.len() as int), symbols);
    }
}

/// Whether some bytes were written as their code words in four streams behind the sizes of
/// the first three: a quarter of the bytes, rounded up, in each of them, and what is left in
/// the last.
pub open spec fn quarters_hold(weights: Seq<u8>, log: nat, data: Seq<u8>, bytes: Seq<u8>) -> bool {
    let quarter = (bytes.len() as int + 3) / 4;
    let second = 6 + le_value(data.subrange(0, 2)) as int;
    let third = second + le_value(data.subrange(2, 4));
    let fourth = third + le_value(data.subrange(4, 6));
    &&& 6 <= data.len()
    &&& fourth <= data.len()
    &&& 3 * quarter < bytes.len()
    &&& stream_holds(weights, log, data.subrange(6, second), bytes.subrange(0, quarter))
    &&& stream_holds(
        weights,
        log,
        data.subrange(second, third),
        bytes.subrange(quarter, 2 * quarter),
    )
    &&& stream_holds(
        weights,
        log,
        data.subrange(third, fourth),
        bytes.subrange(2 * quarter, 3 * quarter),
    )
    &&& stream_holds(
        weights,
        log,
        data.subrange(fourth, data.len() as int),
        bytes.subrange(3 * quarter, bytes.len() as int),
    )
}

/// Whether a stream is the code words of some bytes, with a mark behind the last bit.
pub open spec fn stream_holds(weights: Seq<u8>, log: nat, data: Seq<u8>, bytes: Seq<u8>) -> bool {
    &&& data.len() > 0
    &&& data.last() != 0
    &&& symbols_coded(weights, byte_values(bytes))
    &&& marked_bits(data) == code_words(weights, log, byte_values(bytes))
}

proof fn lemma_byte_count(table: Seq<(u16, u8)>, log: nat, unread: Seq<bool>, count: nat, symbols: Seq<u8>)
    requires
        symbols.len() <= count,
        byte_symbols_from(table, log, unread, count, symbols) is Some,
    ensures
        byte_symbols_from(table, log, unread, count, symbols)->Some_0.len() == count,
    decreases count - symbols.len(),
{
    if symbols.len() < count {
        let (symbol, bits) = table[next_cell(unread, log) as int];
        lemma_byte_count(
            table,
            log,
            unread.skip(bits as int),
            count,
            symbols.push(symbol as u8),
        );
    }
}

proof fn lemma_stream_holds(weights: Seq<u8>, log: u8, data: Seq<u8>, count: usize)
    requires
        weights_complete(weights, log as nat),
        weights.len() <= 256,
        huffman_stream(huffman_table(weights, log as nat), log, data, count) is Ok,
    ensures
        ({
            let bytes = huffman_stream(huffman_table(weights, log as nat), log, data, count)->Ok_0;
            &&& bytes.len() == count
            &&& stream_holds(weights, log as nat, data, bytes)
        }),
{
    law_byte_stream_holds_code_words(weights, log, data, count);
    lemma_byte_count(
        huffman_table(weights, log as nat),
        log as nat,
        marked_bits(data),
        count as nat,
        Seq::empty(),
    );
}

/// A huffman_v2 node that decodes gives the bytes whose code words its second input holds:
/// in one stream, or in four where the header's first byte is odd. Each byte is a symbol
/// whose weight is not zero, and the header says how many there are.
pub proof fn law_huffman_v2_bits_are_code_words(
    inputs: Seq<StreamView>,
    header: Seq<u8>,
    limits: Limits,
)
    requires
        huffman_v2_node(inputs, header, limits) is Ok,
    ensures
        ({
            let weights = inputs[0].bytes;
            let log = huffman_log(weights, 256, 12, "huffman_v2"@)->Ok_0 as nat;
            let bytes = huffman_v2_node(inputs, header, limits)->Ok_0;
            &&& weights_complete(weights, log)
            &&& bytes.len() == le_value(header.skip(1))
            &&& if header[0] % 2 == 1 {
                quarters_hold(weights, log, inputs[1].bytes, bytes)
            } else {
                stream_holds(weights, log, inputs[1].bytes, bytes)
            }
        }),
{
    let weights = inputs[0].bytes;
    let data = inputs[1].bytes;
    lemma_log_complete(weights, 256, 12, "huffman_v2"@);
    let log = huffman_log(weights, 256, 12, "huffman_v2"@)->Ok_0;
    let table = huffman_table(weights, log as nat);
    let parsed = huffman_header(header, "huffman_v2"@)->Ok_0;
    let count = parsed.output_len;
    assert(header.skip(1) =~= header.subrange(1, header.len() as int));
    if parsed.x4 {
        let quarter = (count as int + 3) / 4;
        let second = 6 + le_value(data.subrange(0, 2)) as int;
        let third = second + le_value(data.subrange(2, 4));
        let fourth = third + le_value(data.subrange(4, 6));
        lemma_stream_holds(weights, log, data.subrange(6, second), quarter as usize);
        lemma_stream_holds(weights, log, data.subrange(second, third), quarter as usize);
        lemma_stream_holds(weights, log, data.subrange(third, fourth), quarter as usize);
        lemma_stream_holds(
            weights,
            log,
            data.subrange(fourth, data.len() as int),
            (count - 3 * quarter) as usize,
        );
        let one = huffman_stream(table, log, data.subrange(6, second), quarter as usize)->Ok_0;
        let two = huffman_stream(table, log, data.subrange(second, third), quarter as usize)->Ok_0;
        let three =
            huffman_stream(table, log, data.subrange(third, fourth), quarter as usize)->Ok_0;
        let four = huffman_stream(
            table,
            log,
            data.subrange(fourth, data.len() as int),
            (count - 3 * quarter) as usize,
        )->Ok_0;
        let bytes = one + two + three + four;
        assert(huffman_four_streams(table, log, data, count)->Ok_0 == bytes);
        assert(bytes.subrange(0, quarter) =~= one);
        assert(bytes.subrange(quarter, 2 * quarter) =~= two);
        assert(bytes.subrange(2 * quarter, 3 * quarter) =~= three);
        assert(bytes.subrange(3 * quarter, bytes.len() as int) =~= four);
    } else {
        lemma_stream_holds(weights, log, data, count);
    }
}

/// Bytes that were written as their code words come back from a huffman_v2 node.
pub proof fn law_huffman_v2_round_trip(
    inputs: Seq<StreamView>,
    header: Seq<u8>,
    limits: Limits,
    bytes: Seq<u8>,
)
    requires
        inputs.len() == 2,
        required_width_error(inputs[0], 1, "huffman_v2 weights"@) is None,
        inputs[1].element_width == 1,
        8 * inputs[1].bytes.len() <= usize::MAX,
        huffman_log(inputs[0].bytes, 256, 12, "huffman_v2"@) is Ok,
        huffman_log(inputs[0].bytes, 256, 12, "huffman_v2"@)->Ok_0 <= 11,
        2 <= header.len() <= 9,
        le_value(header.skip(1)) == bytes.len(),
        2 <= bytes.len() <= isize::MAX,
        limits.admits(bytes.len() as int),
        ({
            let weights = inputs[0].bytes;
            let log = huffman_log(weights, 256, 12, "huffman_v2"@)->Ok_0 as nat;
            if header[0] % 2 == 1 {
                quarters_hold(weights, log, inputs[1].bytes, bytes)
            } else {
                stream_holds(weights, log, inputs[1].bytes, bytes)
            }
        }),
    ensures
        huffman_v2_node(inputs, header, limits) == Ok::<Seq<u8>, ErrorView>(bytes),
{
    let weights = inputs[0].bytes;
    let data = inputs[1].bytes;
    lemma_log_complete(weights, 256, 12, "huffman_v2"@);
    let log = huffman_log(weights, 256, 12, "huffman_v2"@)->Ok_0;
    assert(header.skip(1) =~= header.subrange(1, header.len() as int));
    if header[0] % 2 == 1 {
        let quarter = (bytes.len() as int + 3) / 4;
        let second = 6 + le_value(data.subrange(0, 2)) as int;
        let third = second + le_value(data.subrange(2, 4));
        let fourth = third + le_value(data.subrange(4, 6));
        let one = bytes.subrange(0, quarter);
        let two = bytes.subrange(quarter, 2 * quarter);
        let three = bytes.subrange(2 * quarter, 3 * quarter);
        let four = bytes.subrange(3 * quarter, bytes.len() as int);
        law_byte_stream_round_trip(weights, log, data.subrange(6, second), one);
        law_byte_stream_round_trip(weights, log, data.subrange(second, third), two);
        law_byte_stream_round_trip(weights, log, data.subrange(third, fourth), three);
        law_byte_stream_round_trip(weights, log, data.subrange(fourth, data.len() as int), four);
        assert(one + two + three + four =~= bytes);
    } else {
        law_byte_stream_round_trip(weights, log, data, bytes);
    }
}

} // verus!
