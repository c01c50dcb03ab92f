//! The code words of a PivCo-Huffman tree, and the order of its symbols.

use vstd::prelude::*;

use crate::bits::{bit_length, bit_range, lemma_bit_range_monotone, lemma_bit_range_values};
use crate::huffman::cell_sum;
use crate::pivco_codes::codes_ordered;
use crate::pivco_huffman::{
    flat_leaves, joins, kept_symbols, leaf_ranks_from, least_weight, leaves_of, level_ranks_from,
    pivco_tree, symbols_of, table_log, top_code, tree_ranks_from, Rank,
};

verus! {

/// How many of the first `count` symbols have a weight.
pub open spec fn peers(weights: Seq<u8>, weight: nat, count: nat) -> nat
    decreases count,
{
    if count == 0 {
        0
    } else {
        peers(weights, weight, (count - 1) as nat) + (if weights[count - 1] == weight {
            1nat
        } else {
            0nat
        })
    }
}

/// How many bits choose a symbol inside its leaf, for the symbol at `place` among `count` of
/// one weight: as long as more than two are left, the largest power of two of them that
/// there is leaves at the end and makes a flat leaf.
pub open spec fn joined_depth(count: nat, place: nat) -> nat
    decreases count,
{
    if count <= 2 {
        0
    } else {
        proof {
            lemma_top_bit(count);
        }
        let depth = (bit_length(count) - 1) as nat;
        let rest = (count - bit_range(depth)) as nat;
        if place >= rest {
            depth
        } else {
            joined_depth(rest, place)
        }
    }
}

/// How much of the 2^16 codes of 16 bits the first `count` ranks take: a symbol of weight
/// `w` has a code word of `log + 1 - w` bits.
pub open spec fn codes_taken(weights: Seq<u8>, log: nat, ranks: Seq<Rank>, count: nat) -> nat
    decreases count,
{
    if count == 0 {
        0
    } else {
        codes_taken(weights, log, ranks, (count - 1) as nat) + bit_range(
            (16 - (log + 1 - weights[ranks[count - 1].symbol as int])) as nat,
        )
    }
}

/// Whether the rank at `index` is what its symbol's weight says.
pub open spec fn rank_placed(weights: Seq<u8>, log: nat, ranks: Seq<Rank>, index: int) -> bool {
    let rank = ranks[index];
    let weight = weights[rank.symbol as int] as nat;
    &&& rank.symbol < weights.len()
    &&& weight > 0
    &&& weight + rank.flat_depth <= log + 1
    &&& rank.flat_depth == joined_depth(
        peers(weights, weight, weights.len()),
        peers(weights, weight, rank.symbol as nat),
    )
    &&& rank.codeword == codes_taken(weights, log, ranks, index as nat)
}

/// Whether one rank belongs in front of another: the leaf that is higher up first, then the
/// leaf of fewer symbols, then the smaller symbol.
pub open spec fn goes_first(weights: Seq<u8>, one: Rank, other: Rank) -> bool {
    let high = weights[one.symbol as int] + one.flat_depth;
    let low = weights[other.symbol as int] + other.flat_depth;
    ||| high > low
    ||| high == low && one.flat_depth < other.flat_depth
    ||| high == low && one.flat_depth == other.flat_depth && one.symbol < other.symbol
}

/// The ranks of a tree, as far as they go.
pub open spec fn ranks_placed(weights: Seq<u8>, log: nat, ranks: Seq<Rank>) -> bool {
    &&& forall|i: int| 0 <= i < ranks.len() ==> #[trigger] rank_placed(weights, log, ranks, i)
    &&& forall|i: int, j: int|
        0 <= i < j < ranks.len() ==> goes_first(weights, #[trigger] ranks[i], #[trigger] ranks[j])
}

proof fn lemma_length_of_range(depth: nat)
    ensures
        bit_length(bit_range(depth)) == depth + 1,
    decreases depth,
{
    if depth > 0 {
        lemma_length_of_range((depth - 1) as nat);
        lemma_bit_range_monotone(0, (depth - 1) as nat);
        lemma_bit_range_values();
    } else {
        assert(bit_length(1) == 1 + bit_length(0));
    }
}

pub proof fn lemma_top_bit(value: nat)
    requires
        value > 0,
    ensures
        bit_length(value) > 0,
        0 < bit_range((bit_length(value) - 1) as nat) <= value,
        value < 2 * bit_range((bit_length(value) - 1) as nat),
    decreases value,
{
    lemma_bit_range_values();
    if value == 1 {
        assert(bit_length(1) == 1 + bit_length(0));
    } else {
        lemma_top_bit(value / 2);
        assert(bit_length(value) == 1 + bit_length(value / 2));
    }
}

proof fn lemma_range_add(left: nat, right: nat)
    ensures
        bit_range(left + right) == bit_range(left) * bit_range(right),
    decreases left,
{
    if left == 0 {
        assert(bit_range(0) == 1);
        assert(1 * bit_range(right) == bit_range(right));
    } else {
        lemma_range_add((left - 1) as nat, right);
        assert(2 * (bit_range((left - 1) as nat) * bit_range(right)) == (2 * bit_range(
            (left - 1) as nat,
        )) * bit_range(right)) by (nonlinear_arith);
    }
}

proof fn lemma_symbols_of(weights: Seq<u8>, weight: nat, count: nat)
    requires
        count <= weights.len() <= 256,
    ensures
        symbols_of(weights, weight, count).len() == peers(weights, weight, count),
        forall|i: int|
            0 <= i < symbols_of(weights, weight, count).len() ==> {
                let symbol = #[trigger] symbols_of(weights, weight, count)[i];
                &&& symbol < count
                &&& weights[symbol as int] == weight
                &&& peers(weights, weight, symbol as nat) == i
            },
        forall|i: int, j: int|
            0 <= i < j < symbols_of(weights, weight, count).len() ==> #[trigger] symbols_of(
                weights,
                weight,
                count,
            )[i] < #[trigger] symbols_of(weights, weight, count)[j],
    decreases count,
{
    if count > 0 {
        lemma_symbols_of(weights, weight, (count - 1) as nat);
        let front = symbols_of(weights, weight, (count - 1) as nat);
        let all = symbols_of(weights, weight, count);
        assert forall|i: int| 0 <= i < all.len() implies {
            let symbol = #[trigger] all[i];
            &&& symbol < count
            &&& weights[symbol as int] == weight
            &&& peers(weights, weight, symbol as nat) == i
        } by {
            if i < front.len() {
                assert(all[i] == front[i]);
            }
        }
        assert forall|i: int, j: int| 0 <= i < j < all.len() implies #[trigger] all[i]
            < #[trigger] all[j] by {
            assert(all[i] == front[i]);
            if j < front.len() {
                assert(all[j] == front[j]);
            }
        }
    }
}

proof fn lemma_mod_of_mod(value: nat, small: nat, large: nat)
    requires
        small <= large,
    ensures
        (value % bit_range(large)) % bit_range(small) == value % bit_range(small),
        value % bit_range(small) <= value % bit_range(large),
{
    lemma_range_add((large - small) as nat, small);
    lemma_bit_range_monotone(0, small);
    lemma_bit_range_monotone(0, (large - small) as nat);
    lemma_bit_range_values();
    let a = bit_range(small) as int;
    let b = bit_range((large - small) as nat) as int;
    assert(a * b == b * a) by (nonlinear_arith);
    vstd::arithmetic::div_mod::lemma_mod_breakdown(value as int, a, b);
    let high = (value as int / a) % b;
    vstd::arithmetic::div_mod::lemma_mod_multiples_vanish(high, (value as int) % a, a);
    assert(value as int % (a * b) == a * high + value as int % a);
    assert(a * high >= 0) by (nonlinear_arith)
        requires
            a > 0,
            high >= 0,
    ;
    vstd::arithmetic::div_mod::lemma_mod_twice(value as int, a);
}

/// A symbol that stays a leaf of its own is not joined.
proof fn lemma_kept_depth(count: nat, place: nat)
    requires
        place < kept_symbols(count),
        place < count,
    ensures
        joined_depth(count, place) == 0,
    decreases count,
{
    if count > 2 {
        lemma_top_bit(count);
        let depth = (bit_length(count) - 1) as nat;
        let rest = (count - bit_range(depth)) as nat;
        lemma_bit_range_values();
        if depth < 2 {
            lemma_bit_range_monotone(depth, 1);
            assert(depth == 1);
            assert(count == 3);
            assert(joined_depth(1, place) == 0);
        } else {
            lemma_range_add((depth - 2) as nat, 2);
            let unit = bit_range((depth - 2) as nat);
            assert(bit_range(depth) == unit * 4);
            assert(rest == count - unit * 4);
            assert(rest % 4 == count % 4) by (nonlinear_arith)
                requires
                    rest == count - unit * 4,
            ;
            lemma_kept_below(rest, place);
            lemma_kept_depth(rest, place);
        }
    }
}

proof fn lemma_kept_below(count: nat, place: nat)
    requires
        place < kept_symbols(count),
    ensures
        place < count,
{
}

/// The symbols of a flat leaf are those that are joined to as many.
proof fn lemma_joined_depth(count: nat, depth: nat, place: nat)
    requires
        joins(count, depth),
        count % bit_range(depth) <= place < count % bit_range(depth) + bit_range(depth),
    ensures
        joined_depth(count, place) == depth,
        place < count,
        count % bit_range(depth) + bit_range(depth) <= count,
    decreases count,
{
    lemma_bit_range_values();
    lemma_bit_range_monotone(0, depth);
    lemma_bit_range_monotone(0, depth + 1);
    let unit = bit_range(depth);
    let twice = bit_range(depth + 1);
    lemma_mod_of_mod(count, depth, depth + 1);
    vstd::arithmetic::div_mod::lemma_mod_bound(count as int, twice as int);
    let low = count % twice;
    assert(low <= count) by {
        vstd::arithmetic::div_mod::lemma_mod_decreases(count, twice);
    }
    assert(low % unit == count % unit);
    assert(low - unit < unit);
    assert(low % unit == low - unit) by {
        vstd::arithmetic::div_mod::lemma_small_mod((low - unit) as nat, unit);
        vstd::arithmetic::div_mod::lemma_mod_add_multiples_vanish((low - unit) as int, unit as int);
    }
    lemma_top_bit(count);
    let top = (bit_length(count) - 1) as nat;
    if top < depth {
        lemma_bit_range_monotone(top + 1, depth);
        assert(false);
    } else if top == depth {
        vstd::arithmetic::div_mod::lemma_small_mod(count, twice);
    } else {
        let rest = (count - bit_range(top)) as nat;
        lemma_bit_range_monotone(depth + 1, top);
        assert(rest == count % bit_range(top)) by {
            vstd::arithmetic::div_mod::lemma_small_mod(rest, bit_range(top));
            vstd::arithmetic::div_mod::lemma_mod_add_multiples_vanish(
                rest as int,
                bit_range(top) as int,
            );
        }
        lemma_mod_of_mod(count, depth + 1, top);
        lemma_mod_of_mod(count, depth, top);
        lemma_joined_depth(rest, depth, place);
    }
}

/// How many bits choose a symbol inside a leaf.
spec fn leaf_depth(leaf: Seq<u8>) -> nat {
    (bit_length(leaf.len()) - 1) as nat
}

/// Whether a leaf of a weight holds `2^depth` symbols that are joined to as many, each of a
/// weight less by `depth`, by rising number.
spec fn leaf_fits(weights: Seq<u8>, weight: nat, leaf: Seq<u8>) -> bool {
    let depth = leaf_depth(leaf);
    &&& leaf.len() == bit_range(depth)
    &&& depth < weight
    &&& forall|i: int|
        0 <= i < leaf.len() ==> {
            let symbol = #[trigger] leaf[i];
            &&& symbol < weights.len()
            &&& weights[symbol as int] + depth == weight
            &&& depth == joined_depth(
                peers(weights, (weight - depth) as nat, weights.len()),
                peers(weights, (weight - depth) as nat, symbol as nat),
            )
        }
    &&& forall|i: int, j: int|
        0 <= i < j < leaf.len() ==> #[trigger] leaf[i] < #[trigger] leaf[j]
}

/// Whether one leaf of a weight belongs in front of another.
spec fn leaf_first(one: Seq<u8>, other: Seq<u8>) -> bool {
    ||| leaf_depth(one) < leaf_depth(other)
    ||| leaf_depth(one) == 0 && leaf_depth(other) == 0 && one[0] < other[0]
}

proof fn lemma_flat_leaves(weights: Seq<u8>, weight: nat, below: nat)
    requires
        weights.len() <= 256,
        below < weight,
    ensures
        forall|i: int|
            0 <= i < flat_leaves(weights, weight, below).len() ==> {
                let leaf = #[trigger] flat_leaves(weights, weight, below)[i];
                leaf_fits(weights, weight, leaf) && leaf_depth(leaf) >= weight - below
            },
        forall|i: int, j: int|
            0 <= i < j < flat_leaves(weights, weight, below).len() ==> leaf_first(
                #[trigger] flat_leaves(weights, weight, below)[i],
                #[trigger] flat_leaves(weights, weight, below)[j],
            ),
    decreases below,
{
    let all = flat_leaves(weights, weight, below);
    if below > 0 {
        let rest = flat_leaves(weights, weight, (below - 1) as nat);
        lemma_flat_leaves(weights, weight, (below - 1) as nat);
        let symbols = symbols_of(weights, below, weights.len());
        lemma_symbols_of(weights, below, weights.len());
        let depth = (weight - below) as nat;
        if joins(symbols.len(), depth) {
            let start = symbols.len() % bit_range(depth);
            let unit = bit_range(depth);
            lemma_bit_range_monotone(0, depth);
            lemma_bit_range_values();
            lemma_joined_depth(symbols.len(), depth, start);
            let leaf = symbols.subrange(start as int, (start + unit) as int);
            lemma_length_of_range(depth);
            assert(leaf_depth(leaf) == depth);
            assert forall|i: int| 0 <= i < leaf.len() implies {
                let symbol = #[trigger] leaf[i];
                &&& symbol < weights.len()
                &&& weights[symbol as int] + depth == weight
                &&& depth == joined_depth(
                    peers(weights, (weight - depth) as nat, weights.len()),
                    peers(weights, (weight - depth) as nat, symbol as nat),
                )
            } by {
                assert(leaf[i] == symbols[start + i]);
                lemma_joined_depth(symbols.len(), depth, (start + i) as nat);
            }
            assert forall|i: int, j: int| 0 <= i < j < leaf.len() implies #[trigger] leaf[i]
                < #[trigger] leaf[j] by {
                assert(leaf[i] == symbols[start + i]);
                assert(leaf[j] == symbols[start + j]);
            }
            assert(leaf_fits(weights, weight, leaf));
            assert(all == seq![leaf] + rest);
            assert forall|i: int| 0 <= i < all.len() implies {
                let leaf = #[trigger] all[i];
                leaf_fits(weights, weight, leaf) && leaf_depth(leaf) >= weight - below
            } by {
                if i > 0 {
                    assert(all[i] == rest[i - 1]);
                }
            }
            assert forall|i: int, j: int| 0 <= i < j < all.len() implies leaf_first(
                #[trigger] all[i],
                #[trigger] all[j],
            ) by {
                assert(all[j] == rest[j - 1]);
                if i > 0 {
                    assert(all[i] == rest[i - 1]);
                }
            }
        }
    }
}

proof fn lemma_leaves_of(weights: Seq<u8>, weight: nat)
    requires
        weights.len() <= 256,
        weight > 0,
    ensures
        forall|i: int|
            0 <= i < leaves_of(weights, weight).len() ==> leaf_fits(
                weights,
                weight,
                #[trigger] leaves_of(weights, weight)[i],
            ),
        forall|i: int, j: int|
            0 <= i < j < leaves_of(weights, weight).len() ==> leaf_first(
                #[trigger] leaves_of(weights, weight)[i],
                #[trigger] leaves_of(weights, weight)[j],
            ),
{
    let symbols = symbols_of(weights, weight, weights.len());
    lemma_symbols_of(weights, weight, weights.len());
    let flat = flat_leaves(weights, weight, (weight - 1) as nat);
    lemma_flat_leaves(weights, weight, (weight - 1) as nat);
    let kept = kept_symbols(symbols.len());
    let all = leaves_of(weights, weight);
    lemma_bit_range_values();
    lemma_length_of_range(0);
    assert forall|i: int| 0 <= i < all.len() implies leaf_fits(weights, weight, #[trigger] all[i])
        by {
        if i < kept {
            lemma_kept_below(symbols.len(), i as nat);
            lemma_kept_depth(symbols.len(), i as nat);
            assert(all[i] == seq![symbols[i]]);
            assert(all[i].len() == 1);
            assert(all[i][0] == symbols[i]);
        } else {
            assert(all[i] == flat[i - kept]);
        }
    }
    assert forall|i: int, j: int| 0 <= i < j < all.len() implies leaf_first(
        #[trigger] all[i],
        #[trigger] all[j],
    ) by {
        if i < kept {
            assert(all[i] == seq![symbols[i]]);
            assert(all[i].len() == 1);
            if j < kept {
                lemma_kept_below(symbols.len(), j as nat);
                assert(all[j] == seq![symbols[j]]);
                assert(all[j].len() == 1);
                assert(symbols[i] < symbols[j]);
            } else {
                assert(all[j] == flat[j - kept]);
            }
        } else {
            assert(all[i] == flat[i - kept]);
            assert(all[j] == flat[j - kept]);
        }
    }
}

proof fn lemma_leaf_count(
    leaf: Seq<u8>,
    codeword: nat,
    depth: nat,
    total: nat,
    index: nat,
    ranks: Seq<Rank>,
)
    requires
        index <= leaf.len(),
        leaf_ranks_from(leaf, codeword, depth, total, index, ranks) is Ok,
    ensures
        leaf_ranks_from(leaf, codeword, depth, total, index, ranks)->Ok_0.len() == ranks.len()
            + leaf.len() - index,
    decreases leaf.len() - index,
{
    if index < leaf.len() {
        let code = top_code(codeword, depth, index, total)->Ok_0;
        lemma_leaf_count(
            leaf,
            codeword,
            depth,
            total,
            index + 1,
            ranks.push(
                Rank { symbol: leaf[index as int], flat_depth: depth as u8, codeword: code },
            ),
        );
    }
}

proof fn lemma_level_count(
    leaves: Seq<Seq<u8>>,
    level: nat,
    index: nat,
    codeword: nat,
    ranks: Seq<Rank>,
)
    requires
        index <= leaves.len(),
        level_ranks_from(leaves, level, index, codeword, ranks) is Ok,
    ensures
        ({
            let (next, more) = level_ranks_from(leaves, level, index, codeword, ranks)->Ok_0;
            &&& next == codeword + leaves.len() - index
            &&& more.len() >= ranks.len() + leaves.len() - index
        }),
    decreases leaves.len() - index,
{
    if index < leaves.len() {
        let leaf = leaves[index as int];
        let depth = leaf_depth(leaf);
        lemma_leaf_count(leaf, codeword, depth, level + depth, 0, ranks);
        let more = leaf_ranks_from(leaf, codeword, depth, level + depth, 0, ranks)->Ok_0;
        lemma_level_count(leaves, level, index + 1, codeword + 1, more);
    }
}

/// The level whose codes the code behind some levels counts.
spec fn code_level(level: nat, levels: nat) -> nat {
    if level < levels {
        level
    } else {
        (levels - 1) as nat
    }
}

/// A tree that comes out complete never runs out of codes on the way.
proof fn lemma_tree_bound(
    weights: Seq<u8>,
    log: nat,
    levels: nat,
    level: nat,
    codeword: nat,
    ranks: Seq<Rank>,
)
    requires
        1 <= levels <= 14,
        level <= levels,
        codeword <= ranks.len() * bit_range(code_level(level, levels)),
        tree_ranks_from(weights, log, levels, level, codeword, ranks) is Ok,
    ensures
        ranks.len() <= tree_ranks_from(weights, log, levels, level, codeword, ranks)->Ok_0.len()
            <= 256,
        codeword <= bit_range(code_level(level, levels)),
    decreases levels - level,
{
    if level < levels {
        let leaves = leaves_of(weights, (log + 1 - level) as nat);
        lemma_level_count(leaves, level, 0, codeword, ranks);
        let (next, more) = level_ranks_from(leaves, level, 0, codeword, ranks)->Ok_0;
        let unit = bit_range(level);
        lemma_bit_range_monotone(0, level);
        lemma_bit_range_values();
        assert(next <= more.len() * unit) by (nonlinear_arith)
            requires
                next == codeword + leaves.len(),
                codeword <= ranks.len() * unit,
                more.len() >= ranks.len() + leaves.len(),
                unit >= 1,
        ;
        let code = if level + 1 < levels {
            next * 2 % 0x1_0000_0000
        } else {
            next
        };
        assert(more.len() * (2 * unit) == 2 * (more.len() * unit)) by (nonlinear_arith);
        assert(next * 2 % 0x1_0000_0000 <= next * 2);
        lemma_tree_bound(weights, log, levels, level + 1, code, more);
        lemma_bit_range_monotone(level, 16);
        assert(more.len() * unit <= 256 * 0x1_0000) by (nonlinear_arith)
            requires
                more.len() <= 256,
                unit <= 0x1_0000,
        ;
        if level + 1 < levels {
            assert(code == next * 2);
        }
    }
}

/// The ranks of a tree, as far as they go, up to a code of 16 bits.
spec fn placed_to(weights: Seq<u8>, log: nat, ranks: Seq<Rank>, code: nat) -> bool {
    &&& ranks_placed(weights, log, ranks)
    &&& codes_taken(weights, log, ranks, ranks.len()) == code
}

proof fn lemma_taken_prefix(
    weights: Seq<u8>,
    log: nat,
    ranks: Seq<Rank>,
    longer: Seq<Rank>,
    count: nat,
)
    requires
        count <= ranks.len() <= longer.len(),
        forall|i: int| 0 <= i < ranks.len() ==> longer[i] == #[trigger] ranks[i],
    ensures
        codes_taken(weights, log, ranks, count) == codes_taken(weights, log, longer, count),
    decreases count,
{
    if count > 0 {
        lemma_taken_prefix(weights, log, ranks, longer, (count - 1) as nat);
        assert(longer[count - 1] == ranks[count - 1]);
    }
}

/// Adding a rank behind all others, at the next code.
proof fn lemma_place(weights: Seq<u8>, log: nat, ranks: Seq<Rank>, code: nat, rank: Rank)
    requires
        placed_to(weights, log, ranks, code),
        rank.symbol < weights.len(),
        weights[rank.symbol as int] > 0,
        weights[rank.symbol as int] + rank.flat_depth <= log + 1,
        rank.flat_depth == joined_depth(
            peers(weights, weights[rank.symbol as int] as nat, weights.len()),
            peers(weights, weights[rank.symbol as int] as nat, rank.symbol as nat),
        ),
        rank.codeword == code,
        forall|i: int| 0 <= i < ranks.len() ==> goes_first(weights, #[trigger] ranks[i], rank),
    ensures
        placed_to(
            weights,
            log,
            ranks.push(rank),
            code + bit_range((16 - (log + 1 - weights[rank.symbol as int])) as nat),
        ),
{
    let longer = ranks.push(rank);
    assert forall|i: int| 0 <= i < longer.len() implies #[trigger] rank_placed(
        weights,
        log,
        longer,
        i,
    ) by {
        lemma_taken_prefix(weights, log, ranks, longer, i as nat);
        if i < ranks.len() {
            assert(rank_placed(weights, log, ranks, i));
        }
    }
    lemma_taken_prefix(weights, log, ranks, longer, ranks.len());
}

/// Whether some ranks all stand in front of the symbol at `index` of a leaf.
spec fn ranks_first(
    weights: Seq<u8>,
    ranks: Seq<Rank>,
    leaf: Seq<u8>,
    index: nat,
) -> bool {
    forall|i: int, j: int|
        #![trigger ranks[i], leaf[j]]
        0 <= i < ranks.len() && index <= j < leaf.len() ==> goes_first(
            weights,
            ranks[i],
            Rank { symbol: leaf[j], flat_depth: leaf_depth(leaf) as u8, codeword: 0 },
        )
}

/// The code of a symbol of a leaf, in its top bits.
proof fn lemma_leaf_code(level: nat, depth: nat, codeword: nat, index: nat)
    requires
        level + depth <= 16,
        codeword + 1 <= bit_range(level),
        index < bit_range(depth),
        top_code(codeword, depth, index, level + depth) is Ok,
    ensures
        top_code(codeword, depth, index, level + depth)->Ok_0 == (codeword * bit_range(depth)
            + index) * bit_range((16 - (level + depth)) as nat),
{
    let total = level + depth;
    let unit = bit_range((16 - total) as nat);
    let size = bit_range(depth);
    lemma_range_add(level, depth);
    lemma_range_add(total, (16 - total) as nat);
    lemma_bit_range_values();
    lemma_bit_range_monotone(0, (16 - total) as nat);
    lemma_bit_range_monotone(total, 16);
    let bits = codeword * size + index;
    assert(codeword * size + size <= bit_range(level) * size) by (nonlinear_arith)
        requires
            codeword + 1 <= bit_range(level),
    ;
    assert(bits + 1 <= bit_range(total));
    assert(bits * unit + unit <= bit_range(total) * unit) by (nonlinear_arith)
        requires
            bits + 1 <= bit_range(total),
    ;
    assert(bits * unit < 0x1_0000);
    if total == 0 {
        assert(bits == 0);
        assert(bits * unit == 0) by (nonlinear_arith)
            requires
                bits == 0,
        ;
    }
}

#[verifier::rlimit(60)]
proof fn lemma_leaf_codes(
    weights: Seq<u8>,
    log: nat,
    level: nat,
    leaf: Seq<u8>,
    codeword: nat,
    index: nat,
    ranks: Seq<Rank>,
)
    requires
        index <= leaf.len(),
        log <= 12,
        level <= log,
        leaf_fits(weights, (log + 1 - level) as nat, leaf),
        level + leaf_depth(leaf) <= 16,
        codeword + 1 <= bit_range(level),
        leaf_ranks_from(
            leaf,
            codeword,
            leaf_depth(leaf),
            level + leaf_depth(leaf),
            index,
            ranks,
        ) is Ok,
        placed_to(
            weights,
            log,
            ranks,
            (codeword * bit_range(leaf_depth(leaf)) + index) * bit_range(
                (16 - (level + leaf_depth(leaf))) as nat,
            ),
        ),
        ranks_first(weights, ranks, leaf, index),
    ensures
        ({
            let more = leaf_ranks_from(
                leaf,
                codeword,
                leaf_depth(leaf),
                level + leaf_depth(leaf),
                index,
                ranks,
            )->Ok_0;
            &&& placed_to(
                weights,
                log,
                more,
                (codeword + 1) * bit_range((16 - level) as nat),
            )
            &&& more.len() == ranks.len() + leaf.len() - index
            &&& forall|i: int| 0 <= i < ranks.len() ==> #[trigger] more[i] == ranks[i]
            &&& forall|i: int|
                ranks.len() <= i < more.len() ==> (#[trigger] more[i]).flat_depth == leaf_depth(
                    leaf,
                ) && more[i].symbol == leaf[i - ranks.len() + index]
        }),
    decreases leaf.len() - index,
{
    let depth = leaf_depth(leaf);
    let total = level + depth;
    let unit = bit_range((16 - total) as nat);
    let size = bit_range(depth);
    lemma_range_add(depth, (16 - total) as nat);
    assert((depth + (16 - total)) as nat == (16 - level) as nat);
    if index == leaf.len() {
        assert((codeword * size + size) * unit == (codeword + 1) * (size * unit))
            by (nonlinear_arith);
    } else {
        let bits = codeword * size + index;
        lemma_leaf_code(level, depth, codeword, index);
        let code = top_code(codeword, depth, index, total)->Ok_0;
        let rank = Rank { symbol: leaf[index as int], flat_depth: depth as u8, codeword: code };
        assert(depth <= 16);
        assert forall|i: int| 0 <= i < ranks.len() implies goes_first(
            weights,
            #[trigger] ranks[i],
            rank,
        ) by {
            assert(goes_first(
                weights,
                ranks[i],
                Rank { symbol: leaf[index as int], flat_depth: depth as u8, codeword: 0 },
            ));
        }
        lemma_place(weights, log, ranks, bits * unit, rank);
        assert((16 - (log + 1 - weights[rank.symbol as int])) as nat == (16 - total) as nat);
        assert(bits * unit + unit == (codeword * size + (index + 1)) * unit) by (nonlinear_arith)
            requires
                bits == codeword * size + index,
        ;
        let longer = ranks.push(rank);
        assert forall|i: int, j: int|
            #![trigger longer[i], leaf[j]]
            0 <= i < longer.len() && index + 1 <= j < leaf.len() implies goes_first(
            weights,
            longer[i],
            Rank { symbol: leaf[j], flat_depth: leaf_depth(leaf) as u8, codeword: 0 },
        ) by {
            if i < ranks.len() {
                assert(longer[i] == ranks[i]);
            } else {
                assert(leaf[index as int] < leaf[j]);
            }
        }
        lemma_leaf_codes(weights, log, level, leaf, codeword, index + 1, longer);
    }
}

/// Whether some ranks all stand in front of the leaves from `index` on.
spec fn ranks_before_leaves(
    weights: Seq<u8>,
    ranks: Seq<Rank>,
    leaves: Seq<Seq<u8>>,
    index: nat,
) -> bool {
    forall|k: int|
        index <= k < leaves.len() ==> ranks_first(weights, ranks, #[trigger] leaves[k], 0)
}

proof fn lemma_level_codes(
    weights: Seq<u8>,
    log: nat,
    level: nat,
    leaves: Seq<Seq<u8>>,
    index: nat,
    codeword: nat,
    ranks: Seq<Rank>,
)
    requires
        index <= leaves.len(),
        log <= 12,
        level <= log,
        forall|i: int|
            0 <= i < leaves.len() ==> leaf_fits(
                weights,
                (log + 1 - level) as nat,
                #[trigger] leaves[i],
            ),
        forall|i: int, j: int|
            0 <= i < j < leaves.len() ==> leaf_first(#[trigger] leaves[i], #[trigger] leaves[j]),
        codeword + leaves.len() - index <= bit_range(level),
        level_ranks_from(leaves, level, index, codeword, ranks) is Ok,
        placed_to(weights, log, ranks, codeword * bit_range((16 - level) as nat)),
        ranks_before_leaves(weights, ranks, leaves, index),
        forall|i: int|
            0 <= i < ranks.len() ==> weights[(#[trigger] ranks[i]).symbol as int]
                + ranks[i].flat_depth >= log + 1 - level,
    ensures
        ({
            let (next, more) = level_ranks_from(leaves, level, index, codeword, ranks)->Ok_0;
            &&& placed_to(weights, log, more, next * bit_range((16 - level) as nat))
            &&& forall|i: int|
                0 <= i < more.len() ==> weights[(#[trigger] more[i]).symbol as int]
                    + more[i].flat_depth >= log + 1 - level
        }),
    decreases leaves.len() - index,
{
    if index < leaves.len() {
        let leaf = leaves[index as int];
        let depth = leaf_depth(leaf);
        let total = level + depth;
        let size = bit_range(depth);
        let unit = bit_range((16 - total) as nat);
        lemma_range_add(depth, (16 - total) as nat);
        assert((depth + (16 - total)) as nat == (16 - level) as nat);
        assert(codeword * (size * unit) == (codeword * size + 0) * unit) by (nonlinear_arith);
        lemma_leaf_codes(weights, log, level, leaf, codeword, 0, ranks);
        let more = leaf_ranks_from(leaf, codeword, depth, total, 0, ranks)->Ok_0;
        assert(depth <= 16);
        assert forall|k: int| index + 1 <= k < leaves.len() implies ranks_first(
            weights,
            more,
            #[trigger] leaves[k],
            0,
        ) by {
            let other = leaves[k];
            assert(leaf_first(leaf, other));
            assert(leaf_fits(weights, (log + 1 - level) as nat, other));
            assert(ranks_first(weights, ranks, other, 0));
            assert forall|i: int, j: int|
                #![trigger more[i], other[j]]
                0 <= i < more.len() && 0 <= j < other.len() implies goes_first(
                weights,
                more[i],
                Rank { symbol: other[j], flat_depth: leaf_depth(other) as u8, codeword: 0 },
            ) by {
                if i < ranks.len() {
                    assert(more[i] == ranks[i]);
                    assert(goes_first(
                        weights,
                        ranks[i],
                        Rank { symbol: other[j], flat_depth: leaf_depth(other) as u8, codeword: 0 },
                    ));
                } else {
                    let place = i - ranks.len();
                    assert(more[i].symbol == leaf[place]);
                    assert(leaf_depth(other) <= 13);
                    if leaf_depth(other) == 0 {
                        lemma_bit_range_values();
                        assert(place == 0);
                        assert(j == 0);
                    }
                }
            }
        }
        assert forall|i: int| 0 <= i < more.len() implies weights[(
        #[trigger] more[i]).symbol as int] + more[i].flat_depth >= log + 1 - level by {
            if i < ranks.len() {
                assert(more[i] == ranks[i]);
            } else {
                assert(more[i].symbol == leaf[i - ranks.len()]);
            }
        }
        lemma_level_codes(weights, log, level, leaves, index + 1, codeword + 1, more);
    }
}

proof fn lemma_tree_codes(
    weights: Seq<u8>,
    log: nat,
    levels: nat,
    level: nat,
    codeword: nat,
    ranks: Seq<Rank>,
)
    requires
        weights.len() <= 256,
        1 <= levels <= log + 1 <= 13,
        level <= levels,
        codeword <= ranks.len() * bit_range(code_level(level, levels)),
        tree_ranks_from(weights, log, levels, level, codeword, ranks) is Ok,
        placed_to(
            weights,
            log,
            ranks,
            codeword * bit_range((16 - code_level(level, levels)) as nat),
        ),
        forall|i: int|
            0 <= i < ranks.len() ==> weights[(#[trigger] ranks[i]).symbol as int]
                + ranks[i].flat_depth > log + 1 - level,
    ensures
        placed_to(
            weights,
            log,
            tree_ranks_from(weights, log, levels, level, codeword, ranks)->Ok_0,
            bit_range(16),
        ),
    decreases levels - level,
{
    if level >= levels {
        let last = (levels - 1) as nat;
        lemma_range_add(last, (16 - last) as nat);
    } else {
        let weight = (log + 1 - level) as nat;
        let leaves = leaves_of(weights, weight);
        lemma_leaves_of(weights, weight);
        lemma_level_count(leaves, level, 0, codeword, ranks);
        let (next, more) = level_ranks_from(leaves, level, 0, codeword, ranks)->Ok_0;
        let code = if level + 1 < levels {
            next * 2 % 0x1_0000_0000
        } else {
            next
        };
        let unit = bit_range(level);
        lemma_bit_range_monotone(0, level);
        lemma_bit_range_values();
        assert(next <= more.len() * unit) by (nonlinear_arith)
            requires
                next == codeword + leaves.len(),
                codeword <= ranks.len() * unit,
                more.len() >= ranks.len() + leaves.len(),
                unit >= 1,
        ;
        assert(more.len() * (2 * unit) == 2 * (more.len() * unit)) by (nonlinear_arith);
        assert(next * 2 % 0x1_0000_0000 <= next * 2);
        lemma_tree_bound(weights, log, levels, level + 1, code, more);
        lemma_bit_range_monotone(level, 16);
        assert(more.len() * unit <= 256 * 0x1_0000) by (nonlinear_arith)
            requires
                more.len() <= 256,
                unit <= 0x1_0000,
        ;
        if level + 1 < levels {
            assert(code == next * 2);
        }
        assert(next <= bit_range(level));
        assert forall|k: int| 0 <= k < leaves.len() implies ranks_first(
            weights,
            ranks,
            #[trigger] leaves[k],
            0,
        ) by {
            let other = leaves[k];
            assert(leaf_fits(weights, weight, other));
            assert(leaf_depth(other) <= 13);
            assert forall|i: int, j: int|
                #![trigger ranks[i], other[j]]
                0 <= i < ranks.len() && 0 <= j < other.len() implies goes_first(
                weights,
                ranks[i],
                Rank { symbol: other[j], flat_depth: leaf_depth(other) as u8, codeword: 0 },
            ) by {
                assert(weights[other[j] as int] + leaf_depth(other) == weight);
            }
        }
        lemma_level_codes(weights, log, level, leaves, 0, codeword, ranks);
        let half = bit_range((16 - (level + 1)) as nat);
        assert(bit_range((16 - level) as nat) == 2 * half);
        assert(next * (2 * half) == (next * 2) * half) by (nonlinear_arith);
        lemma_tree_codes(weights, log, levels, level + 1, code, more);
    }
}

/// The tree of weights has its symbols by level, then by the size of their leaf, then by
/// number; each code word starts where those in front of it end, has the length that the
/// symbol's weight says, and together they take all codes there are.
pub proof fn law_tree_has_canonical_codes(weights: Seq<u8>)
    requires
        pivco_tree(weights) is Ok,
    ensures
        ({
            let (ranks, levels) = pivco_tree(weights)->Ok_0;
            let log = table_log(weights)->Ok_0 as nat;
            &&& log <= 12
            &&& 1 <= levels <= log + 1
            &&& 0 < ranks.len() <= 256
            &&& cell_sum(weights, weights.len()) == bit_range(log)
            &&& ranks_placed(weights, log, ranks)
            &&& codes_taken(weights, log, ranks, ranks.len()) == bit_range(16)
            &&& codes_ordered(ranks)
        }),
{
    let (ranks, levels) = pivco_tree(weights)->Ok_0;
    let log = table_log(weights)->Ok_0 as nat;
    let none = Seq::<Rank>::empty();
    let least = least_weight(weights, 1)->Some_0;
    lemma_least(weights, 1);
    lemma_top_bit(cell_sum(weights, weights.len()));
    assert(0 * bit_range(16) == 0);
    lemma_tree_bound(weights, log, levels, 0, 0, none);
    lemma_tree_codes(weights, log, levels, 0, 0, none);
    assert forall|i: int, j: int| 0 <= i <= j < ranks.len() implies (#[trigger] ranks[i]).codeword
        <= (#[trigger] ranks[j]).codeword by {
        assert(rank_placed(weights, log, ranks, i));
        assert(rank_placed(weights, log, ranks, j));
        lemma_taken_up(weights, log, ranks, i as nat, j as nat);
    }
}

proof fn lemma_least(weights: Seq<u8>, weight: nat)
    requires
        least_weight(weights, weight) is Some,
    ensures
        least_weight(weights, weight)->Some_0 >= weight,
    decreases 14 - weight,
{
    if weight <= 13 && leaves_of(weights, weight).len() == 0 {
        lemma_least(weights, weight + 1);
    }
}

proof fn lemma_taken_up(weights: Seq<u8>, log: nat, ranks: Seq<Rank>, small: nat, large: nat)
    requires
        small <= large,
    ensures
        codes_taken(weights, log, ranks, small) <= codes_taken(weights, log, ranks, large),
    decreases large,
{
    if small < large {
        lemma_taken_up(weights, log, ranks, small, (large - 1) as nat);
    }
}

/// How much of the codes of 16 bits one symbol takes.
spec fn symbol_codes(weights: Seq<u8>, log: nat, symbol: nat) -> nat {
    bit_range((16 - (log + 1 - weights[symbol as int])) as nat)
}

/// How much the first `count` symbols take.
spec fn all_codes(weights: Seq<u8>, log: nat, count: nat) -> nat
    decreases count,
{
    if count == 0 {
        0
    } else {
        all_codes(weights, log, (count - 1) as nat) + (if weights[count - 1] > 0 {
            symbol_codes(weights, log, (count - 1) as nat)
        } else {
            0
        })
    }
}

/// How much the ranks among the first `count` take whose symbol is below a bound.
spec fn codes_below(weights: Seq<u8>, log: nat, ranks: Seq<Rank>, count: nat, bound: nat) -> nat
    decreases count,
{
    if count == 0 {
        0
    } else {
        codes_below(weights, log, ranks, (count - 1) as nat, bound) + (if ranks[count - 1].symbol
            < bound {
            symbol_codes(weights, log, ranks[count - 1].symbol as nat)
        } else {
            0
        })
    }
}

proof fn lemma_all_codes(weights: Seq<u8>, log: nat, count: nat)
    requires
        log <= 16,
        count <= weights.len(),
        forall|i: int| 0 <= i < weights.len() ==> (#[trigger] weights[i]) <= log + 1,
    ensures
        all_codes(weights, log, count) == cell_sum(weights, count) * bit_range((16 - log) as nat),
    decreases count,
{
    let unit = bit_range((16 - log) as nat);
    if count == 0 {
        assert(0 * unit == 0);
    } else {
        lemma_all_codes(weights, log, (count - 1) as nat);
        let weight = weights[count - 1] as nat;
        let front = cell_sum(weights, (count - 1) as nat);
        if weight > 0 {
            lemma_range_add((weight - 1) as nat, (16 - log) as nat);
            assert((front + bit_range((weight - 1) as nat)) * unit == front * unit + bit_range(
                (weight - 1) as nat,
            ) * unit) by (nonlinear_arith);
            assert((16 - (log + 1 - weight)) as nat == (weight - 1) as nat + (16 - log) as nat);
        }
    }
}

proof fn lemma_codes_below(
    weights: Seq<u8>,
    log: nat,
    ranks: Seq<Rank>,
    count: nat,
    bound: nat,
)
    requires
        count <= ranks.len(),
        forall|i: int, j: int|
            0 <= i < j < ranks.len() ==> (#[trigger] ranks[i]).symbol != (
            #[trigger] ranks[j]).symbol,
    ensures
        codes_below(weights, log, ranks, count, bound + 1) <= codes_below(
            weights,
            log,
            ranks,
            count,
            bound,
        ) + symbol_codes(weights, log, bound),
        (forall|i: int| 0 <= i < count ==> (#[trigger] ranks[i]).symbol != bound) ==> codes_below(
            weights,
            log,
            ranks,
            count,
            bound + 1,
        ) == codes_below(weights, log, ranks, count, bound),
        codes_below(weights, log, ranks, count, 0) == 0,
    decreases count,
{
    if count > 0 {
        lemma_codes_below(weights, log, ranks, (count - 1) as nat, bound);
        if ranks[count - 1].symbol == bound {
            assert forall|i: int| 0 <= i < count - 1 implies (#[trigger] ranks[i]).symbol
                != bound by {
                assert(ranks[i].symbol != ranks[count - 1].symbol);
            }
        }
    }
}

proof fn lemma_codes_within(
    weights: Seq<u8>,
    log: nat,
    ranks: Seq<Rank>,
    bound: nat,
    missing: nat,
)
    requires
        bound <= weights.len() <= 256,
        forall|i: int, j: int|
            0 <= i < j < ranks.len() ==> (#[trigger] ranks[i]).symbol != (
            #[trigger] ranks[j]).symbol,
        forall|i: int|
            0 <= i < ranks.len() ==> (#[trigger] ranks[i]).symbol < weights.len()
                && weights[ranks[i].symbol as int] > 0,
        forall|i: int| 0 <= i < ranks.len() ==> (#[trigger] ranks[i]).symbol != missing,
        missing < weights.len(),
        weights[missing as int] > 0,
    ensures
        codes_below(weights, log, ranks, ranks.len(), bound) + (if missing < bound {
            symbol_codes(weights, log, missing)
        } else {
            0
        }) <= all_codes(weights, log, bound),
    decreases bound,
{
    if bound == 0 {
        lemma_codes_below(weights, log, ranks, ranks.len(), 0);
    } else {
        let last = (bound - 1) as nat;
        lemma_codes_within(weights, log, ranks, last, missing);
        lemma_codes_below(weights, log, ranks, ranks.len(), last);
        if weights[last as int] == 0 {
            assert(forall|i: int| 0 <= i < ranks.len() ==> (#[trigger] ranks[i]).symbol != last);
        }
    }
}

proof fn lemma_below_all(weights: Seq<u8>, log: nat, ranks: Seq<Rank>, count: nat)
    requires
        count <= ranks.len(),
        forall|i: int|
            0 <= i < ranks.len() ==> (#[trigger] ranks[i]).symbol < weights.len(),
    ensures
        codes_below(weights, log, ranks, count, weights.len()) == codes_taken(
            weights,
            log,
            ranks,
            count,
        ),
    decreases count,
{
    if count > 0 {
        lemma_below_all(weights, log, ranks, (count - 1) as nat);
        assert(ranks[count - 1].symbol < weights.len());
    }
}

/// No symbol has two ranks in the tree of weights.
pub proof fn law_ranks_have_different_symbols(weights: Seq<u8>, one: int, other: int)
    requires
        pivco_tree(weights) is Ok,
        0 <= one < other < pivco_tree(weights)->Ok_0.0.len(),
    ensures
        pivco_tree(weights)->Ok_0.0[one].symbol != pivco_tree(weights)->Ok_0.0[other].symbol,
{
    law_tree_has_canonical_codes(weights);
    let (ranks, levels) = pivco_tree(weights)->Ok_0;
    let log = table_log(weights)->Ok_0 as nat;
    assert(rank_placed(weights, log, ranks, one));
    assert(rank_placed(weights, log, ranks, other));
    assert(goes_first(weights, ranks[one], ranks[other]));
}

/// Every symbol whose weight is not zero has a rank in the tree of weights.
pub proof fn law_used_symbols_have_a_rank(weights: Seq<u8>, symbol: u8) -> (index: nat)
    requires
        pivco_tree(weights) is Ok,
        symbol < weights.len(),
        weights[symbol as int] > 0,
    ensures
        index < pivco_tree(weights)->Ok_0.0.len(),
        pivco_tree(weights)->Ok_0.0[index as int].symbol == symbol,
{
    law_tree_has_canonical_codes(weights);
    let (ranks, levels) = pivco_tree(weights)->Ok_0;
    let log = table_log(weights)->Ok_0 as nat;
    if forall|i: int| 0 <= i < ranks.len() ==> (#[trigger] ranks[i]).symbol != symbol {
        assert forall|i: int, j: int| 0 <= i < j < ranks.len() implies (
        #[trigger] ranks[i]).symbol != (#[trigger] ranks[j]).symbol by {
            law_ranks_have_different_symbols(weights, i, j);
        }
        assert forall|i: int| 0 <= i < ranks.len() implies (#[trigger] ranks[i]).symbol
            < weights.len() && weights[ranks[i].symbol as int] > 0 by {
            assert(rank_placed(weights, log, ranks, i));
        }
        lemma_codes_within(weights, log, ranks, weights.len(), symbol as nat);
        lemma_below_all(weights, log, ranks, ranks.len());
        assert forall|i: int| 0 <= i < weights.len() implies (#[trigger] weights[i]) <= log + 1 by {
            lemma_one_below_sum(weights, weights.len(), i);
            if weights[i] > log + 1 {
                lemma_bit_range_monotone(log + 1, (weights[i] - 1) as nat);
                lemma_bit_range_monotone(0, log);
            }
        }
        lemma_all_codes(weights, log, weights.len());
        lemma_range_add(log, (16 - log) as nat);
        lemma_bit_range_monotone(
            0,
            (16 - (log + 1 - weights[symbol as int])) as nat,
        );
        lemma_bit_range_values();
        assert(false);
    }
    let index = choose|i: int| 0 <= i < ranks.len() && (#[trigger] ranks[i]).symbol == symbol;
    index as nat
}

proof fn lemma_one_below_sum(weights: Seq<u8>, count: nat, index: int)
    requires
        0 <= index < count <= weights.len(),
    ensures
        weights[index] > 0 ==> bit_range((weights[index] - 1) as nat) <= cell_sum(weights, count),
    decreases count,
{
    if index < count - 1 {
        lemma_one_below_sum(weights, (count - 1) as nat, index);
    }
}

} // verus!
