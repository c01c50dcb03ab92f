//! How a PivCo-Huffman bit stream follows the code words of its symbols down the tree.

use vstd::prelude::*;

use crate::bits::{
    bit_at, bit_field, bit_length, bit_range, lemma_bit_field_bound, lemma_bit_range_values,
};
use crate::error::ErrorView;
use crate::pivco_huffman::{
    bitmap_at, code_bit, constant_leaf, first_one, leaf_range, merged, ones_before, pivco_leaf,
    pivco_node_symbols, right_count, tree_split, Rank,
};

verus! {

/// The choices whose code word has a given bit at a level.
pub open spec fn picked(ranks: Seq<Rank>, level: nat, chosen: Seq<nat>, bit: bool) -> Seq<nat>
    decreases chosen.len(),
{
    if chosen.len() == 0 {
        Seq::empty()
    } else {
        let front = picked(ranks, level, chosen.drop_last(), bit);
        if code_bit(ranks[chosen.last() as int], level) == bit {
            front.push(chosen.last())
        } else {
            front
        }
    }
}

/// How many of the ranks from `first` to `end` have a clear bit at a level of their code
/// word.
pub open spec fn clear_codes(ranks: Seq<Rank>, level: nat, first: nat, end: nat) -> nat
    decreases end - first,
{
    if end <= first {
        0
    } else {
        clear_codes(ranks, level, first, (end - 1) as nat) + (if code_bit(ranks[end - 1], level) {
            0nat
        } else {
            1nat
        })
    }
}

/// Whether a subtree is one symbol.
pub open spec fn lone_symbol(ranks: Seq<Rank>, first: nat, end: nat) -> bool {
    end == first + 1 && ranks[first as int].flat_depth == 0
}

/// Writes some choices among the ranks from `first` to `end` down the tree, and says whether
/// the bits of a buffer from `position` on are what is written: where they end, or `None`.
///
/// A subtree of one symbol writes nothing. A flat leaf writes, from the next whole byte on,
/// the place of each choice in the leaf. Any other subtree writes, from the next whole byte
/// on, the bit of each choice's code word at this level; then, unless both of its children
/// are single symbols, how many of these bits are set; then what the choices with a clear
/// bit write on the left, and what those with a set bit write on the right.
pub open spec fn walked(
    ranks: Seq<Rank>,
    levels: nat,
    bytes: Seq<u8>,
    level: nat,
    first: nat,
    end: nat,
    chosen: Seq<nat>,
    position: nat,
) -> Option<nat>
    decreases levels - level,
{
    let depth = ranks[first as int].flat_depth as nat;
    let start = 8 * ((position + 7) / 8);
    let count = chosen.len();
    if exists|i: int| 0 <= i < count && !(first <= #[trigger] chosen[i] < end) {
        None
    } else if end == first + bit_range(depth) {
        if depth == 0 {
            Some(position)
        } else if start + count * depth <= 8 * bytes.len() && forall|i: int|
            0 <= i < count ==> bit_field(bytes, start + i * depth, depth) == #[trigger] chosen[i]
                - first {
            Some(start + count * depth)
        } else {
            None
        }
    } else {
        let split = first + clear_codes(ranks, level, first, end);
        let right = picked(ranks, level, chosen, true);
        let left = picked(ranks, level, chosen, false);
        let bits = if lone_symbol(ranks, first, split) && lone_symbol(ranks, split, end) {
            0
        } else {
            bit_length(count)
        };
        if level < levels && first < split < end && start + count + bits <= 8 * bytes.len() && (
        forall|i: int|
            0 <= i < count ==> bit_at(bytes, start + i) == code_bit(
                ranks[#[trigger] chosen[i] as int],
                level,
            )) && (bits > 0 ==> bit_field(bytes, (start + count) as int, bits) == right.len()) {
            match walked(
                ranks,
                levels,
                bytes,
                level + 1,
                first,
                split,
                left,
                start + count + bits,
            ) {
                None => None,
                Some(middle) => walked(
                    ranks,
                    levels,
                    bytes,
                    level + 1,
                    split,
                    end,
                    right,
                    middle,
                ),
            }
        } else {
            None
        }
    }
}

/// Whether code words never fall from one rank to the next.
pub open spec fn codes_ordered(ranks: Seq<Rank>) -> bool {
    forall|i: int, j: int|
        0 <= i <= j < ranks.len() ==> (#[trigger] ranks[i]).codeword <= (
        #[trigger] ranks[j]).codeword
}

/// Whether the code words of the ranks from `first` to `end` begin with the same `level`
/// bits.
pub open spec fn same_prefix(ranks: Seq<Rank>, level: nat, first: nat, end: nat) -> bool {
    forall|i: int|
        first <= i < end ==> (#[trigger] ranks[i]).codeword >> ((16 - level) as u16)
            == ranks[first as int].codeword >> ((16 - level) as u16)
}

/// The symbols of some choices.
pub open spec fn symbols_chosen(ranks: Seq<Rank>, chosen: Seq<nat>) -> Seq<u8> {
    Seq::new(chosen.len(), |i: int| ranks[chosen[i] as int].symbol)
}

proof fn lemma_bit_grows(small: u16, large: u16, level: u16)
    requires
        level <= 15,
        small <= large,
        small >> ((16 - level) as u16) == large >> ((16 - level) as u16),
    ensures
        (small >> ((15 - level) as u16)) & 1 == 1 ==> (large >> ((15 - level) as u16)) & 1 == 1,
        ((small >> ((15 - level) as u16)) & 1 == 1) == ((large >> ((15 - level) as u16)) & 1 == 1)
            ==> small >> ((15 - level) as u16) == large >> ((15 - level) as u16),
{
    let long = (16 - level) as u16;
    let short = (15 - level) as u16;
    assert((small >> short) & 1 == 1 ==> (large >> short) & 1 == 1) by (bit_vector)
        requires
            small <= large,
            small >> long == large >> long,
            long == short + 1,
            long <= 16,
    ;
    assert(((small >> short) & 1 == 1) == ((large >> short) & 1 == 1) ==> small >> short == large
        >> short) by (bit_vector)
        requires
            small >> long == large >> long,
            long == short + 1,
            long <= 16,
    ;
}

proof fn lemma_first_one(ranks: Seq<Rank>, level: nat, index: nat, end: nat)
    requires
        index <= end,
    ensures
        index <= first_one(ranks, level, index, end) <= end,
        forall|i: int|
            index <= i < first_one(ranks, level, index, end) ==> !code_bit(
                #[trigger] ranks[i],
                level,
            ),
        first_one(ranks, level, index, end) < end ==> code_bit(
            ranks[first_one(ranks, level, index, end) as int],
            level,
        ),
    decreases end - index,
{
    if index < end && !code_bit(ranks[index as int], level) {
        lemma_first_one(ranks, level, index + 1, end);
    }
}

proof fn lemma_clear_codes(ranks: Seq<Rank>, level: nat, first: nat, end: nat, split: nat)
    requires
        first <= split <= end,
        forall|i: int| first <= i < split ==> !code_bit(#[trigger] ranks[i], level),
        forall|i: int| split <= i < end ==> code_bit(#[trigger] ranks[i], level),
    ensures
        clear_codes(ranks, level, first, end) == split - first,
    decreases end - first,
{
    if end > first {
        let last = (end - 1) as nat;
        if split == end {
            lemma_clear_codes(ranks, level, first, last, last);
            assert(!code_bit(ranks[end - 1], level));
        } else {
            lemma_clear_codes(ranks, level, first, last, split);
            assert(code_bit(ranks[end - 1], level));
        }
    }
}

/// A subtree splits where the first code word with a set bit stands, and its children have
/// one bit more in common.
proof fn lemma_split(ranks: Seq<Rank>, level: nat, first: nat, end: nat) -> (split: nat)
    requires
        codes_ordered(ranks),
        same_prefix(ranks, level, first, end),
        level <= 15,
        first < end <= ranks.len(),
    ensures
        split == first_one(ranks, level, first, end),
        split == first + clear_codes(ranks, level, first, end),
        first <= split <= end,
        forall|i: int| first <= i < split ==> !code_bit(#[trigger] ranks[i], level),
        forall|i: int| split <= i < end ==> code_bit(#[trigger] ranks[i], level),
        same_prefix(ranks, level + 1, first, split),
        same_prefix(ranks, level + 1, split, end),
{
    let split = first_one(ranks, level, first, end);
    lemma_first_one(ranks, level, first, end);
    let base = ranks[first as int].codeword;
    assert forall|i: int| split <= i < end implies code_bit(#[trigger] ranks[i], level) by {
        assert(ranks[split as int].codeword <= ranks[i].codeword);
        assert(ranks[split as int].codeword >> ((16 - level) as u16) == base >> ((16
            - level) as u16));
        lemma_bit_grows(ranks[split as int].codeword, ranks[i].codeword, level as u16);
    }
    lemma_clear_codes(ranks, level, first, end, split);
    assert((16 - (level + 1)) as u16 == (15 - level) as u16);
    assert forall|i: int| first <= i < split implies (#[trigger] ranks[i]).codeword >> ((16 - (level
        + 1)) as u16) == base >> ((16 - (level + 1)) as u16) by {
        assert(!code_bit(ranks[i], level));
        assert(!code_bit(ranks[first as int], level));
        assert(base <= ranks[i].codeword);
        lemma_bit_grows(base, ranks[i].codeword, level as u16);
    }
    assert forall|i: int| split <= i < end implies (#[trigger] ranks[i]).codeword >> ((16 - (level
        + 1)) as u16) == ranks[split as int].codeword >> ((16 - (level + 1)) as u16) by {
        assert(code_bit(ranks[i], level));
        assert(code_bit(ranks[split as int], level));
        assert(ranks[split as int].codeword <= ranks[i].codeword);
        assert(ranks[split as int].codeword >> ((16 - level) as u16) == base >> ((16
            - level) as u16));
        lemma_bit_grows(ranks[split as int].codeword, ranks[i].codeword, level as u16);
    }
    split
}

proof fn lemma_bit_inside(bytes: Seq<u8>, start: int, end: int, index: int)
    requires
        0 <= start <= end <= bytes.len(),
        0 <= index < 8 * (end - start),
    ensures
        bit_at(bytes.subrange(start, end), index) == bit_at(bytes, 8 * start + index),
{
    assert((8 * start + index) / 8 == start + index / 8);
    assert((8 * start + index) % 8 == index % 8);
}

proof fn lemma_field_inside(bytes: Seq<u8>, start: int, end: int, index: int, count: nat)
    requires
        0 <= start <= end <= bytes.len(),
        0 <= index,
        index + count <= 8 * (end - start),
    ensures
        bit_field(bytes.subrange(start, end), index, count) == bit_field(
            bytes,
            8 * start + index,
            count,
        ),
    decreases count,
{
    if count > 0 {
        lemma_bit_inside(bytes, start, end, index);
        lemma_field_inside(bytes, start, end, index + 1, (count - 1) as nat);
    }
}

proof fn lemma_picked(ranks: Seq<Rank>, level: nat, bitmap: Seq<u8>, chosen: Seq<nat>)
    requires
        forall|i: int|
            0 <= i < chosen.len() ==> bit_at(bitmap, i) == code_bit(
                ranks[#[trigger] chosen[i] as int],
                level,
            ),
    ensures
        picked(ranks, level, chosen, true).len() == ones_before(bitmap, chosen.len()),
        picked(ranks, level, chosen, false).len() + ones_before(bitmap, chosen.len())
            == chosen.len(),
        forall|i: int|
            0 <= i < chosen.len() ==> #[trigger] found_again(ranks, level, bitmap, chosen, i),
    decreases chosen.len(),
{
    if chosen.len() > 0 {
        let front = chosen.drop_last();
        assert forall|i: int| 0 <= i < front.len() implies bit_at(bitmap, i) == code_bit(
            ranks[#[trigger] front[i] as int],
            level,
        ) by {
            assert(chosen[i] == front[i]);
        }
        lemma_picked(ranks, level, bitmap, front);
        let last = chosen.len() - 1;
        assert(bit_at(bitmap, last) == code_bit(ranks[chosen[last] as int], level));
        assert forall|i: int| 0 <= i < chosen.len() implies #[trigger] found_again(
            ranks,
            level,
            bitmap,
            chosen,
            i,
        ) by {
            if i < last {
                assert(found_again(ranks, level, bitmap, front, i));
                assert(front[i] == chosen[i]);
            }
        }
    }
}

/// Whether a choice stands in the list of its bit, at the number of equal bits in front.
spec fn found_again(
    ranks: Seq<Rank>,
    level: nat,
    bitmap: Seq<u8>,
    chosen: Seq<nat>,
    i: int,
) -> bool {
    let ones = ones_before(bitmap, i as nat) as int;
    let right = picked(ranks, level, chosen, true);
    let left = picked(ranks, level, chosen, false);
    &&& bit_at(bitmap, i) ==> ones < right.len() && right[ones] == chosen[i]
    &&& !bit_at(bitmap, i) ==> 0 <= i - ones < left.len() && left[i - ones] == chosen[i]
}

/// Two lists of choices woven together.
spec fn woven(bitmap: Seq<u8>, count: nat, left: Seq<nat>, right: Seq<nat>) -> Seq<nat> {
    Seq::new(
        count,
        |i: int|
            if bit_at(bitmap, i) {
                right[ones_before(bitmap, i as nat) as int]
            } else {
                left[i - ones_before(bitmap, i as nat)]
            },
    )
}

proof fn lemma_ones_up(bitmap: Seq<u8>, small: nat, large: nat)
    requires
        small <= large,
    ensures
        ones_before(bitmap, small) <= ones_before(bitmap, large),
        small - ones_before(bitmap, small) <= large - ones_before(bitmap, large),
        ones_before(bitmap, small) <= small,
    decreases large,
{
    if small < large {
        lemma_ones_up(bitmap, small, (large - 1) as nat);
    } else if small > 0 {
        lemma_ones_up(bitmap, (small - 1) as nat, (small - 1) as nat);
    }
}

proof fn lemma_woven(
    ranks: Seq<Rank>,
    level: nat,
    bitmap: Seq<u8>,
    count: nat,
    left: Seq<nat>,
    right: Seq<nat>,
    done: nat,
)
    requires
        right.len() == ones_before(bitmap, count),
        left.len() + right.len() == count,
        done <= count,
        forall|i: int|
            0 <= i < right.len() ==> code_bit(ranks[#[trigger] right[i] as int], level),
        forall|i: int|
            0 <= i < left.len() ==> !code_bit(ranks[#[trigger] left[i] as int], level),
    ensures
        ({
            let front = woven(bitmap, count, left, right).take(done as int);
            let ones = ones_before(bitmap, done);
            &&& picked(ranks, level, front, true) == right.take(ones as int)
            &&& picked(ranks, level, front, false) == left.take(done - ones)
            &&& forall|i: int|
                0 <= i < done ==> bit_at(bitmap, i) == code_bit(
                    ranks[#[trigger] front[i] as int],
                    level,
                )
        }),
    decreases done,
{
    let all = woven(bitmap, count, left, right);
    let front = all.take(done as int);
    let ones = ones_before(bitmap, done);
    if done == 0 {
        assert(right.take(0) =~= Seq::<nat>::empty());
        assert(left.take(0) =~= Seq::<nat>::empty());
    } else {
        let last = (done - 1) as nat;
        lemma_woven(ranks, level, bitmap, count, left, right, last);
        lemma_ones_up(bitmap, last, count);
        lemma_ones_up(bitmap, done, count);
        assert(front.drop_last() =~= all.take(last as int));
        assert(front.last() == all[last as int]);
        let before = ones_before(bitmap, last);
        if bit_at(bitmap, last as int) {
            assert(front.last() == right[before as int]);
            assert(code_bit(ranks[right[before as int] as int], level));
            assert(right.take(ones as int) =~= right.take(before as int).push(front.last()));
            assert(left.take(done - ones) =~= left.take(last - before));
        } else {
            assert(front.last() == left[last - before]);
            assert(!code_bit(ranks[left[last - before] as int], level));
            assert(left.take(done - ones) =~= left.take(last - before).push(front.last()));
            assert(right.take(ones as int) =~= right.take(before as int));
        }
        assert forall|i: int| 0 <= i < done implies bit_at(bitmap, i) == code_bit(
            ranks[#[trigger] front[i] as int],
            level,
        ) by {
            if i < last {
                assert(all.take(last as int)[i] == front[i]);
            }
        }
    }
}

proof fn lemma_leaf_walks(
    ranks: Seq<Rank>,
    levels: nat,
    bytes: Seq<u8>,
    level: nat,
    first: nat,
    end: nat,
    count: nat,
    position: nat,
) -> (chosen: Seq<nat>)
    requires
        leaf_range(ranks, first, end),
        first < end <= ranks.len(),
        pivco_leaf(ranks, bytes, first, count, position) is Ok,
    ensures
        chosen.len() == count,
        forall|i: int| 0 <= i < count ==> first <= #[trigger] chosen[i] < end,
        pivco_leaf(ranks, bytes, first, count, position)->Ok_0.0 == symbols_chosen(ranks, chosen),
        walked(ranks, levels, bytes, level, first, end, chosen, position) == Some(
            pivco_leaf(ranks, bytes, first, count, position)->Ok_0.1,
        ),
{
    let (symbols, next) = pivco_leaf(ranks, bytes, first, count, position)->Ok_0;
    let depth = ranks[first as int].flat_depth as nat;
    let start = (position + 7) / 8;
    lemma_bit_range_values();
    if depth == 0 {
        let chosen = Seq::new(count, |i: int| first);
        assert(symbols =~= symbols_chosen(ranks, chosen));
        chosen
    } else {
        let (bitmap, _) = bitmap_at(bytes, position, count * depth)->Ok_0;
        let last = start + (count * depth + 7) / 8;
        let chosen = Seq::new(
            count,
            |i: int| (first + bit_field(bitmap, i * depth, depth)) as nat,
        );
        assert forall|i: int| 0 <= i < count implies first <= #[trigger] chosen[i] < end
            && bit_field(bytes, 8 * start + i * depth, depth) == chosen[i] - first by {
            lemma_bit_field_bound(bitmap, i * depth, depth);
            assert(0 <= i * depth && i * depth + depth <= count * depth) by (nonlinear_arith)
                requires
                    0 <= i < count,
            ;
            lemma_field_inside(bytes, start as int, last as int, i * depth, depth);
        }
        assert(symbols =~= symbols_chosen(ranks, chosen));
        chosen
    }
}

/// Every bit stream of a subtree that decodes is what the choices of its symbols write down
/// the tree: there is a choice for each symbol, a rank of this subtree with that symbol, and
/// what the choices write ends where the decoder stops.
#[verifier::rlimit(40)]
pub proof fn law_decoded_symbols_walk_the_tree(
    ranks: Seq<Rank>,
    levels: nat,
    bytes: Seq<u8>,
    level: nat,
    first: nat,
    end: nat,
    count: nat,
    position: nat,
) -> (chosen: Seq<nat>)
    requires
        codes_ordered(ranks),
        same_prefix(ranks, level, first, end),
        levels <= 16,
        first < end <= ranks.len(),
        pivco_node_symbols(ranks, levels, bytes, level, first, end, count, position) is Ok,
    ensures
        chosen.len() == count,
        forall|i: int| 0 <= i < count ==> first <= #[trigger] chosen[i] < end,
        pivco_node_symbols(ranks, levels, bytes, level, first, end, count, position)->Ok_0.0
            == symbols_chosen(ranks, chosen),
        walked(ranks, levels, bytes, level, first, end, chosen, position) == Some(
            pivco_node_symbols(ranks, levels, bytes, level, first, end, count, position)->Ok_0.1,
        ),
    decreases levels - level,
{
    let (symbols, next) = pivco_node_symbols(
        ranks,
        levels,
        bytes,
        level,
        first,
        end,
        count,
        position,
    )->Ok_0;
    let depth = ranks[first as int].flat_depth as nat;
    let start = (position + 7) / 8;
    lemma_bit_range_values();
    if leaf_range(ranks, first, end) {
        lemma_leaf_walks(ranks, levels, bytes, level, first, end, count, position)
    } else {
        let split = lemma_split(ranks, level, first, end);
        assert(tree_split(ranks, levels, level, first, end) is Ok);
        assert(first_one(ranks, level, first, end) == first_one(ranks, level, first + 1, end));
        let (bitmap, after) = bitmap_at(bytes, position, count)->Ok_0;
        let last = start + (count + 7) / 8;
        let implied = constant_leaf(ranks, first, split) && constant_leaf(ranks, split, end);
        let (ones, behind) = right_count(bytes, bitmap, count, implied, after)->Ok_0;
        let left_count = (count - ones) as nat;
        lemma_ones_up(bitmap, count, count);
        let left = law_decoded_symbols_walk_the_tree(
            ranks,
            levels,
            bytes,
            level + 1,
            first,
            split,
            left_count,
            behind,
        );
        let (left_symbols, middle) = pivco_node_symbols(
            ranks,
            levels,
            bytes,
            level + 1,
            first,
            split,
            left_count,
            behind,
        )->Ok_0;
        let right = law_decoded_symbols_walk_the_tree(
            ranks,
            levels,
            bytes,
            level + 1,
            split,
            end,
            ones,
            middle,
        );
        let (right_symbols, _) = pivco_node_symbols(
            ranks,
            levels,
            bytes,
            level + 1,
            split,
            end,
            ones,
            middle,
        )->Ok_0;
        let chosen = woven(bitmap, count, left, right);
        lemma_woven(ranks, level, bitmap, count, left, right, count);
        assert(chosen.take(count as int) =~= chosen);
        assert(right.take(ones as int) =~= right);
        assert(left.take(count - ones) =~= left);
        lemma_picked(ranks, level, bitmap, chosen);
        assert forall|i: int| 0 <= i < count implies first <= #[trigger] chosen[i] < end && bit_at(
            bytes,
            8 * start + i,
        ) == code_bit(ranks[chosen[i] as int], level) by {
            lemma_bit_inside(bytes, start as int, last as int, i);
            assert(found_again(ranks, level, bitmap, chosen, i));
            let before = ones_before(bitmap, i as nat) as int;
            if bit_at(bitmap, i) {
                assert(right[before] == chosen[i]);
            } else {
                assert(left[i - before] == chosen[i]);
            }
        }
        assert forall|i: int| 0 <= i < count implies symbols[i] == #[trigger] symbols_chosen(
            ranks,
            chosen,
        )[i] by {
            let before = ones_before(bitmap, i as nat) as int;
            assert(found_again(ranks, level, bitmap, chosen, i));
            if bit_at(bitmap, i) {
                assert(right_symbols[before] == ranks[right[before] as int].symbol);
            } else {
                assert(left_symbols[i - before] == ranks[left[i - before] as int].symbol);
            }
        }
        assert(symbols =~= symbols_chosen(ranks, chosen));
        chosen
    }
}

proof fn lemma_walked_leaf(
    ranks: Seq<Rank>,
    levels: nat,
    bytes: Seq<u8>,
    level: nat,
    first: nat,
    end: nat,
    chosen: Seq<nat>,
    position: nat,
)
    requires
        leaf_range(ranks, first, end),
        first < end <= ranks.len(),
        8 * bytes.len() <= usize::MAX,
        walked(ranks, levels, bytes, level, first, end, chosen, position) is Some,
    ensures
        pivco_leaf(ranks, bytes, first, chosen.len(), position) == Ok::<(Seq<u8>, nat), ErrorView>(
            (
                symbols_chosen(ranks, chosen),
                walked(ranks, levels, bytes, level, first, end, chosen, position)->Some_0,
            ),
        ),
{
    let count = chosen.len();
    let depth = ranks[first as int].flat_depth as nat;
    let start = (position + 7) / 8;
    lemma_bit_range_values();
    let decoded = pivco_leaf(ranks, bytes, first, count, position);
    if depth == 0 {
        assert forall|i: int| 0 <= i < count implies #[trigger] chosen[i] == first by {}
        assert(decoded->Ok_0.0 =~= symbols_chosen(ranks, chosen));
    } else {
        let last = start + (count * depth + 7) / 8;
        let bitmap = bytes.subrange(start as int, last as int);
        assert forall|i: int| 0 <= i < count implies bit_field(bitmap, i * depth, depth)
            == #[trigger] chosen[i] - first by {
            assert(0 <= i * depth && i * depth + depth <= count * depth) by (nonlinear_arith)
                requires
                    0 <= i < count,
            ;
            lemma_field_inside(bytes, start as int, last as int, i * depth, depth);
        }
        assert(decoded is Ok);
        assert forall|i: int| 0 <= i < count implies #[trigger] decoded->Ok_0.0[i]
            == symbols_chosen(ranks, chosen)[i] by {
            assert(chosen[i] == chosen[i]);
        }
        assert(decoded->Ok_0.0 =~= symbols_chosen(ranks, chosen));
    }
}

/// Choices that were written down the tree give their symbols back.
#[verifier::rlimit(40)]
pub proof fn law_walked_choices_come_back(
    ranks: Seq<Rank>,
    levels: nat,
    bytes: Seq<u8>,
    level: nat,
    first: nat,
    end: nat,
    chosen: Seq<nat>,
    position: nat,
)
    requires
        codes_ordered(ranks),
        same_prefix(ranks, level, first, end),
        levels <= 16,
        first < end <= ranks.len(),
        8 * bytes.len() <= usize::MAX,
        walked(ranks, levels, bytes, level, first, end, chosen, position) is Some,
    ensures
        pivco_node_symbols(ranks, levels, bytes, level, first, end, chosen.len(), position) == Ok::<
            (Seq<u8>, nat),
            ErrorView,
        >(
            (
                symbols_chosen(ranks, chosen),
                walked(ranks, levels, bytes, level, first, end, chosen, position)->Some_0,
            ),
        ),
    decreases levels - level,
{
    let count = chosen.len();
    let start = (position + 7) / 8;
    lemma_bit_range_values();
    if leaf_range(ranks, first, end) {
        lemma_walked_leaf(ranks, levels, bytes, level, first, end, chosen, position);
    } else {
        let split = lemma_split(ranks, level, first, end);
        assert(first_one(ranks, level, first, end) == first_one(ranks, level, first + 1, end));
        assert(tree_split(ranks, levels, level, first, end) == Ok::<nat, ErrorView>(split));
        let last = start + (count + 7) / 8;
        let bitmap = bytes.subrange(start as int, last as int);
        let after = 8 * start + count;
        assert(bitmap_at(bytes, position, count) == Ok::<(Seq<u8>, nat), ErrorView>(
            (bitmap, after),
        ));
        assert forall|i: int| 0 <= i < count implies bit_at(bitmap, i) == code_bit(
            ranks[#[trigger] chosen[i] as int],
            level,
        ) by {
            lemma_bit_inside(bytes, start as int, last as int, i);
        }
        lemma_picked(ranks, level, bitmap, chosen);
        let right = picked(ranks, level, chosen, true);
        let left = picked(ranks, level, chosen, false);
        let ones = right.len();
        let implied = constant_leaf(ranks, first, split) && constant_leaf(ranks, split, end);
        let bits = if implied {
            0
        } else {
            bit_length(count)
        };
        let behind = after + bits;
        assert(bit_field(bytes, after as int, 0) == 0);
        if !implied && bits == 0 {
            assert(count == 0);
        }
        assert(right_count(bytes, bitmap, count, implied, after) == Ok::<(nat, nat), ErrorView>(
            (ones, behind),
        ));
        law_walked_choices_come_back(
            ranks,
            levels,
            bytes,
            level + 1,
            first,
            split,
            left,
            behind,
        );
        let middle = walked(ranks, levels, bytes, level + 1, first, split, left, behind)->Some_0;
        law_walked_choices_come_back(
            ranks,
            levels,
            bytes,
            level + 1,
            split,
            end,
            right,
            middle,
        );
        let left_symbols = symbols_chosen(ranks, left);
        let right_symbols = symbols_chosen(ranks, right);
        let symbols = merged(bitmap, count, left_symbols, right_symbols);
        assert forall|i: int| 0 <= i < count implies symbols[i] == #[trigger] symbols_chosen(
            ranks,
            chosen,
        )[i] by {
            assert(found_again(ranks, level, bitmap, chosen, i));
        }
        assert(symbols =~= symbols_chosen(ranks, chosen));
    }
}

} // verus!
