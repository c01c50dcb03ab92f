//! What the blocks of a PivCo-Huffman node hold.

use vstd::prelude::*;

use crate::error::ErrorView;
use crate::limits::Limits;
use crate::pivco_codes::{
    codes_ordered, law_decoded_symbols_walk_the_tree, law_walked_choices_come_back, same_prefix,
    symbols_chosen, walked,
};
use crate::pivco_huffman::{
    pivco_blocks_from, pivco_header, pivco_huffman_node, pivco_node_symbols, pivco_tree, Rank,
};
use crate::pivco_order::{law_tree_has_canonical_codes, law_used_symbols_have_a_rank, rank_placed};
use crate::stream::StreamView;

verus! {

/// Writes some choices in blocks of at most `block_size`, one behind the other, and says
/// whether the bits of a buffer from `position` on are what is written: where they end, or
/// `None`.
pub open spec fn blocks_walked(
    ranks: Seq<Rank>,
    levels: nat,
    bytes: Seq<u8>,
    block_size: nat,
    chosen: Seq<nat>,
    position: nat,
) -> Option<nat>
    decreases chosen.len(),
{
    let block = if block_size < chosen.len() {
        block_size
    } else {
        chosen.len()
    };
    if block == 0 {
        if chosen.len() == 0 {
            Some(position)
        } else {
            None
        }
    } else {
        match walked(
            ranks,
            levels,
            bytes,
            0,
            0,
            ranks.len(),
            chosen.take(block as int),
            position,
        ) {
            None => None,
            Some(next) => blocks_walked(
                ranks,
                levels,
                bytes,
                block_size,
                chosen.skip(block as int),
                next,
            ),
        }
    }
}

proof fn lemma_no_prefix(ranks: Seq<Rank>)
    ensures
        same_prefix(ranks, 0, 0, ranks.len()),
{
    assert((16 - 0) as u16 == 16u16);
    assert forall|i: int| 0 <= i < ranks.len() implies (#[trigger] ranks[i]).codeword >> ((16
        - 0nat) as u16) == ranks[0].codeword >> ((16 - 0nat) as u16) by {
        let one = ranks[i].codeword;
        let other = ranks[0].codeword;
        assert(one >> 16u16 == other >> 16u16) by (bit_vector);
    }
}

proof fn lemma_blocks_walk(
    ranks: Seq<Rank>,
    levels: nat,
    bytes: Seq<u8>,
    block_size: nat,
    remaining: nat,
    position: nat,
    output: Seq<u8>,
) -> (chosen: Seq<nat>)
    requires
        codes_ordered(ranks),
        levels <= 16,
        ranks.len() > 0,
        block_size > 0,
        pivco_blocks_from(ranks, levels, bytes, block_size, remaining, position, output) is Ok,
    ensures
        chosen.len() == remaining,
        forall|i: int| 0 <= i < remaining ==> #[trigger] chosen[i] < ranks.len(),
        pivco_blocks_from(
            ranks,
            levels,
            bytes,
            block_size,
            remaining,
            position,
            output,
        )->Ok_0.0 == output + symbols_chosen(ranks, chosen),
        blocks_walked(ranks, levels, bytes, block_size, chosen, position) == Some(
            pivco_blocks_from(
                ranks,
                levels,
                bytes,
                block_size,
                remaining,
                position,
                output,
            )->Ok_0.1,
        ),
    decreases remaining,
{
    if remaining == 0 {
        let none = Seq::<nat>::empty();
        assert(output + symbols_chosen(ranks, none) =~= output);
        none
    } else {
        let block = if block_size < remaining {
            block_size
        } else {
            remaining
        };
        lemma_no_prefix(ranks);
        let front = law_decoded_symbols_walk_the_tree(
            ranks,
            levels,
            bytes,
            0,
            0,
            ranks.len(),
            block,
            position,
        );
        let (symbols, next) = pivco_node_symbols(
            ranks,
            levels,
            bytes,
            0,
            0,
            ranks.len(),
            block,
            position,
        )->Ok_0;
        let back = lemma_blocks_walk(
            ranks,
            levels,
            bytes,
            block_size,
            (remaining - block) as nat,
            next,
            output + symbols,
        );
        let chosen = front + back;
        assert(chosen.take(block as int) =~= front);
        assert(chosen.skip(block as int) =~= back);
        assert(output + symbols + symbols_chosen(ranks, back) =~= output + symbols_chosen(
            ranks,
            chosen,
        ));
        assert forall|i: int| 0 <= i < remaining implies #[trigger] chosen[i] < ranks.len() by {
            if i < block {
                assert(chosen[i] == front[i]);
            } else {
                assert(chosen[i] == back[i - block]);
            }
        }
        chosen
    }
}

proof fn lemma_blocks_back(
    ranks: Seq<Rank>,
    levels: nat,
    bytes: Seq<u8>,
    block_size: nat,
    chosen: Seq<nat>,
    position: nat,
    output: Seq<u8>,
)
    requires
        codes_ordered(ranks),
        levels <= 16,
        ranks.len() > 0,
        block_size > 0,
        8 * bytes.len() <= usize::MAX,
        blocks_walked(ranks, levels, bytes, block_size, chosen, position) is Some,
    ensures
        pivco_blocks_from(
            ranks,
            levels,
            bytes,
            block_size,
            chosen.len(),
            position,
            output,
        ) == Ok::<(Seq<u8>, nat), ErrorView>(
            (
                output + symbols_chosen(ranks, chosen),
                blocks_walked(ranks, levels, bytes, block_size, chosen, position)->Some_0,
            ),
        ),
    decreases chosen.len(),
{
    if chosen.len() == 0 {
        assert(output + symbols_chosen(ranks, chosen) =~= output);
    } else {
        let block = if block_size < chosen.len() {
            block_size
        } else {
            chosen.len()
        };
        let front = chosen.take(block as int);
        let back = chosen.skip(block as int);
        lemma_no_prefix(ranks);
        law_walked_choices_come_back(ranks, levels, bytes, 0, 0, ranks.len(), front, position);
        let next = walked(ranks, levels, bytes, 0, 0, ranks.len(), front, position)->Some_0;
        let symbols = symbols_chosen(ranks, front);
        lemma_blocks_back(ranks, levels, bytes, block_size, back, next, output + symbols);
        assert(output + symbols + symbols_chosen(ranks, back) =~= output + symbols_chosen(
            ranks,
            chosen,
        ));
    }
}

/// A pivco_huffman node that gives bytes gives the symbols of choices among the ranks of the
/// tree of its weights, and its bit stream is what these choices write, block by block; each
/// byte is a symbol whose weight is not zero.
pub proof fn law_pivco_output_walks_the_tree(
    inputs: Seq<StreamView>,
    header: Seq<u8>,
    limits: Limits,
) -> (chosen: Seq<nat>)
    requires
        pivco_huffman_node(inputs, header, limits) is Ok,
        pivco_huffman_node(inputs, header, limits)->Ok_0.len() > 0,
    ensures
        ({
            let weights = inputs[0].bytes;
            let bytes = inputs[1].bytes;
            let output = pivco_huffman_node(inputs, header, limits)->Ok_0;
            let (ranks, levels) = pivco_tree(weights)->Ok_0;
            let parsed = pivco_header(header)->Ok_0;
            let end = blocks_walked(
                ranks,
                levels,
                bytes,
                parsed.block_size as nat,
                chosen,
                0,
            );
            &&& pivco_tree(weights) is Ok
            &&& pivco_header(header) is Ok
            &&& output.len() == parsed.decoded_size
            &&& output == symbols_chosen(ranks, chosen)
            &&& end is Some
            &&& (end->Some_0 + 7) / 8 == bytes.len()
            &&& forall|i: int|
                0 <= i < output.len() ==> #[trigger] output[i] < weights.len()
                    && weights[output[i] as int] > 0
        }),
{
    let weights = inputs[0].bytes;
    let bytes = inputs[1].bytes;
    let output = pivco_huffman_node(inputs, header, limits)->Ok_0;
    let (ranks, levels) = pivco_tree(weights)->Ok_0;
    let parsed = pivco_header(header)->Ok_0;
    law_tree_has_canonical_codes(weights);
    let chosen = lemma_blocks_walk(
        ranks,
        levels,
        bytes,
        parsed.block_size as nat,
        parsed.decoded_size as nat,
        0,
        Seq::empty(),
    );
    assert(Seq::<u8>::empty() + symbols_chosen(ranks, chosen) =~= symbols_chosen(ranks, chosen));
    let log = crate::pivco_huffman::table_log(weights)->Ok_0 as nat;
    assert forall|i: int| 0 <= i < output.len() implies #[trigger] output[i] < weights.len()
        && weights[output[i] as int] > 0 by {
        assert(chosen[i] < ranks.len());
        assert(rank_placed(weights, log, ranks, chosen[i] as int));
    }
    chosen
}

/// Choices that were written block by block give their symbols back from a pivco_huffman
/// node.
pub proof fn law_pivco_round_trip(
    inputs: Seq<StreamView>,
    header: Seq<u8>,
    limits: Limits,
    chosen: Seq<nat>,
)
    requires
        inputs.len() == 2,
        inputs[0].element_width == 1 && inputs[0].string_lengths is None,
        inputs[1].element_width == 1 && inputs[1].string_lengths is None,
        8 * inputs[1].bytes.len() <= usize::MAX,
        pivco_tree(inputs[0].bytes) is Ok,
        inputs[0].bytes.len() > 0,
        pivco_header(header) is Ok,
        pivco_header(header)->Ok_0.decoded_size == chosen.len(),
        chosen.len() > 0,
        limits.admits(chosen.len() as int),
        ({
            let (ranks, levels) = pivco_tree(inputs[0].bytes)->Ok_0;
            let end = blocks_walked(
                ranks,
                levels,
                inputs[1].bytes,
                pivco_header(header)->Ok_0.block_size as nat,
                chosen,
                0,
            );
            end is Some && (end->Some_0 + 7) / 8 == inputs[1].bytes.len()
        }),
    ensures
        pivco_huffman_node(inputs, header, limits) == Ok::<Seq<u8>, ErrorView>(
            symbols_chosen(pivco_tree(inputs[0].bytes)->Ok_0.0, chosen),
        ),
{
    let weights = inputs[0].bytes;
    let bytes = inputs[1].bytes;
    let (ranks, levels) = pivco_tree(weights)->Ok_0;
    let parsed = pivco_header(header)->Ok_0;
    law_tree_has_canonical_codes(weights);
    lemma_blocks_back(
        ranks,
        levels,
        bytes,
        parsed.block_size as nat,
        chosen,
        0,
        Seq::empty(),
    );
    assert(Seq::<u8>::empty() + symbols_chosen(ranks, chosen) =~= symbols_chosen(ranks, chosen));
}

/// Any bytes whose weights are not zero are the symbols of choices among the ranks of the
/// tree.
pub proof fn law_used_symbols_can_be_chosen(weights: Seq<u8>, symbols: Seq<u8>) -> (chosen: Seq<
    nat,
>)
    requires
        pivco_tree(weights) is Ok,
        forall|i: int|
            0 <= i < symbols.len() ==> #[trigger] symbols[i] < weights.len() && weights[symbols[i]
                as int] > 0,
    ensures
        chosen.len() == symbols.len(),
        forall|i: int|
            0 <= i < symbols.len() ==> #[trigger] chosen[i] < pivco_tree(weights)->Ok_0.0.len(),
        symbols_chosen(pivco_tree(weights)->Ok_0.0, chosen) == symbols,
    decreases symbols.len(),
{
    let ranks = pivco_tree(weights)->Ok_0.0;
    if symbols.len() == 0 {
        let none = Seq::<nat>::empty();
        assert(symbols_chosen(ranks, none) =~= symbols);
        none
    } else {
        let front = symbols.drop_last();
        assert forall|i: int| 0 <= i < front.len() implies #[trigger] front[i] < weights.len()
            && weights[front[i] as int] > 0 by {
            assert(front[i] == symbols[i]);
        }
        let before = law_used_symbols_can_be_chosen(weights, front);
        assert(symbols[symbols.len() - 1] == symbols.last());
        let index = law_used_symbols_have_a_rank(weights, symbols.last());
        let chosen = before.push(index);
        assert forall|i: int| 0 <= i < symbols.len() implies symbols_chosen(ranks, chosen)[i]
            == #[trigger] symbols[i] by {
            if i < front.len() {
                assert(symbols_chosen(ranks, before)[i] == front[i]);
            }
        }
        assert(symbols_chosen(ranks, chosen) =~= symbols);
        chosen
    }
}

} // verus!
