//! Huffman coding whose tree nodes hold bitmaps that partition their symbols.

use vstd::prelude::*;
use vstd::slice::slice_subrange;

use crate::bits::{
    bit_at, bit_field, bit_length, bit_range, count_bits, lemma_bit_field_bound,
    lemma_bit_length_bound, lemma_bit_range_monotone, lemma_bit_range_values, power_of_two,
    read_bit_field,
};
use crate::bytes::{append_bytes, read_var_u64, var_u64};
use crate::error::{detailed, fail, outcome, plain, plain_outcome, Error, ErrorKind, ErrorView};
use crate::huffman::cell_sum;
use crate::limits::{check_output_limit, output_limit_error, Limits};
use crate::stream::{stream_views, StreamInput, StreamView};

verus! {

pub const MAX_SYMBOLS: usize = 256;

pub const MAX_TABLE_LOG: usize = 12;

pub const MAX_BLOCK_SIZE: usize = 0x1000_0000;

/// The sizes of the output and of its blocks.
#[derive(Clone, Copy, Debug, PartialEq, Eq, Structural)]
pub struct PivcoHeader {
    pub decoded_size: usize,
    pub block_size: usize,
}

/// The header of a pivco_huffman node.
pub open spec fn pivco_header(header: Seq<u8>) -> Result<PivcoHeader, ErrorView> {
    match var_u64(header, 0) {
        Err(error) => Err(error),
        Ok((size, end)) => if size > usize::MAX {
            Err(detailed(ErrorKind::LimitExceeded, "pivco_huffman decoded size is too large"@))
        } else if end == header.len() {
            if size > MAX_BLOCK_SIZE {
                Err(detailed(ErrorKind::Malformed, "pivco_huffman single block is too large"@))
            } else {
                Ok(PivcoHeader { decoded_size: size as usize, block_size: size as usize })
            }
        } else {
            match var_u64(header, end) {
                Err(error) => Err(error),
                Ok((block, _)) => if block > usize::MAX {
                    Err(
                        detailed(ErrorKind::LimitExceeded, "pivco_huffman block size is too large"@),
                    )
                } else if block == 0 || block > MAX_BLOCK_SIZE {
                    Err(detailed(ErrorKind::Malformed, "pivco_huffman block size is invalid"@))
                } else {
                    Ok(PivcoHeader { decoded_size: size as usize, block_size: block as usize })
                },
            }
        },
    }
}

fn parse_header(header: &[u8]) -> (result: Result<PivcoHeader, Error>)
    ensures
        plain_outcome(result) == pivco_header(header@),
        match result {
            Ok(parsed) => parsed.block_size <= MAX_BLOCK_SIZE && (parsed.decoded_size > 0
                ==> parsed.block_size > 0),
            Err(_) => true,
        },
{
    let mut offset: usize = 0;
    let decoded_size: u64 = read_var_u64(header, &mut offset)?;
    if decoded_size > usize::MAX as u64 {
        return Err(fail(ErrorKind::LimitExceeded, "pivco_huffman decoded size is too large"));
    }
    let decoded_size: usize = decoded_size as usize;
    if offset == header.len() {
        if decoded_size > MAX_BLOCK_SIZE {
            return Err(fail(ErrorKind::Malformed, "pivco_huffman single block is too large"));
        }
        return Ok(PivcoHeader { decoded_size, block_size: decoded_size });
    }
    let block_size: u64 = read_var_u64(header, &mut offset)?;
    if block_size > usize::MAX as u64 {
        return Err(fail(ErrorKind::LimitExceeded, "pivco_huffman block size is too large"));
    }
    if block_size == 0 || block_size > MAX_BLOCK_SIZE as u64 {
        return Err(fail(ErrorKind::Malformed, "pivco_huffman block size is invalid"));
    }
    Ok(PivcoHeader { decoded_size, block_size: block_size as usize })
}

/// The log of the number of codes that weights share, or why they are refused.
pub open spec fn table_log(weights: Seq<u8>) -> Result<usize, ErrorView> {
    let sum = cell_sum(weights, weights.len());
    let log = bit_length(sum) - 1;
    if weights.len() == 0 || weights.len() > MAX_SYMBOLS {
        Err(detailed(ErrorKind::Malformed, "pivco_huffman weights size is invalid"@))
    } else if exists|i: int| 0 <= i < weights.len() && #[trigger] weights[i] > MAX_TABLE_LOG {
        Err(detailed(ErrorKind::Malformed, "pivco_huffman weight is too large"@))
    } else if sum == 0 || sum != bit_range(log as nat) {
        Err(detailed(ErrorKind::Malformed, "pivco_huffman weights are incomplete"@))
    } else if log > MAX_TABLE_LOG {
        Err(detailed(ErrorKind::Malformed, "pivco_huffman table log is too large"@))
    } else {
        Ok(log as usize)
    }
}

/// Finds the log of the number of codes that weights share.
pub fn compute_table_log(weights: &[u8]) -> (result: Result<usize, Error>)
    ensures
        plain_outcome(result) == table_log(weights@),
        match result {
            Ok(log) => log <= MAX_TABLE_LOG && 0 < weights@.len() <= MAX_SYMBOLS && forall|i: int|
                0 <= i < weights@.len() ==> #[trigger] weights@[i] <= MAX_TABLE_LOG,
            Err(_) => true,
        },
{
    if weights.len() == 0 || weights.len() > MAX_SYMBOLS {
        return Err(fail(ErrorKind::Malformed, "pivco_huffman weights size is invalid"));
    }
    let mut sum: u64 = 0;
    let mut index: usize = 0;
    while index < weights.len()
        invariant
            index <= weights@.len(),
            0 < weights@.len() <= MAX_SYMBOLS,
            sum <= index * 0x1000,
            sum as nat == cell_sum(weights@, index as nat),
            forall|i: int| 0 <= i < index ==> #[trigger] weights@[i] <= MAX_TABLE_LOG,
        decreases weights.len() - index,
    {
        let weight: usize = weights[index] as usize;
        if weight > MAX_TABLE_LOG {
            return Err(fail(ErrorKind::Malformed, "pivco_huffman weight is too large"));
        }
        if weight > 0 {
            proof {
                lemma_bit_range_monotone((weight - 1) as nat, 12);
                reveal_with_fuel(bit_range, 13);
            }
            sum = sum + power_of_two(weight - 1);
        }
        index = index + 1;
    }
    if sum == 0 {
        return Err(fail(ErrorKind::Malformed, "pivco_huffman weights are incomplete"));
    }
    let log: usize = count_bits(sum) - 1;
    if sum != power_of_two(log) {
        return Err(fail(ErrorKind::Malformed, "pivco_huffman weights are incomplete"));
    }
    if log > MAX_TABLE_LOG {
        return Err(fail(ErrorKind::Malformed, "pivco_huffman table log is too large"));
    }
    Ok(log)
}

/// The symbols of one weight among the first `count`.
pub open spec fn symbols_of(weights: Seq<u8>, weight: nat, count: nat) -> Seq<u8>
    decreases count,
{
    if count == 0 {
        Seq::empty()
    } else {
        let front = symbols_of(weights, weight, (count - 1) as nat);
        if weights[count - 1] == weight {
            front.push((count - 1) as u8)
        } else {
            front
        }
    }
}

/// How many of `count` symbols of one weight stay leaves of their own; the others
/// join into flat leaves of `2^k` symbols.
pub open spec fn kept_symbols(count: nat) -> nat {
    if count % 4 == 3 {
        1
    } else {
        count % 4
    }
}

/// Whether `2^k` of `count` symbols of one weight join into a flat leaf: the largest
/// power of two is taken off the end as long as more than two are left.
pub open spec fn joins(count: nat, k: nat) -> bool {
    count % bit_range(k + 1) > 2 && count % bit_range(k + 1) >= bit_range(k)
}

/// The flat leaves of weight `weight` that join symbols of weights up to `below`.
pub open spec fn flat_leaves(weights: Seq<u8>, weight: nat, below: nat) -> Seq<Seq<u8>>
    decreases below,
{
    if below == 0 {
        Seq::empty()
    } else {
        let symbols = symbols_of(weights, below, weights.len());
        let k = (weight - below) as nat;
        let rest = flat_leaves(weights, weight, (below - 1) as nat);
        if joins(symbols.len(), k) {
            let start = symbols.len() % bit_range(k);
            seq![symbols.subrange(start as int, (start + bit_range(k)) as int)] + rest
        } else {
            rest
        }
    }
}

/// The leaves of a weight: single symbols, and flat leaves of lighter ones.
pub open spec fn leaves_of(weights: Seq<u8>, weight: nat) -> Seq<Seq<u8>> {
    let symbols = symbols_of(weights, weight, weights.len());
    Seq::new(kept_symbols(symbols.len()), |i: int| seq![symbols[i]]) + flat_leaves(
        weights,
        weight,
        (weight - 1) as nat,
    )
}

/// The contents of a list of leaves.
pub open spec fn leaf_views(leaves: Seq<Vec<u8>>) -> Seq<Seq<u8>> {
    Seq::new(leaves.len(), |i: int| leaves[i]@)
}

proof fn lemma_symbols_len(weights: Seq<u8>, weight: nat, count: nat)
    ensures
        symbols_of(weights, weight, count).len() <= count,
    decreases count,
{
    if count > 0 {
        lemma_symbols_len(weights, weight, (count - 1) as nat);
    }
}

fn collect_symbols(weights: &[u8], weight: usize) -> (symbols: Vec<u8>)
    requires
        weights@.len() <= MAX_SYMBOLS,
    ensures
        symbols@ == symbols_of(weights@, weight as nat, weights@.len()),
        symbols@.len() <= weights@.len(),
{
    let mut symbols: Vec<u8> = Vec::new();
    let mut index: usize = 0;
    proof {
        assert(symbols@ =~= Seq::empty());
    }
    while index < weights.len()
        invariant
            index <= weights@.len() <= MAX_SYMBOLS,
            symbols@ == symbols_of(weights@, weight as nat, index as nat),
        decreases weights.len() - index,
    {
        if weights[index] as usize == weight {
            symbols.push(index as u8);
        }
        index = index + 1;
    }
    proof {
        lemma_symbols_len(weights@, weight as nat, weights@.len());
    }
    symbols
}

/// Collects the leaves of a weight.
fn collect_leaves(weights: &[u8], weight: usize) -> (leaves: Vec<Vec<u8>>)
    requires
        weights@.len() <= MAX_SYMBOLS,
        1 <= weight <= 13,
    ensures
        leaf_views(leaves@) == leaves_of(weights@, weight as nat),
{
    let symbols = collect_symbols(weights, weight);
    let kept: usize = if symbols.len() % 4 == 3 {
        1
    } else {
        symbols.len() % 4
    };
    let ghost singles = Seq::new(kept as nat, |i: int| seq![symbols@[i]]);
    let mut leaves: Vec<Vec<u8>> = Vec::new();
    while leaves.len() < kept
        invariant
            leaves@.len() <= kept <= symbols@.len(),
            singles == Seq::new(kept as nat, |i: int| seq![symbols@[i]]),
            forall|i: int| 0 <= i < leaves@.len() ==> (#[trigger] leaves@[i])@ == singles[i],
        decreases kept - leaves@.len(),
    {
        let mut leaf: Vec<u8> = Vec::new();
        leaf.push(symbols[leaves.len()]);
        proof {
            assert(leaf@ =~= singles[leaves@.len() as int]);
        }
        leaves.push(leaf);
    }
    let ghost all = leaves_of(weights@, weight as nat);
    let mut below: usize = weight - 1;
    proof {
        assert(leaf_views(leaves@) =~= singles);
        assert(all =~= leaf_views(leaves@) + flat_leaves(
            weights@,
            weight as nat,
            below as nat,
        ));
    }
    while below > 0
        invariant
            below < weight <= 13,
            weights@.len() <= MAX_SYMBOLS,
            all == leaf_views(leaves@) + flat_leaves(weights@, weight as nat, below as nat),
        decreases below,
    {
        let lighter = collect_symbols(weights, below);
        let k: usize = weight - below;
        let size: u64 = power_of_two(k);
        let double: u64 = power_of_two(k + 1);
        let count: u64 = lighter.len() as u64;
        proof {
            lemma_bit_range_monotone(0, k as nat);
            lemma_bit_range_monotone(0, (k + 1) as nat);
            lemma_bit_range_monotone((k + 1) as nat, 16);
            lemma_bit_range_values();
        }
        let ghost before = leaves@;
        let ghost rest = flat_leaves(weights@, weight as nat, (below - 1) as nat);
        if count % double > 2 && count % double >= size {
            let start: usize = (count % size) as usize;
            proof {
                lemma_flat_leaf_inside(count as nat, size as nat);
            }
            let leaf_symbols = slice_subrange(lighter.as_slice(), start, start + size as usize);
            let leaf = crate::bytes::copy_bytes(leaf_symbols);
            leaves.push(leaf);
            proof {
                assert(leaf_views(leaves@) =~= leaf_views(before).push(leaf@));
                assert(leaf_views(leaves@) + rest =~= leaf_views(before) + (seq![leaf@] + rest));
            }
        }
        below = below - 1;
    }
    proof {
        assert(all =~= leaf_views(leaves@));
    }
    leaves
}

/// Where at least half of the doubled size is left, a flat leaf fits.
proof fn lemma_flat_leaf_inside(count: nat, size: nat)
    requires
        size > 0,
        count % (2 * size) >= size,
    ensures
        count % size + size <= count,
{
    vstd::arithmetic::div_mod::lemma_fundamental_div_mod(count as int, 2 * size as int);
    vstd::arithmetic::div_mod::lemma_fundamental_div_mod(count as int, size as int);
    assert(count >= size) by (nonlinear_arith)
        requires
            count == (2 * size) * (count / (2 * size)) + count % (2 * size),
            count % (2 * size) >= size,
            count / (2 * size) >= 0,
            size > 0,
    ;
    assert(count / size >= 1) by (nonlinear_arith)
        requires
            count == size * (count / size) + count % size,
            count >= size,
            count % size < size,
            size > 0,
    ;
    assert(size * (count / size) >= size) by (nonlinear_arith)
        requires
            count / size >= 1,
            size > 0,
    ;
}

/// A symbol of the tree, how many bits choose it inside its leaf, and its code from
/// the top bit down.
#[derive(Clone, Copy, Debug, PartialEq, Eq, Structural)]
pub struct Rank {
    pub symbol: u8,
    pub flat_depth: u8,
    pub codeword: u16,
}

/// No leaf takes more than 16 bits.
pub open spec fn shallow(ranks: Seq<Rank>) -> bool {
    forall|i: int| 0 <= i < ranks.len() ==> (#[trigger] ranks[i]).flat_depth <= 16
}

/// The bits of a code of `total` bits, moved to the top of 16.
pub open spec fn top_code(codeword: nat, depth: nat, index: nat, total: nat) -> Result<
    u16,
    ErrorView,
> {
    let bits = codeword * bit_range(depth) % 0x1_0000_0000 + index;
    let code = bits * bit_range((16 - total) as nat) % 0x1_0000_0000;
    if bits > u32::MAX {
        Err(plain(ErrorKind::IntegerOverflow))
    } else if total == 0 {
        Ok(0)
    } else if code > u16::MAX {
        Err(plain(ErrorKind::IntegerOverflow))
    } else {
        Ok(code as u16)
    }
}

/// The ranks of the symbols of a leaf from `index` on, behind `ranks`.
pub open spec fn leaf_ranks_from(
    leaf: Seq<u8>,
    codeword: nat,
    depth: nat,
    total: nat,
    index: nat,
    ranks: Seq<Rank>,
) -> Result<Seq<Rank>, ErrorView>
    decreases leaf.len() - index,
{
    if index >= leaf.len() {
        Ok(ranks)
    } else {
        match top_code(codeword, depth, index, total) {
            Err(error) => Err(error),
            Ok(code) => leaf_ranks_from(
                leaf,
                codeword,
                depth,
                total,
                index + 1,
                ranks.push(
                    Rank {
                        symbol: leaf[index as int],
                        flat_depth: depth as u8,
                        codeword: code,
                    },
                ),
            ),
        }
    }
}

/// The ranks of the leaves of a level from `index` on, behind `ranks`, and the code
/// behind them.
pub open spec fn level_ranks_from(
    leaves: Seq<Seq<u8>>,
    level: nat,
    index: nat,
    codeword: nat,
    ranks: Seq<Rank>,
) -> Result<(nat, Seq<Rank>), ErrorView>
    decreases leaves.len() - index,
{
    if index >= leaves.len() {
        Ok((codeword, ranks))
    } else {
        let leaf = leaves[index as int];
        let depth = (bit_length(leaf.len()) - 1) as nat;
        if leaf.len() == 0 || leaf.len() != bit_range(depth) {
            Err(detailed(ErrorKind::Malformed, "pivco_huffman leaf size is invalid"@))
        } else if level + depth > 16 {
            Err(detailed(ErrorKind::Malformed, "pivco_huffman codeword is too wide"@))
        } else {
            match leaf_ranks_from(leaf, codeword, depth, level + depth, 0, ranks) {
                Err(error) => Err(error),
                Ok(ranks) => if codeword + 1 > u32::MAX {
                    Err(plain(ErrorKind::IntegerOverflow))
                } else {
                    level_ranks_from(leaves, level, index + 1, codeword + 1, ranks)
                },
            }
        }
    }
}

/// The ranks of the levels from `level` on, behind `ranks`.
pub open spec fn tree_ranks_from(
    weights: Seq<u8>,
    log: nat,
    levels: nat,
    level: nat,
    codeword: nat,
    ranks: Seq<Rank>,
) -> Result<Seq<Rank>, ErrorView>
    decreases levels - level,
{
    if level >= levels {
        if codeword != bit_range((levels - 1) as nat) || ranks.len() > MAX_SYMBOLS {
            Err(
                detailed(
                    ErrorKind::Malformed,
                    "pivco_huffman weights do not form a complete tree"@,
                ),
            )
        } else {
            Ok(ranks)
        }
    } else {
        match level_ranks_from(leaves_of(weights, (log + 1 - level) as nat), level, 0, codeword, ranks) {
            Err(error) => Err(error),
            Ok((codeword, ranks)) => tree_ranks_from(
                weights,
                log,
                levels,
                level + 1,
                if level + 1 < levels {
                    codeword * 2 % 0x1_0000_0000
                } else {
                    codeword
                },
                ranks,
            ),
        }
    }
}

/// The least weight from `weight` on that has leaves.
pub open spec fn least_weight(weights: Seq<u8>, weight: nat) -> Option<nat>
    decreases 14 - weight,
{
    if weight > 13 {
        None
    } else if leaves_of(weights, weight).len() > 0 {
        Some(weight)
    } else {
        least_weight(weights, weight + 1)
    }
}

/// The ranks and the number of levels of the tree of weights, or why they are
/// refused.
pub open spec fn pivco_tree(weights: Seq<u8>) -> Result<(Seq<Rank>, nat), ErrorView> {
    if weights.len() > MAX_SYMBOLS {
        Err(detailed(ErrorKind::Malformed, "pivco_huffman has too many weights"@))
    } else {
        match table_log(weights) {
            Err(error) => Err(error),
            Ok(log) => match least_weight(weights, 1) {
                None => Err(
                    detailed(ErrorKind::Malformed, "pivco_huffman weights contain no symbols"@),
                ),
                Some(least) => if least > log + 1 {
                    Err(detailed(ErrorKind::Malformed, "pivco_huffman tree depth is invalid"@))
                } else {
                    let levels = (log + 2 - least) as nat;
                    match tree_ranks_from(weights, log as nat, levels, 0, 0, Seq::empty()) {
                        Err(error) => Err(error),
                        Ok(ranks) => if ranks.len() == 0 {
                            Err(detailed(ErrorKind::Malformed, "pivco_huffman tree has no ranks"@))
                        } else {
                            Ok((ranks, levels))
                        },
                    }
                },
            },
        }
    }
}

/// A tree of symbols, as the list of its ranks.
pub struct Tree {
    ranks: Vec<Rank>,
    num_levels: usize,
}

/// Whether the ranks from `first` to `end` are one leaf.
pub open spec fn leaf_range(ranks: Seq<Rank>, first: nat, end: nat) -> bool {
    first < ranks.len() && first + bit_range(ranks[first as int].flat_depth as nat) == end
}

/// Whether the ranks from `first` to `end` are one leaf of a single symbol.
pub open spec fn constant_leaf(ranks: Seq<Rank>, first: nat, end: nat) -> bool {
    leaf_range(ranks, first, end) && ranks[first as int].flat_depth == 0
}

/// Whether the code of a rank has its bit at `level` set, counted from the top.
pub open spec fn code_bit(rank: Rank, level: nat) -> bool {
    (rank.codeword >> ((15 - level) as u16)) & 1 == 1
}

/// The first rank from `index` to `end` whose code has its bit at `level` set.
pub open spec fn first_one(ranks: Seq<Rank>, level: nat, index: nat, end: nat) -> nat
    decreases end - index,
{
    if index >= end || code_bit(ranks[index as int], level) {
        index
    } else {
        first_one(ranks, level, index + 1, end)
    }
}

/// Where the ranks from `first` to `end` split at a level.
pub open spec fn tree_split(
    ranks: Seq<Rank>,
    levels: nat,
    level: nat,
    first: nat,
    end: nat,
) -> Result<nat, ErrorView> {
    if level >= levels || first + 1 >= end || end > ranks.len() {
        Err(detailed(ErrorKind::Malformed, "pivco_huffman tree range cannot split"@))
    } else if code_bit(ranks[first as int], level) || first_one(ranks, level, first + 1, end)
        >= end {
        Err(detailed(ErrorKind::Malformed, "pivco_huffman tree split is invalid"@))
    } else {
        Ok(first_one(ranks, level, first + 1, end))
    }
}

/// The number of set bits among the first `count` of a bitmap.
pub open spec fn ones_before(bitmap: Seq<u8>, count: nat) -> nat
    decreases count,
{
    if count == 0 {
        0
    } else {
        ones_before(bitmap, (count - 1) as nat) + (if bit_at(bitmap, count - 1) {
            1nat
        } else {
            0nat
        })
    }
}

/// The bytes behind `position`, rounded up to a byte, that hold `bits` bits; and the
/// position behind those bits.
pub open spec fn bitmap_at(bytes: Seq<u8>, position: nat, bits: nat) -> Result<
    (Seq<u8>, nat),
    ErrorView,
> {
    let start = (position + 7) / 8;
    let end = start + (bits + 7) / 8;
    if 8 * bytes.len() > usize::MAX {
        Err(plain(ErrorKind::IntegerOverflow))
    } else if end > bytes.len() {
        Err(detailed(ErrorKind::Truncated, "pivco_huffman bitstream is truncated"@))
    } else {
        Ok((bytes.subrange(start as int, end as int), 8 * start + bits))
    }
}

/// The integer in the `bits` bits behind `position`, and the position behind it.
pub open spec fn int_at(bytes: Seq<u8>, position: nat, bits: nat) -> Result<
    (nat, nat),
    ErrorView,
> {
    if position + bits > usize::MAX || 8 * bytes.len() > usize::MAX {
        Err(plain(ErrorKind::IntegerOverflow))
    } else if position + bits > 8 * bytes.len() {
        Err(detailed(ErrorKind::Truncated, "pivco_huffman bitstream is truncated"@))
    } else {
        Ok((bit_field(bytes, position as int, bits), position + bits))
    }
}

/// The symbols of a leaf, and the position behind their bits.
pub open spec fn pivco_leaf(
    ranks: Seq<Rank>,
    bytes: Seq<u8>,
    first: nat,
    count: nat,
    position: nat,
) -> Result<(Seq<u8>, nat), ErrorView> {
    let depth = ranks[first as int].flat_depth as nat;
    if depth == 0 {
        Ok((Seq::new(count, |i: int| ranks[first as int].symbol), position))
    } else if count * depth > usize::MAX {
        Err(plain(ErrorKind::IntegerOverflow))
    } else {
        match bitmap_at(bytes, position, count * depth) {
            Err(error) => Err(error),
            Ok((bitmap, next)) => Ok(
                (
                    Seq::new(
                        count,
                        |i: int| ranks[first as int + bit_field(bitmap, i * depth, depth)].symbol,
                    ),
                    next,
                ),
            ),
        }
    }
}

/// Two lists woven together: a set bit takes the next of `right`, a clear one the
/// next of `left`.
pub open spec fn merged(bitmap: Seq<u8>, count: nat, left: Seq<u8>, right: Seq<u8>) -> Seq<u8> {
    Seq::new(
        count,
        |i: int|
            if bit_at(bitmap, i) {
                right[ones_before(bitmap, i as nat) as int]
            } else {
                left[i - ones_before(bitmap, i as nat)]
            },
    )
}

/// How many of `count` symbols go to the right child of a node, and the position
/// behind that number.
pub open spec fn right_count(
    bytes: Seq<u8>,
    bitmap: Seq<u8>,
    count: nat,
    implied: bool,
    position: nat,
) -> Result<(nat, nat), ErrorView> {
    let ones = ones_before(bitmap, count);
    if implied {
        Ok((ones, position))
    } else {
        match int_at(bytes, position, bit_length(count)) {
            Err(error) => Err(error),
            Ok((encoded, next)) => if encoded > count {
                Err(detailed(ErrorKind::Malformed, "pivco_huffman child count is too large"@))
            } else if encoded != ones {
                Err(
                    detailed(
                        ErrorKind::Malformed,
                        "pivco_huffman child count does not match bitmap"@,
                    ),
                )
            } else {
                Ok((ones, next))
            },
        }
    }
}

/// The `count` symbols of the ranks from `first` to `end`, and the position behind
/// their bits.
pub open spec fn pivco_node_symbols(
    ranks: Seq<Rank>,
    levels: nat,
    bytes: Seq<u8>,
    level: nat,
    first: nat,
    end: nat,
    count: nat,
    position: nat,
) -> Result<(Seq<u8>, nat), ErrorView>
    decreases levels - level,
{
    if leaf_range(ranks, first, end) {
        pivco_leaf(ranks, bytes, first, count, position)
    } else if level >= levels {
        Err(detailed(ErrorKind::Malformed, "pivco_huffman tree range exceeds tree depth"@))
    } else {
        match tree_split(ranks, levels, level, first, end) {
            Err(error) => Err(error),
            Ok(split) => match bitmap_at(bytes, position, count) {
                Err(error) => Err(error),
                Ok((bitmap, position)) => match right_count(
                    bytes,
                    bitmap,
                    count,
                    constant_leaf(ranks, first, split) && constant_leaf(ranks, split, end),
                    position,
                ) {
                    Err(error) => Err(error),
                    Ok((ones, position)) => match pivco_node_symbols(
                        ranks,
                        levels,
                        bytes,
                        level + 1,
                        first,
                        split,
                        (count - ones) as nat,
                        position,
                    ) {
                        Err(error) => Err(error),
                        Ok((left, position)) => match pivco_node_symbols(
                            ranks,
                            levels,
                            bytes,
                            level + 1,
                            split,
                            end,
                            ones,
                            position,
                        ) {
                            Err(error) => Err(error),
                            Ok((right, position)) => Ok(
                                (merged(bitmap, count, left, right), position),
                            ),
                        },
                    },
                },
            },
        }
    }
}

/// The symbols of the blocks behind `output`.
pub open spec fn pivco_blocks_from(
    ranks: Seq<Rank>,
    levels: nat,
    bytes: Seq<u8>,
    block_size: nat,
    remaining: nat,
    position: nat,
    output: Seq<u8>,
) -> Result<(Seq<u8>, nat), ErrorView>
    decreases remaining,
{
    let block = if block_size < remaining {
        block_size
    } else {
        remaining
    };
    if remaining == 0 || block == 0 {
        Ok((output, position))
    } else {
        match pivco_node_symbols(ranks, levels, bytes, 0, 0, ranks.len(), block, position) {
            Err(error) => Err(error),
            Ok((symbols, position)) => pivco_blocks_from(
                ranks,
                levels,
                bytes,
                block_size,
                (remaining - block) as nat,
                position,
                output + symbols,
            ),
        }
    }
}

/// What a pivco_huffman node produces.
pub open spec fn pivco_huffman_node(
    inputs: Seq<StreamView>,
    header: Seq<u8>,
    limits: Limits,
) -> Result<Seq<u8>, ErrorView> {
    if inputs.len() != 2 {
        Err(
            detailed(
                ErrorKind::InvalidGraph,
                "pivco_huffman input count does not match node shape"@,
            ),
        )
    } else if inputs[0].element_width != 1 || inputs[0].string_lengths is Some {
        Err(
            detailed(ErrorKind::InvalidType, "pivco_huffman weights stream must be byte numeric"@),
        )
    } else if inputs[1].element_width != 1 || inputs[1].string_lengths is Some {
        Err(detailed(ErrorKind::InvalidType, "pivco_huffman bitstream must be serial bytes"@))
    } else {
        let weights = inputs[0].bytes;
        let bytes = inputs[1].bytes;
        match pivco_header(header) {
            Err(error) => Err(error),
            Ok(parsed) => if !limits.admits(parsed.decoded_size as int) {
                Err(output_limit_error())
            } else if parsed.decoded_size == 0 {
                if weights.len() != 0 || bytes.len() != 0 {
                    Err(
                        detailed(
                            ErrorKind::Malformed,
                            "empty pivco_huffman output must have empty inputs"@,
                        ),
                    )
                } else {
                    Ok(Seq::empty())
                }
            } else if weights.len() == 0 {
                Err(
                    detailed(
                        ErrorKind::Malformed,
                        "non-empty pivco_huffman output requires weights"@,
                    ),
                )
            } else {
                match pivco_tree(weights) {
                    Err(error) => Err(error),
                    Ok((ranks, levels)) => match pivco_blocks_from(
                        ranks,
                        levels,
                        bytes,
                        parsed.block_size as nat,
                        parsed.decoded_size as nat,
                        0,
                        Seq::empty(),
                    ) {
                        Err(error) => Err(error),
                        Ok((symbols, position)) => if 8 * bytes.len() > usize::MAX {
                            Err(plain(ErrorKind::IntegerOverflow))
                        } else if (position + 7) / 8 != bytes.len() {
                            Err(
                                detailed(
                                    ErrorKind::Malformed,
                                    "pivco_huffman bitstream was not consumed exactly"@,
                                ),
                            )
                        } else {
                            Ok(symbols)
                        },
                    },
                }
            },
        }
    }
}

/// Every node of the tree decodes as many symbols as it is asked for, and the
/// position never moves back.
pub proof fn law_pivco_node_yields_count(
    ranks: Seq<Rank>,
    levels: nat,
    bytes: Seq<u8>,
    level: nat,
    first: nat,
    end: nat,
    count: nat,
    position: nat,
)
    requires
        pivco_node_symbols(ranks, levels, bytes, level, first, end, count, position) is Ok,
    ensures
        pivco_node_symbols(
            ranks,
            levels,
            bytes,
            level,
            first,
            end,
            count,
            position,
        )->Ok_0.0.len() == count,
        pivco_node_symbols(ranks, levels, bytes, level, first, end, count, position)->Ok_0.1
            >= position,
    decreases levels - level,
{
    if leaf_range(ranks, first, end) {
    } else if level < levels {
        let split = tree_split(ranks, levels, level, first, end)->Ok_0;
        let (bitmap, position1) = bitmap_at(bytes, position, count)->Ok_0;
        let implied = constant_leaf(ranks, first, split) && constant_leaf(ranks, split, end);
        let (ones, position2) = right_count(bytes, bitmap, count, implied, position1)->Ok_0;
        lemma_ones_bound(bitmap, count);
        law_pivco_node_yields_count(
            ranks,
            levels,
            bytes,
            level + 1,
            first,
            split,
            (count - ones) as nat,
            position2,
        );
        let position3 = pivco_node_symbols(
            ranks,
            levels,
            bytes,
            level + 1,
            first,
            split,
            (count - ones) as nat,
            position2,
        )->Ok_0.1;
        law_pivco_node_yields_count(
            ranks,
            levels,
            bytes,
            level + 1,
            split,
            end,
            ones,
            position3,
        );
    }
}

proof fn lemma_ones_bound(bitmap: Seq<u8>, count: nat)
    ensures
        ones_before(bitmap, count) <= count,
    decreases count,
{
    if count > 0 {
        lemma_ones_bound(bitmap, (count - 1) as nat);
    }
}

proof fn lemma_ones_monotone(bitmap: Seq<u8>, small: nat, large: nat)
    requires
        small <= large,
    ensures
        ones_before(bitmap, small) <= ones_before(bitmap, large),
        small - ones_before(bitmap, small) <= large - ones_before(bitmap, large),
    decreases large,
{
    if small < large {
        lemma_ones_monotone(bitmap, small, (large - 1) as nat);
    }
}

/// The ranks that a leaf takes in a code word.
fn push_leaf_ranks(
    ranks: &mut Vec<Rank>,
    leaf: &[u8],
    codeword: u32,
    depth: usize,
    total: usize,
) -> (result: Result<(), Error>)
    requires
        depth <= total <= 16,
        leaf@.len() as nat == bit_range(depth as nat),
        shallow(old(ranks)@),
    ensures
        shallow(final(ranks)@),
        match result {
            Ok(_) => leaf_ranks_from(
                leaf@,
                codeword as nat,
                depth as nat,
                total as nat,
                0,
                old(ranks)@,
            ) == Ok::<Seq<Rank>, ErrorView>(final(ranks)@),
            Err(error) => leaf_ranks_from(
                leaf@,
                codeword as nat,
                depth as nat,
                total as nat,
                0,
                old(ranks)@,
            ) == Err::<Seq<Rank>, ErrorView>(error@),
        },
{
    let shift: u64 = power_of_two(depth);
    let top: u64 = power_of_two(16 - total);
    let mut index: usize = 0;
    proof {
        lemma_bit_range_monotone(depth as nat, 16);
        lemma_bit_range_monotone((16 - total) as nat, 16);
        lemma_bit_range_values();
    }
    while index < leaf.len()
        invariant
            index <= leaf@.len(),
            leaf@.len() <= 0x1_0000,
            depth <= total <= 16,
            shift as nat == bit_range(depth as nat),
            top as nat == bit_range((16 - total) as nat),
            shift <= 0x1_0000,
            top <= 0x1_0000,
            shallow(ranks@),
            leaf_ranks_from(
                leaf@,
                codeword as nat,
                depth as nat,
                total as nat,
                0,
                old(ranks)@,
            ) == leaf_ranks_from(
                leaf@,
                codeword as nat,
                depth as nat,
                total as nat,
                index as nat,
                ranks@,
            ),
        decreases leaf.len() - index,
    {
        proof {
            assert(codeword * shift <= 0xffff_ffff * 0x1_0000) by (nonlinear_arith)
                requires
                    codeword <= 0xffff_ffff,
                    shift <= 0x1_0000,
            ;
        }
        let bits: u64 = codeword as u64 * shift % 0x1_0000_0000 + index as u64;
        if bits > 0xffff_ffff {
            return Err(Error::new(ErrorKind::IntegerOverflow));
        }
        proof {
            assert(bits * top <= 0xffff_ffff * 0x1_0000) by (nonlinear_arith)
                requires
                    bits <= 0xffff_ffff,
                    top <= 0x1_0000,
            ;
        }
        let moved: u64 = bits * top % 0x1_0000_0000;
        if total != 0 && moved > 0xffff {
            return Err(Error::new(ErrorKind::IntegerOverflow));
        }
        let code: u16 = if total == 0 {
            0
        } else {
            moved as u16
        };
        ranks.push(Rank { symbol: leaf[index], flat_depth: depth as u8, codeword: code });
        index = index + 1;
    }
    Ok(())
}

/// The ranks of the leaves of a level.
fn push_level_ranks(ranks: &mut Vec<Rank>, leaves: &Vec<Vec<u8>>, level: usize, start: u32) -> (result:
    Result<u32, Error>)
    requires
        level <= 16,
        shallow(old(ranks)@),
    ensures
        shallow(final(ranks)@),
        match result {
            Ok(codeword) => level_ranks_from(
                leaf_views(leaves@),
                level as nat,
                0,
                start as nat,
                old(ranks)@,
            ) == Ok::<(nat, Seq<Rank>), ErrorView>((codeword as nat, final(ranks)@)),
            Err(error) => level_ranks_from(
                leaf_views(leaves@),
                level as nat,
                0,
                start as nat,
                old(ranks)@,
            ) == Err::<(nat, Seq<Rank>), ErrorView>(error@),
        },
{
    let ghost views = leaf_views(leaves@);
    let mut codeword: u32 = start;
    let mut index: usize = 0;
    while index < leaves.len()
        invariant
            index <= leaves@.len(),
            level <= 16,
            shallow(ranks@),
            views == leaf_views(leaves@),
            level_ranks_from(views, level as nat, 0, start as nat, old(ranks)@)
                == level_ranks_from(views, level as nat, index as nat, codeword as nat, ranks@),
        decreases leaves.len() - index,
    {
        let leaf = leaves[index].as_slice();
        assert(views[index as int] == leaf@);
        if leaf.len() == 0 {
            return Err(fail(ErrorKind::Malformed, "pivco_huffman leaf size is invalid"));
        }
        let depth: usize = count_bits(leaf.len() as u64) - 1;
        if leaf.len() as u64 != power_of_two(depth) {
            return Err(fail(ErrorKind::Malformed, "pivco_huffman leaf size is invalid"));
        }
        if level + depth > 16 {
            return Err(fail(ErrorKind::Malformed, "pivco_huffman codeword is too wide"));
        }
        push_leaf_ranks(ranks, leaf, codeword, depth, level + depth)?;
        codeword = match codeword.checked_add(1) {
            Some(codeword) => codeword,
            None => {
                return Err(Error::new(ErrorKind::IntegerOverflow));
            },
        };
        index = index + 1;
    }
    Ok(codeword)
}

/// Finds the least weight that has leaves.
fn find_least_weight(weights: &[u8]) -> (least: Option<usize>)
    requires
        weights@.len() <= MAX_SYMBOLS,
    ensures
        match least {
            Some(weight) => least_weight(weights@, 1) == Some(weight as nat) && 1 <= weight <= 13,
            None => least_weight(weights@, 1) is None,
        },
{
    let mut weight: usize = 1;
    while weight <= 13
        invariant
            1 <= weight <= 14,
            weights@.len() <= MAX_SYMBOLS,
            least_weight(weights@, 1) == least_weight(weights@, weight as nat),
        decreases 14 - weight,
    {
        let leaves = collect_leaves(weights, weight);
        assert(leaf_views(leaves@).len() == leaves@.len());
        if leaves.len() > 0 {
            return Some(weight);
        }
        weight = weight + 1;
    }
    None
}

impl Tree {
    /// The symbols of the tree with their codes, in code order.
    pub closed spec fn ranks(self) -> Seq<Rank> {
        self.ranks@
    }

    /// The number of levels of the tree.
    pub closed spec fn levels(self) -> nat {
        self.num_levels as nat
    }

    /// Whether the tree has symbols and few enough levels for its codes.
    pub closed spec fn well_formed(self) -> bool {
        &&& 0 < self.ranks@.len() <= MAX_SYMBOLS
        &&& self.num_levels <= 13
        &&& shallow(self.ranks@)
    }

    /// Builds the tree of weights.
    pub fn from_weights(weights: &[u8]) -> (result: Result<Self, Error>)
        ensures
            match result {
                Ok(tree) => pivco_tree(weights@) == Ok::<(Seq<Rank>, nat), ErrorView>(
                    (tree.ranks(), tree.levels()),
                ) && tree.well_formed(),
                Err(error) => pivco_tree(weights@) == Err::<(Seq<Rank>, nat), ErrorView>(error@),
            },
    {
        if weights.len() > MAX_SYMBOLS {
            return Err(fail(ErrorKind::Malformed, "pivco_huffman has too many weights"));
        }
        let log: usize = compute_table_log(weights)?;
        let least: usize = match find_least_weight(weights) {
            Some(least) => least,
            None => {
                return Err(fail(ErrorKind::Malformed, "pivco_huffman weights contain no symbols"));
            },
        };
        if least > log + 1 {
            return Err(fail(ErrorKind::Malformed, "pivco_huffman tree depth is invalid"));
        }
        let num_levels: usize = log + 2 - least;
        let ranks = Tree::assign_ranks_and_codewords(weights, log, num_levels)?;
        if ranks.len() == 0 {
            return Err(fail(ErrorKind::Malformed, "pivco_huffman tree has no ranks"));
        }
        Ok(Tree { ranks, num_levels })
    }

    /// Lists the symbols of all levels with their codes.
    fn assign_ranks_and_codewords(weights: &[u8], log: usize, num_levels: usize) -> (result: Result<
        Vec<Rank>,
        Error,
    >)
        requires
            weights@.len() <= MAX_SYMBOLS,
            log <= MAX_TABLE_LOG,
            1 <= num_levels <= log + 1,
        ensures
            outcome(result) == tree_ranks_from(
                weights@,
                log as nat,
                num_levels as nat,
                0,
                0,
                Seq::empty(),
            ),
            match result {
                Ok(ranks) => ranks@.len() <= MAX_SYMBOLS && shallow(ranks@),
                Err(_) => true,
            },
    {
        let mut ranks: Vec<Rank> = Vec::new();
        let mut codeword: u32 = 0;
        let mut level: usize = 0;
        let ghost total = tree_ranks_from(
            weights@,
            log as nat,
            num_levels as nat,
            0,
            0,
            Seq::empty(),
        );
        proof {
            assert(ranks@ =~= Seq::empty());
        }
        while level < num_levels
            invariant
                level <= num_levels <= log + 1,
                1 <= num_levels,
                log <= MAX_TABLE_LOG,
                weights@.len() <= MAX_SYMBOLS,
                shallow(ranks@),
                total == tree_ranks_from(
                    weights@,
                    log as nat,
                    num_levels as nat,
                    0,
                    0,
                    Seq::empty(),
                ),
                total == tree_ranks_from(
                    weights@,
                    log as nat,
                    num_levels as nat,
                    level as nat,
                    codeword as nat,
                    ranks@,
                ),
            decreases num_levels - level,
        {
            let leaves = collect_leaves(weights, log + 1 - level);
            codeword = push_level_ranks(&mut ranks, &leaves, level, codeword)?;
            if level + 1 < num_levels {
                codeword = (codeword as u64 * 2 % 0x1_0000_0000) as u32;
            }
            level = level + 1;
        }
        if codeword as u64 != power_of_two(num_levels - 1) || ranks.len() > MAX_SYMBOLS {
            return Err(
                fail(ErrorKind::Malformed, "pivco_huffman weights do not form a complete tree"),
            );
        }
        Ok(ranks)
    }

    /// Whether the ranks from `first_rank` to `rank_end` are one leaf.
    fn range_is_leaf(&self, first_rank: usize, rank_end: usize) -> (result: bool)
        requires
            self.well_formed(),
            rank_end <= self.ranks().len(),
        ensures
            result == leaf_range(self.ranks(), first_rank as nat, rank_end as nat),
    {
        if first_rank >= self.ranks.len() {
            return false;
        }
        let width: u64 = power_of_two(self.ranks[first_rank].flat_depth as usize);
        proof {
            lemma_bit_range_monotone(0, self.ranks@[first_rank as int].flat_depth as nat);
            lemma_bit_range_values();
        }
        rank_end > first_rank && width == (rank_end - first_rank) as u64
    }

    /// Whether the ranks from `first_rank` to `rank_end` are one leaf of a single
    /// symbol.
    fn range_is_constant_leaf(&self, first_rank: usize, rank_end: usize) -> (result: bool)
        requires
            self.well_formed(),
            rank_end <= self.ranks().len(),
        ensures
            result == constant_leaf(self.ranks(), first_rank as nat, rank_end as nat),
    {
        self.range_is_leaf(first_rank, rank_end) && self.ranks[first_rank].flat_depth == 0
    }

    /// Finds where the ranks from `first_rank` to `rank_end` split at a level.
    fn split_rank(&self, level: usize, first_rank: usize, rank_end: usize) -> (result: Result<
        usize,
        Error,
    >)
        requires
            self.well_formed(),
            first_rank < rank_end <= self.ranks().len(),
        ensures
            match result {
                Ok(split) => tree_split(
                    self.ranks(),
                    self.levels(),
                    level as nat,
                    first_rank as nat,
                    rank_end as nat,
                ) == Ok::<nat, ErrorView>(split as nat) && first_rank < split < rank_end,
                Err(error) => tree_split(
                    self.ranks(),
                    self.levels(),
                    level as nat,
                    first_rank as nat,
                    rank_end as nat,
                ) == Err::<nat, ErrorView>(error@),
            },
    {
        if level >= self.num_levels || first_rank + 1 >= rank_end {
            return Err(fail(ErrorKind::Malformed, "pivco_huffman tree range cannot split"));
        }
        let shift: u16 = (15 - level) as u16;
        if (self.ranks[first_rank].codeword >> shift) & 1 == 1 {
            return Err(fail(ErrorKind::Malformed, "pivco_huffman tree split is invalid"));
        }
        let mut split: usize = first_rank + 1;
        while split < rank_end && (self.ranks[split].codeword >> shift) & 1 != 1
            invariant
                first_rank < split <= rank_end <= self.ranks@.len(),
                level < self.num_levels,
                self.well_formed(),
                shift == 15 - level,
                first_one(self.ranks@, level as nat, (first_rank + 1) as nat, rank_end as nat)
                    == first_one(self.ranks@, level as nat, split as nat, rank_end as nat),
            decreases rank_end - split,
        {
            split = split + 1;
        }
        if split >= rank_end {
            return Err(fail(ErrorKind::Malformed, "pivco_huffman tree split is invalid"));
        }
        Ok(split)
    }
}

/// Reads bitmaps and integers off a bit stream.
pub struct PivcoBitReader<'a> {
    bytes: &'a [u8],
    bit_pos: usize,
}

impl<'a> PivcoBitReader<'a> {
    /// The buffer that is read.
    pub closed spec fn source(self) -> Seq<u8> {
        self.bytes@
    }

    /// How many bits were read or passed over.
    pub closed spec fn position(self) -> nat {
        self.bit_pos as nat
    }

    /// The position lies inside the buffer.
    pub closed spec fn well_formed(self) -> bool {
        self.bit_pos <= 8 * self.bytes@.len()
    }

    pub fn new(bytes: &'a [u8]) -> (reader: Self)
        ensures
            reader.source() == bytes@,
            reader.position() == 0,
            reader.well_formed(),
    {
        PivcoBitReader { bytes, bit_pos: 0 }
    }

    /// Takes a bitmap of `bits` bits, from the next byte on.
    pub fn aligned_bitmap(&mut self, bits: usize) -> (result: Result<&'a [u8], Error>)
        requires
            old(self).well_formed(),
        ensures
            final(self).source() == old(self).source(),
            final(self).well_formed(),
            match result {
                Ok(bitmap) => bitmap_at(old(self).source(), old(self).position(), bits as nat)
                    == Ok::<(Seq<u8>, nat), ErrorView>((bitmap@, final(self).position())),
                Err(error) => bitmap_at(old(self).source(), old(self).position(), bits as nat)
                    == Err::<(Seq<u8>, nat), ErrorView>(error@),
            },
    {
        if self.bytes.len() > usize::MAX / 8 {
            return Err(Error::new(ErrorKind::IntegerOverflow));
        }
        let start: usize = self.bit_pos / 8 + (if self.bit_pos % 8 == 0 {
            0
        } else {
            1
        });
        let len: usize = bits / 8 + (if bits % 8 == 0 {
            0
        } else {
            1
        });
        if len > self.bytes.len() - start {
            return Err(fail(ErrorKind::Truncated, "pivco_huffman bitstream is truncated"));
        }
        let bitmap = slice_subrange(self.bytes, start, start + len);
        self.bit_pos = 8 * start + bits;
        Ok(bitmap)
    }

    /// Takes an integer of `bits` bits.
    pub fn read_int(&mut self, bits: usize) -> (result: Result<usize, Error>)
        requires
            old(self).well_formed(),
            bits <= 32,
        ensures
            final(self).source() == old(self).source(),
            final(self).well_formed(),
            match result {
                Ok(value) => int_at(old(self).source(), old(self).position(), bits as nat) == Ok::<
                    (nat, nat),
                    ErrorView,
                >((value as nat, final(self).position())),
                Err(error) => int_at(old(self).source(), old(self).position(), bits as nat)
                    == Err::<(nat, nat), ErrorView>(error@),
            },
    {
        let end: usize = match self.bit_pos.checked_add(bits) {
            Some(end) => end,
            None => {
                return Err(Error::new(ErrorKind::IntegerOverflow));
            },
        };
        let total_bits: usize = match self.bytes.len().checked_mul(8) {
            Some(total_bits) => total_bits,
            None => {
                return Err(Error::new(ErrorKind::IntegerOverflow));
            },
        };
        if end > total_bits {
            return Err(fail(ErrorKind::Truncated, "pivco_huffman bitstream is truncated"));
        }
        proof {
            lemma_bit_field_bound(self.bytes@, self.bit_pos as int, bits as nat);
            lemma_bit_range_monotone(bits as nat, 32);
            lemma_bit_range_values();
        }
        let value: usize = read_bit_field(self.bytes, self.bit_pos, bits) as usize;
        self.bit_pos = end;
        Ok(value)
    }

    /// Counts the bytes that were read, the last one in part.
    pub fn consumed_bytes(&self) -> (result: Result<usize, Error>)
        requires
            self.well_formed(),
        ensures
            match result {
                Ok(count) => 8 * self.source().len() <= usize::MAX && count as nat == (
                self.position() + 7) / 8,
                Err(error) => 8 * self.source().len() > usize::MAX && error@ == plain(
                    ErrorKind::IntegerOverflow,
                ),
            },
    {
        if self.bytes.len() > usize::MAX / 8 {
            return Err(Error::new(ErrorKind::IntegerOverflow));
        }
        Ok(
            self.bit_pos / 8 + (if self.bit_pos % 8 == 0 {
                0
            } else {
                1
            }),
        )
    }
}

/// The symbols of a node of the tree.
pub enum DecodeResult {
    Constant(u8),
    Bytes(Vec<u8>),
}

impl DecodeResult {
    /// The `count` symbols of the node.
    pub open spec fn symbols(self, count: nat) -> Seq<u8> {
        match self {
            DecodeResult::Constant(symbol) => Seq::new(count, |i: int| symbol),
            DecodeResult::Bytes(bytes) => bytes@,
        }
    }

    /// Symbol `index` of `count`.
    fn symbol_at(&self, index: usize, Ghost(count): Ghost<nat>) -> (symbol: u8)
        requires
            index < self.symbols(count).len(),
        ensures
            symbol == self.symbols(count)[index as int],
    {
        match self {
            DecodeResult::Constant(symbol) => *symbol,
            DecodeResult::Bytes(bytes) => bytes[index],
        }
    }
}

/// Counts the set bits among the first `count` of a bitmap.
fn bitmap_ones(bitmap: &[u8], count: usize) -> (ones: usize)
    requires
        count <= 8 * bitmap@.len(),
    ensures
        ones as nat == ones_before(bitmap@, count as nat),
{
    let mut ones: usize = 0;
    let mut index: usize = 0;
    while index < count
        invariant
            index <= count <= 8 * bitmap@.len(),
            ones <= index,
            ones as nat == ones_before(bitmap@, index as nat),
        decreases count - index,
    {
        if (bitmap[index / 8] >> ((index % 8) as u8)) & 1 == 1 {
            ones = ones + 1;
        }
        index = index + 1;
    }
    ones
}

/// Weaves the symbols of two nodes together.
fn merge_results(
    bitmap: &[u8],
    count: usize,
    left: &DecodeResult,
    right: &DecodeResult,
) -> (output: Vec<u8>)
    requires
        count <= 8 * bitmap@.len(),
        left.symbols((count - ones_before(bitmap@, count as nat)) as nat).len() == count
            - ones_before(bitmap@, count as nat),
        right.symbols(ones_before(bitmap@, count as nat)).len() == ones_before(
            bitmap@,
            count as nat,
        ),
        ones_before(bitmap@, count as nat) <= count,
    ensures
        output@ == merged(
            bitmap@,
            count as nat,
            left.symbols((count - ones_before(bitmap@, count as nat)) as nat),
            right.symbols(ones_before(bitmap@, count as nat)),
        ),
{
    let ghost ones = ones_before(bitmap@, count as nat);
    let ghost zeros = (count - ones) as nat;
    let ghost expected = merged(bitmap@, count as nat, left.symbols(zeros), right.symbols(ones));
    let mut output: Vec<u8> = Vec::new();
    let mut right_index: usize = 0;
    let mut index: usize = 0;
    while index < count
        invariant
            index <= count <= 8 * bitmap@.len(),
            output@.len() == index,
            ones == ones_before(bitmap@, count as nat),
            ones <= count,
            zeros == count - ones,
            left.symbols(zeros).len() == zeros,
            right.symbols(ones).len() == ones,
            right_index as nat == ones_before(bitmap@, index as nat),
            right_index <= index,
            expected == merged(
                bitmap@,
                count as nat,
                left.symbols(zeros),
                right.symbols(ones),
            ),
            forall|i: int| 0 <= i < index ==> #[trigger] output@[i] == expected[i],
        decreases count - index,
    {
        proof {
            lemma_ones_monotone(bitmap@, (index + 1) as nat, count as nat);
        }
        if (bitmap[index / 8] >> ((index % 8) as u8)) & 1 == 1 {
            output.push(right.symbol_at(right_index, Ghost(ones)));
            right_index = right_index + 1;
        } else {
            output.push(left.symbol_at(index - right_index, Ghost(zeros)));
        }
        index = index + 1;
    }
    proof {
        assert(output@ =~= expected);
    }
    output
}

/// Decodes the symbols of a leaf.
fn decode_leaf<'a>(
    tree: &Tree,
    reader: &mut PivcoBitReader<'a>,
    first_rank: usize,
    count: usize,
    Ghost(rank_end): Ghost<nat>,
) -> (result: Result<DecodeResult, Error>)
    requires
        tree.well_formed(),
        old(reader).well_formed(),
        leaf_range(tree.ranks(), first_rank as nat, rank_end),
        rank_end <= tree.ranks().len(),
    ensures
        final(reader).source() == old(reader).source(),
        final(reader).well_formed(),
        match result {
            Ok(decoded) => pivco_leaf(
                tree.ranks(),
                old(reader).source(),
                first_rank as nat,
                count as nat,
                old(reader).position(),
            ) == Ok::<(Seq<u8>, nat), ErrorView>(
                (decoded.symbols(count as nat), final(reader).position()),
            ),
            Err(error) => pivco_leaf(
                tree.ranks(),
                old(reader).source(),
                first_rank as nat,
                count as nat,
                old(reader).position(),
            ) == Err::<(Seq<u8>, nat), ErrorView>(error@),
        },
{
    let depth: usize = tree.ranks[first_rank].flat_depth as usize;
    if depth == 0 {
        return Ok(DecodeResult::Constant(tree.ranks[first_rank].symbol));
    }
    let bitmap_bits: usize = match count.checked_mul(depth) {
        Some(bitmap_bits) => bitmap_bits,
        None => {
            return Err(Error::new(ErrorKind::IntegerOverflow));
        },
    };
    let bitmap = reader.aligned_bitmap(bitmap_bits)?;
    let ghost ranks = tree.ranks();
    let ghost expected = Seq::new(
        count as nat,
        |i: int|
            ranks[first_rank as int + bit_field(bitmap@, i * (depth as nat), depth as nat)].symbol,
    );
    let mut output: Vec<u8> = Vec::new();
    let mut position: usize = 0;
    proof {
        assert(0 * depth == 0);
    }
    while output.len() < count
        invariant
            output@.len() <= count,
            tree.well_formed(),
            ranks == tree.ranks(),
            1 <= depth <= 16,
            depth == ranks[first_rank as int].flat_depth,
            leaf_range(ranks, first_rank as nat, rank_end),
            rank_end <= ranks.len(),
            bitmap_bits == count * depth,
            bitmap_bits <= 8 * bitmap@.len(),
            position == output@.len() * depth,
            expected == Seq::new(
                count as nat,
                |i: int|
                    ranks[first_rank as int + bit_field(
                        bitmap@,
                        i * (depth as nat),
                        depth as nat,
                    )].symbol,
            ),
            forall|i: int| 0 <= i < output@.len() ==> #[trigger] output@[i] == expected[i],
        decreases count - output@.len(),
    {
        proof {
            crate::stream::lemma_element_inside(output@.len(), count as nat, depth as nat);
            lemma_bit_field_bound(bitmap@, position as int, depth as nat);
            lemma_bit_range_monotone(depth as nat, 16);
            lemma_bit_range_values();
        }
        let index: usize = read_bit_field(bitmap, position, depth) as usize;
        output.push(tree.ranks[first_rank + index].symbol);
        position = position + depth;
    }
    proof {
        assert(output@ =~= expected);
    }
    Ok(DecodeResult::Bytes(output))
}

/// Decodes the symbols of the ranks from `first_rank` to `rank_end`.
fn decode_tree_node<'a>(
    tree: &Tree,
    reader: &mut PivcoBitReader<'a>,
    level: usize,
    first_rank: usize,
    rank_end: usize,
    count: usize,
) -> (result: Result<DecodeResult, Error>)
    requires
        tree.well_formed(),
        old(reader).well_formed(),
        first_rank < rank_end <= tree.ranks().len(),
        count <= MAX_BLOCK_SIZE,
        level <= tree.levels(),
    ensures
        final(reader).source() == old(reader).source(),
        final(reader).well_formed(),
        match result {
            Ok(decoded) => pivco_node_symbols(
                tree.ranks(),
                tree.levels(),
                old(reader).source(),
                level as nat,
                first_rank as nat,
                rank_end as nat,
                count as nat,
                old(reader).position(),
            ) == Ok::<(Seq<u8>, nat), ErrorView>(
                (decoded.symbols(count as nat), final(reader).position()),
            ),
            Err(error) => pivco_node_symbols(
                tree.ranks(),
                tree.levels(),
                old(reader).source(),
                level as nat,
                first_rank as nat,
                rank_end as nat,
                count as nat,
                old(reader).position(),
            ) == Err::<(Seq<u8>, nat), ErrorView>(error@),
        },
    decreases tree.levels() - level,
{
    if tree.range_is_leaf(first_rank, rank_end) {
        return decode_leaf(tree, reader, first_rank, count, Ghost(rank_end as nat));
    }
    if level >= tree.num_levels {
        return Err(fail(ErrorKind::Malformed, "pivco_huffman tree range exceeds tree depth"));
    }
    let split: usize = tree.split_rank(level, first_rank, rank_end)?;
    let left_is_constant: bool = tree.range_is_constant_leaf(first_rank, split);
    let right_is_constant: bool = tree.range_is_constant_leaf(split, rank_end);
    let bitmap = reader.aligned_bitmap(count)?;
    let ones: usize = bitmap_ones(bitmap, count);
    proof {
        lemma_ones_bound(bitmap@, count as nat);
        lemma_bit_range_monotone(29, 32);
        lemma_bit_range_values();
        lemma_bit_length_bound(count as nat, 32);
    }
    if !(left_is_constant && right_is_constant) {
        let encoded: usize = reader.read_int(count_bits(count as u64))?;
        if encoded > count {
            return Err(fail(ErrorKind::Malformed, "pivco_huffman child count is too large"));
        }
        if encoded != ones {
            return Err(
                fail(ErrorKind::Malformed, "pivco_huffman child count does not match bitmap"),
            );
        }
    }
    let zeros: usize = count - ones;
    let ghost left_position = reader.position();
    let left = decode_tree_node(tree, reader, level + 1, first_rank, split, zeros)?;
    let ghost right_position = reader.position();
    let right = decode_tree_node(tree, reader, level + 1, split, rank_end, ones)?;
    proof {
        law_pivco_node_yields_count(
            tree.ranks(),
            tree.levels(),
            reader.source(),
            (level + 1) as nat,
            first_rank as nat,
            split as nat,
            zeros as nat,
            left_position,
        );
        law_pivco_node_yields_count(
            tree.ranks(),
            tree.levels(),
            reader.source(),
            (level + 1) as nat,
            split as nat,
            rank_end as nat,
            ones as nat,
            right_position,
        );
    }
    Ok(DecodeResult::Bytes(merge_results(bitmap, count, &left, &right)))
}

/// Appends the symbols of a node.
fn append_result(output: &mut Vec<u8>, decoded: DecodeResult, count: usize)
    ensures
        final(output)@ == old(output)@ + decoded.symbols(count as nat),
{
    let ghost before = output@;
    match decoded {
        DecodeResult::Constant(symbol) => {
            let mut index: usize = 0;
            while index < count
                invariant
                    index <= count,
                    output@ =~= before + Seq::new(index as nat, |i: int| symbol),
                decreases count - index,
            {
                output.push(symbol);
                index = index + 1;
            }
        },
        DecodeResult::Bytes(bytes) => {
            append_bytes(output, bytes.as_slice());
        },
    }
}

/// Decodes a pivco_huffman node.
pub fn decode_pivco_huffman_node(
    inputs: &[StreamInput<'_>],
    header: &[u8],
    limits: Limits,
) -> (result: Result<Vec<u8>, Error>)
    ensures
        outcome(result) == pivco_huffman_node(stream_views(inputs@), header@, limits),
{
    if inputs.len() != 2 {
        return Err(
            fail(ErrorKind::InvalidGraph, "pivco_huffman input count does not match node shape"),
        );
    }
    let weights = inputs[0];
    let bitstream = inputs[1];
    if weights.element_width != 1 || weights.string_lengths.is_some() {
        return Err(
            fail(ErrorKind::InvalidType, "pivco_huffman weights stream must be byte numeric"),
        );
    }
    if bitstream.element_width != 1 || bitstream.string_lengths.is_some() {
        return Err(fail(ErrorKind::InvalidType, "pivco_huffman bitstream must be serial bytes"));
    }
    let parsed = parse_header(header)?;
    check_output_limit(parsed.decoded_size, limits)?;
    let mut output: Vec<u8> = Vec::new();
    proof {
        assert(output@ =~= Seq::empty());
    }
    if parsed.decoded_size == 0 {
        if weights.bytes.len() != 0 || bitstream.bytes.len() != 0 {
            return Err(
                fail(ErrorKind::Malformed, "empty pivco_huffman output must have empty inputs"),
            );
        }
        return Ok(output);
    }
    if weights.bytes.len() == 0 {
        return Err(
            fail(ErrorKind::Malformed, "non-empty pivco_huffman output requires weights"),
        );
    }
    let tree = Tree::from_weights(weights.bytes)?;
    let mut reader = PivcoBitReader::new(bitstream.bytes);
    let ghost views = stream_views(inputs@);
    let ghost total = pivco_blocks_from(
        tree.ranks(),
        tree.levels(),
        bitstream.bytes@,
        parsed.block_size as nat,
        parsed.decoded_size as nat,
        0,
        Seq::empty(),
    );
    let mut remaining: usize = parsed.decoded_size;
    while remaining > 0
        invariant
            tree.well_formed(),
            reader.well_formed(),
            reader.source() == bitstream.bytes@,
            0 < parsed.block_size <= MAX_BLOCK_SIZE,
            total == pivco_blocks_from(
                tree.ranks(),
                tree.levels(),
                bitstream.bytes@,
                parsed.block_size as nat,
                remaining as nat,
                reader.position(),
                output@,
            ),
            views == stream_views(inputs@),
            pivco_huffman_node(views, header@, limits) == (match total {
                Err(error) => Err::<Seq<u8>, ErrorView>(error),
                Ok((symbols, position)) => if 8 * bitstream.bytes@.len() > usize::MAX {
                    Err(plain(ErrorKind::IntegerOverflow))
                } else if (position + 7) / 8 != bitstream.bytes@.len() {
                    Err(
                        detailed(
                            ErrorKind::Malformed,
                            "pivco_huffman bitstream was not consumed exactly"@,
                        ),
                    )
                } else {
                    Ok(symbols)
                },
            }),
        decreases remaining,
    {
        let block_len: usize = if parsed.block_size < remaining {
            parsed.block_size
        } else {
            remaining
        };
        let decoded = decode_tree_node(&tree, &mut reader, 0, 0, tree.ranks.len(), block_len)?;
        append_result(&mut output, decoded, block_len);
        remaining = remaining - block_len;
    }
    if reader.consumed_bytes()? != bitstream.bytes.len() {
        return Err(
            fail(ErrorKind::Malformed, "pivco_huffman bitstream was not consumed exactly"),
        );
    }
    Ok(output)
}

} // verus!
