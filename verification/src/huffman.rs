//! Huffman coding over bytes and over 16-bit symbols.

use vstd::prelude::*;
use vstd::slice::slice_subrange;
use zrip_core::huffman::decode::{decode_4_streams, decode_single_stream};
use zrip_core::huffman::HuffmanDecodeEntry;

use crate::bits::{
    bit_length, bit_range, count_bits, lemma_bit_length_bound, lemma_bit_range_monotone,
    lemma_bit_range_values, power_of_two,
};
use crate::bytes::{le_value, lemma_byte_range_values, lemma_le_value_bound, read_le};
use crate::error::{detailed, fail, outcome, plain, plain_outcome, Error, ErrorKind, ErrorView};
use crate::limits::{check_output_limit, output_limit_error, Limits};
use crate::reverse_bits::{
    be_bits, bits_left, drop_bits, lemma_be_bits_bound, marked_bits, open_reverse, peek_next,
    reverse_open_error, unread_bits,
};
use crate::stream::{
    join_text, lemma_packed_len, packed, push_element, require_numeric_width, required_width_error,
    stream_views, typed_stream, OwnedStream, StreamInput, StreamView,
};

verus! {

/// The cell that the next bits choose: those up to the table log, or all that are
/// left, with zeros behind them.
pub open spec fn next_cell(unread: Seq<bool>, log: nat) -> nat {
    if unread.len() >= log {
        be_bits(unread.take(log as int))
    } else {
        be_bits(unread) * bit_range((log - unread.len()) as nat)
    }
}

/// The bytes behind `symbols` until there are `count`, where the unread bits hold these
/// and nothing more.
pub open spec fn byte_symbols_from(
    table: Seq<(u16, u8)>,
    log: nat,
    unread: Seq<bool>,
    count: nat,
    symbols: Seq<u8>,
) -> Option<Seq<u8>>
    decreases count - symbols.len(),
{
    if symbols.len() >= count {
        if unread.len() == 0 {
            Some(symbols)
        } else {
            None
        }
    } else {
        let (symbol, bits) = table[next_cell(unread, log) as int];
        if unread.len() == 0 || bits > unread.len() {
            None
        } else {
            byte_symbols_from(
                table,
                log,
                unread.skip(bits as int),
                count,
                symbols.push(symbol as u8),
            )
        }
    }
}

/// The `count` bytes of one stream, or the text of the error: a table of one to eleven
/// bits is complete, and the bits below the highest set one choose its cells one after
/// the other until none is left.
pub open spec fn huffman_stream(
    table: Seq<(u16, u8)>,
    table_log: u8,
    data: Seq<u8>,
    count: usize,
) -> Result<Seq<u8>, Seq<char>> {
    let symbols = byte_symbols_from(
        table,
        table_log as nat,
        marked_bits(data),
        count as nat,
        Seq::empty(),
    );
    if 1 <= table_log <= 11 && table.len() >= bit_range(table_log as nat) && reverse_open_error(
        data,
    ) is None && symbols is Some {
        Ok(symbols->Some_0)
    } else {
        Err("corrupt Huffman stream"@)
    }
}

/// The `count` bytes of four streams, or the text of the error: three 16-bit sizes stand in
/// front of the streams, and each stream but the last holds a quarter of the bytes, rounded
/// up.
pub open spec fn huffman_four_streams(
    table: Seq<(u16, u8)>,
    table_log: u8,
    data: Seq<u8>,
    count: usize,
) -> Result<Seq<u8>, Seq<char>> {
    let second = 6 + le_value(data.subrange(0, 2));
    let third = second + le_value(data.subrange(2, 4));
    let fourth = third + le_value(data.subrange(4, 6));
    let quarter = (count + 3) / 4;
    let last = (count - 3 * quarter) as usize;
    if data.len() < 6 || fourth > data.len() || 3 * quarter >= count {
        Err("corrupt Huffman stream"@)
    } else {
        match (
            huffman_stream(table, table_log, data.subrange(6, second as int), quarter as usize),
            huffman_stream(
                table,
                table_log,
                data.subrange(second as int, third as int),
                quarter as usize,
            ),
            huffman_stream(
                table,
                table_log,
                data.subrange(third as int, fourth as int),
                quarter as usize,
            ),
            huffman_stream(
                table,
                table_log,
                data.subrange(fourth as int, data.len() as int),
                last,
            ),
        ) {
            (Ok(one), Ok(two), Ok(three), Ok(four)) => Ok(one + two + three + four),
            _ => Err("corrupt Huffman stream"@),
        }
    }
}

/// The view of a decoded buffer, or of the text of an error.
pub open spec fn decoded_view(decoded: Result<Vec<u8>, String>) -> Result<Seq<u8>, Seq<char>> {
    match decoded {
        Ok(bytes) => Ok(bytes@),
        Err(text) => Err(text@),
    }
}

/// Every cell of a table for bytes takes between one bit and `table_log` bits.
pub open spec fn byte_table(table: Seq<(u16, u8)>, table_log: u8) -> bool {
    forall|i: int|
        0 <= i < table.len() ==> (#[trigger] table[i]).0 <= 255 && 1 <= table[i].1 <= table_log
}

/// Decodes one stream, by `decode_single_stream`: it walks the bits of a
/// `ReverseBitReader` through the table, and every failure has one text. Cells that take
/// more bits than the table log, and sizes that no buffer can have, are left out, as it
/// does not check for them.
#[verifier::external_body]
fn run_single_stream(table: &[(u16, u8)], table_log: u8, data: &[u8], count: usize) -> (result:
    Result<Vec<u8>, String>)
    requires
        byte_table(table@, table_log),
        table_log <= 12,
        8 * data@.len() <= usize::MAX,
        count <= isize::MAX,
    ensures
        decoded_view(result) == huffman_stream(table@, table_log, data@, count),
{
    let table: Vec<HuffmanDecodeEntry> = table.iter().map(
        |cell| HuffmanDecodeEntry { symbol: cell.0 as u8, num_bits: cell.1 },
    ).collect();
    decode_single_stream(&table, table_log, data, count).map_err(|err| format!("{err}"))
}

/// A stream that decodes gives exactly as many bytes as are asked for.
pub proof fn law_huffman_stream_length_is_declared(
    table: Seq<(u16, u8)>,
    table_log: u8,
    data: Seq<u8>,
    count: usize,
)
    requires
        huffman_stream(table, table_log, data, count) is Ok,
    ensures
        huffman_stream(table, table_log, data, count)->Ok_0.len() == count,
{
    lemma_byte_symbols_len(
        table,
        table_log as nat,
        marked_bits(data),
        count as nat,
        Seq::empty(),
    );
}

/// Four streams that decode give exactly as many bytes as are asked for.
pub proof fn law_huffman_four_streams_length_is_declared(
    table: Seq<(u16, u8)>,
    table_log: u8,
    data: Seq<u8>,
    count: usize,
)
    requires
        huffman_four_streams(table, table_log, data, count) is Ok,
    ensures
        huffman_four_streams(table, table_log, data, count)->Ok_0.len() == count,
{
    let second = 6 + le_value(data.subrange(0, 2));
    let third = second + le_value(data.subrange(2, 4));
    let fourth = third + le_value(data.subrange(4, 6));
    let quarter = ((count + 3) / 4) as usize;
    let last = (count - 3 * quarter) as usize;
    law_huffman_stream_length_is_declared(
        table,
        table_log,
        data.subrange(6, second as int),
        quarter,
    );
    law_huffman_stream_length_is_declared(
        table,
        table_log,
        data.subrange(second as int, third as int),
        quarter,
    );
    law_huffman_stream_length_is_declared(
        table,
        table_log,
        data.subrange(third as int, fourth as int),
        quarter,
    );
    law_huffman_stream_length_is_declared(
        table,
        table_log,
        data.subrange(fourth as int, data.len() as int),
        last,
    );
}

proof fn lemma_byte_symbols_len(
    table: Seq<(u16, u8)>,
    log: nat,
    unread: Seq<bool>,
    count: nat,
    symbols: Seq<u8>,
)
    requires
        symbols.len() <= count,
    ensures
        byte_symbols_from(table, log, unread, count, symbols) matches Some(all) ==> all.len()
            == count,
    decreases count - symbols.len(),
{
    if symbols.len() < count {
        let (symbol, bits) = table[next_cell(unread, log) as int];
        lemma_byte_symbols_len(
            table,
            log,
            unread.skip(bits as int),
            count,
            symbols.push(symbol as u8),
        );
    }
}

/// Decodes four streams, by `decode_4_streams`: it finds them by the sizes in front and
/// walks each through the table as `decode_single_stream` does, and every failure has one
/// text. Cells that take more bits than the table log, and sizes that no buffer can have,
/// are left out, as it does not check for them.
#[verifier::external_body]
fn run_four_streams(table: &[(u16, u8)], table_log: u8, data: &[u8], count: usize) -> (result:
    Result<Vec<u8>, String>)
    requires
        byte_table(table@, table_log),
        table_log <= 12,
        8 * data@.len() <= usize::MAX,
        count <= isize::MAX,
    ensures
        decoded_view(result) == huffman_four_streams(table@, table_log, data@, count),
{
    let table: Vec<HuffmanDecodeEntry> = table.iter().map(
        |cell| HuffmanDecodeEntry { symbol: cell.0 as u8, num_bits: cell.1 },
    ).collect();
    decode_4_streams(&table, table_log, data, count).map_err(|err| format!("{err}"))
}

/// How many cells of the table the first `count` weights take.
pub open spec fn cell_sum(weights: Seq<u8>, count: nat) -> nat
    decreases count,
{
    if count == 0 {
        0
    } else {
        cell_sum(weights, (count - 1) as nat) + weight_cells(weights[count - 1] as nat)
    }
}

/// How many cells of the table a weight takes.
pub open spec fn weight_cells(weight: nat) -> nat {
    if weight == 0 {
        0
    } else {
        bit_range((weight - 1) as nat)
    }
}

/// How many of the first `count` weights are not zero.
pub open spec fn used_symbols(weights: Seq<u8>, count: nat) -> nat
    decreases count,
{
    if count == 0 {
        0
    } else {
        used_symbols(weights, (count - 1) as nat) + (if weights[count - 1] != 0 {
            1nat
        } else {
            0nat
        })
    }
}

/// The table log of weights, or why they are refused: at most `max_count` weights of
/// at most `max_log` each, two of them not zero, which fill a table of at most
/// `max_log` bits.
pub open spec fn huffman_log(weights: Seq<u8>, max_count: nat, max_log: nat, name: Seq<char>) -> Result<
    u8,
    ErrorView,
> {
    let sum = cell_sum(weights, weights.len());
    let log = bit_length(sum) - 1;
    if weights.len() < 2 || weights.len() > max_count {
        Err(detailed(ErrorKind::Malformed, name + " weight count is invalid"@))
    } else if exists|i: int| 0 <= i < weights.len() && #[trigger] weights[i] > max_log {
        Err(detailed(ErrorKind::Malformed, name + " weight is invalid"@))
    } else if used_symbols(weights, weights.len()) < 2 || sum != bit_range(log as nat) {
        Err(detailed(ErrorKind::Malformed, name + " weights are not normalized"@))
    } else if log > max_log {
        Err(detailed(ErrorKind::Malformed, name + " table is too large"@))
    } else {
        Ok(log as u8)
    }
}

/// The cells of the symbols of one weight among the first `count`.
pub open spec fn rank_cells(weights: Seq<u8>, log: nat, weight: nat, count: nat) -> Seq<(u16, u8)>
    decreases count,
{
    if count == 0 {
        Seq::empty()
    } else {
        let front = rank_cells(weights, log, weight, (count - 1) as nat);
        if weights[count - 1] == weight {
            front + cell_run(((count - 1) as u16, (log + 1 - weight) as u8), weight_cells(weight))
        } else {
            front
        }
    }
}

/// `count` copies of a cell.
pub open spec fn cell_run(cell: (u16, u8), count: nat) -> Seq<(u16, u8)> {
    Seq::new(count, |i: int| cell)
}

/// The cells of the symbols of weights up to `weight`: symbol and number of bits, by
/// weight and then by symbol.
pub open spec fn huffman_cells(weights: Seq<u8>, log: nat, weight: nat) -> Seq<(u16, u8)>
    decreases weight,
{
    if weight == 0 {
        Seq::empty()
    } else {
        huffman_cells(weights, log, (weight - 1) as nat) + rank_cells(
            weights,
            log,
            weight,
            weights.len(),
        )
    }
}

/// The decoding table of weights.
pub open spec fn huffman_table(weights: Seq<u8>, log: nat) -> Seq<(u16, u8)> {
    huffman_cells(weights, log, log)
}

proof fn lemma_weight_below_sum(weights: Seq<u8>, count: nat, index: int)
    requires
        0 <= index < count,
        weights[index] != 0,
    ensures
        cell_sum(weights, count) + 1 >= weight_cells(weights[index] as nat) + used_symbols(
            weights,
            count,
        ),
        used_symbols(weights, count) >= 1,
    decreases count,
{
    let last = weights[count - 1] as nat;
    if last > 0 {
        lemma_bit_range_monotone(0, (last - 1) as nat);
    }
    if index == count - 1 {
        lemma_used_below_sum(weights, (count - 1) as nat);
    } else {
        lemma_weight_below_sum(weights, (count - 1) as nat, index);
    }
}

proof fn lemma_used_below_sum(weights: Seq<u8>, count: nat)
    ensures
        used_symbols(weights, count) <= cell_sum(weights, count),
    decreases count,
{
    if count > 0 {
        lemma_used_below_sum(weights, (count - 1) as nat);
        let last = weights[count - 1] as nat;
        if last > 0 {
            lemma_bit_range_monotone(0, (last - 1) as nat);
        }
    }
}

/// In normalized weights none exceeds the table log.
pub proof fn lemma_weights_below_log(weights: Seq<u8>, log: nat)
    requires
        used_symbols(weights, weights.len()) >= 2,
        cell_sum(weights, weights.len()) == bit_range(log),
    ensures
        forall|i: int| 0 <= i < weights.len() ==> #[trigger] weights[i] <= log,
        log >= 1,
{
    lemma_used_below_sum(weights, weights.len());
    lemma_bit_range_values();
    assert forall|i: int| 0 <= i < weights.len() implies #[trigger] weights[i] <= log by {
        if weights[i] > log {
            lemma_weight_below_sum(weights, weights.len(), i);
            lemma_bit_range_monotone(log, (weights[i] - 1) as nat);
        }
    }
}

/// The cells of the first `count` symbols of weights up to `weight`.
spec fn prefix_cells(weights: Seq<u8>, weight: nat, count: nat) -> nat
    decreases weight,
{
    if weight == 0 {
        0
    } else {
        prefix_cells(weights, (weight - 1) as nat, count) + rank_cells(weights, 0, weight, count).len()
    }
}

proof fn lemma_rank_len_ignores_log(weights: Seq<u8>, log: nat, weight: nat, count: nat)
    ensures
        rank_cells(weights, log, weight, count).len() == rank_cells(weights, 0, weight, count).len(),
    decreases count,
{
    if count > 0 {
        lemma_rank_len_ignores_log(weights, log, weight, (count - 1) as nat);
    }
}

proof fn lemma_prefix_step(weights: Seq<u8>, weight: nat, count: nat)
    ensures
        prefix_cells(weights, weight, count + 1) == prefix_cells(weights, weight, count) + (if 1
            <= weights[count as int] <= weight {
            weight_cells(weights[count as int] as nat)
        } else {
            0nat
        }),
    decreases weight,
{
    if weight > 0 {
        lemma_prefix_step(weights, (weight - 1) as nat, count);
    }
}

proof fn lemma_prefix_zero(weights: Seq<u8>, weight: nat)
    ensures
        prefix_cells(weights, weight, 0) == 0,
    decreases weight,
{
    if weight > 0 {
        lemma_prefix_zero(weights, (weight - 1) as nat);
    }
}

proof fn lemma_prefix_is_sum(weights: Seq<u8>, weight: nat, count: nat)
    requires
        count <= weights.len(),
        forall|i: int| 0 <= i < weights.len() ==> #[trigger] weights[i] <= weight,
    ensures
        prefix_cells(weights, weight, count) == cell_sum(weights, count),
    decreases count,
{
    if count == 0 {
        lemma_prefix_zero(weights, weight);
    } else {
        lemma_prefix_is_sum(weights, weight, (count - 1) as nat);
        lemma_prefix_step(weights, weight, (count - 1) as nat);
    }
}

proof fn lemma_table_len(weights: Seq<u8>, log: nat, weight: nat)
    ensures
        huffman_cells(weights, log, weight).len() == prefix_cells(weights, weight, weights.len()),
    decreases weight,
{
    if weight > 0 {
        lemma_table_len(weights, log, (weight - 1) as nat);
        lemma_rank_len_ignores_log(weights, log, weight, weights.len());
    }
}

/// The table of weights that are accepted has a cell for every value of its log.
pub proof fn law_huffman_table_is_complete(
    weights: Seq<u8>,
    max_count: nat,
    max_log: nat,
    name: Seq<char>,
)
    requires
        huffman_log(weights, max_count, max_log, name) is Ok,
        max_log <= 255,
    ensures
        ({
            let log = huffman_log(weights, max_count, max_log, name)->Ok_0 as nat;
            huffman_table(weights, log).len() == bit_range(log)
        }),
{
    let log = huffman_log(weights, max_count, max_log, name)->Ok_0 as nat;
    lemma_positive_length(cell_sum(weights, weights.len()), weights);
    lemma_weights_below_log(weights, log);
    lemma_table_len(weights, log, log);
    lemma_prefix_is_sum(weights, log, weights.len());
}

pub proof fn lemma_positive_length(sum: nat, weights: Seq<u8>)
    requires
        sum == cell_sum(weights, weights.len()),
        used_symbols(weights, weights.len()) >= 2,
    ensures
        bit_length(sum) >= 1,
{
    lemma_used_below_sum(weights, weights.len());
}

/// Finds the table log of weights.
fn find_huffman_log(weights: &[u8], max_count: usize, max_log: u8, name: &str) -> (result: Result<
    u8,
    Error,
>)
    requires
        max_count <= 65_536,
        max_log <= 20,
    ensures
        plain_outcome(result) == huffman_log(weights@, max_count as nat, max_log as nat, name@),
        match result {
            Ok(log) => used_symbols(weights@, weights@.len()) >= 2 && cell_sum(
                weights@,
                weights@.len(),
            ) == bit_range(log as nat) && log <= max_log && weights@.len() <= max_count,
            Err(_) => true,
        },
{
    if weights.len() < 2 || weights.len() > max_count {
        let text = join_text(name, " weight count is invalid");
        return Err(fail(ErrorKind::Malformed, text.as_str()));
    }
    let mut sum: u64 = 0;
    let mut used: usize = 0;
    let mut index: usize = 0;
    while index < weights.len()
        invariant
            index <= weights@.len(),
            2 <= weights@.len() <= max_count <= 65_536,
            max_log <= 20,
            used <= index,
            sum <= index * 0x8_0000,
            sum as nat == cell_sum(weights@, index as nat),
            used as nat == used_symbols(weights@, index as nat),
            forall|i: int| 0 <= i < index ==> #[trigger] weights@[i] <= max_log,
        decreases weights.len() - index,
    {
        let weight: u8 = weights[index];
        if weight > max_log {
            let text = join_text(name, " weight is invalid");
            return Err(fail(ErrorKind::Malformed, text.as_str()));
        }
        if weight != 0 {
            proof {
                lemma_bit_range_monotone((weight - 1) as nat, 19);
                reveal_with_fuel(bit_range, 20);
            }
            used = used + 1;
            sum = sum + power_of_two(weight as usize - 1);
        }
        index = index + 1;
    }
    proof {
        lemma_used_below_sum(weights@, weights@.len());
    }
    if used < 2 {
        let text = join_text(name, " weights are not normalized");
        return Err(fail(ErrorKind::Malformed, text.as_str()));
    }
    let log: usize = count_bits(sum) - 1;
    if sum != power_of_two(log) {
        let text = join_text(name, " weights are not normalized");
        return Err(fail(ErrorKind::Malformed, text.as_str()));
    }
    if log > max_log as usize {
        let text = join_text(name, " table is too large");
        return Err(fail(ErrorKind::Malformed, text.as_str()));
    }
    Ok(log as u8)
}

/// Lays out the table of normalized weights.
fn lay_out_table(weights: &[u8], log: u8) -> (table: Vec<(u16, u8)>)
    requires
        weights@.len() <= 65_536,
        log <= 20,
    ensures
        table@ == huffman_table(weights@, log as nat),
        forall|i: int| 0 <= i < table@.len() ==> 1 <= (#[trigger] table@[i]).1 <= log,
        forall|i: int| 0 <= i < table@.len() ==> (#[trigger] table@[i]).0 < weights@.len(),
{
    let mut table: Vec<(u16, u8)> = Vec::new();
    let mut weight: u8 = 0;
    proof {
        assert(table@ =~= Seq::empty());
    }
    while weight < log
        invariant
            weight <= log <= 20,
            weights@.len() <= 65_536,
            table@ == huffman_cells(weights@, log as nat, weight as nat),
            forall|i: int| 0 <= i < table@.len() ==> 1 <= (#[trigger] table@[i]).1 <= log,
            forall|i: int| 0 <= i < table@.len() ==> (#[trigger] table@[i]).0 < weights@.len(),
        decreases log - weight,
    {
        weight = weight + 1;
        let ghost below = table@;
        let cells: u64 = power_of_two(weight as usize - 1);
        let mut symbol: usize = 0;
        proof {
            assert(below + rank_cells(weights@, log as nat, weight as nat, 0) =~= below);
        }
        while symbol < weights.len()
            invariant
                symbol <= weights@.len() <= 65_536,
                1 <= weight <= log <= 20,
                cells as nat == weight_cells(weight as nat),
                below == huffman_cells(weights@, log as nat, (weight - 1) as nat),
                table@ == below + rank_cells(
                    weights@,
                    log as nat,
                    weight as nat,
                    symbol as nat,
                ),
                forall|i: int| 0 <= i < table@.len() ==> 1 <= (#[trigger] table@[i]).1 <= log,
                forall|i: int| 0 <= i < table@.len() ==> (#[trigger] table@[i]).0 < weights@.len(),
            decreases weights.len() - symbol,
        {
            if weights[symbol] == weight {
                let ghost front = table@;
                let cell: (u16, u8) = (symbol as u16, log + 1 - weight);
                let mut copied: u64 = 0;
                proof {
                    assert(front + cell_run(cell, 0) =~= front);
                }
                while copied < cells
                    invariant
                        copied <= cells,
                        symbol < weights@.len() <= 65_536,
                        cell.0 == symbol,
                        1 <= cell.1 <= log,
                        table@ == front + cell_run(cell, copied as nat),
                        forall|i: int|
                            0 <= i < table@.len() ==> 1 <= (#[trigger] table@[i]).1 <= log,
                        forall|i: int|
                            0 <= i < table@.len() ==> (#[trigger] table@[i]).0 < weights@.len(),
                    decreases cells - copied,
                {
                    table.push(cell);
                    copied = copied + 1;
                    proof {
                        assert(table@ =~= front + cell_run(cell, copied as nat));
                    }
                }
                proof {
                    assert(table@ =~= below + rank_cells(
                        weights@,
                        log as nat,
                        weight as nat,
                        (symbol + 1) as nat,
                    ));
                }
            }
            symbol = symbol + 1;
        }
    }
    table
}

/// Builds the decoding table of the weights of bytes.
pub fn build_complete_huffman_decode_table(weights: &[u8]) -> (result: Result<
    (Vec<(u16, u8)>, u8),
    Error,
>)
    ensures
        match result {
            Ok((table, log)) => huffman_log(weights@, 256, 12, "huffman_v2"@) == Ok::<
                u8,
                ErrorView,
            >(log) && table@ == huffman_table(weights@, log as nat) && byte_table(table@, log)
                && log <= 12,
            Err(error) => huffman_log(weights@, 256, 12, "huffman_v2"@) == Err::<u8, ErrorView>(
                error@,
            ),
        },
{
    let log: u8 = find_huffman_log(weights, 256, 12, "huffman_v2")?;
    Ok((lay_out_table(weights, log), log))
}

/// Builds the decoding table of the weights of 16-bit symbols.
pub fn build_large_huffman_decode_table(weights: &[u8]) -> (result: Result<
    (Vec<(u16, u8)>, u8),
    Error,
>)
    ensures
        match result {
            Ok((table, log)) => huffman_log(weights@, 65_536, 20, "huffman_struct_v2"@) == Ok::<
                u8,
                ErrorView,
            >(log) && table@ == huffman_table(weights@, log as nat) && 1 <= log <= 20
                && forall|i: int| 0 <= i < table@.len() ==> 1 <= (#[trigger] table@[i]).1 <= log,
            Err(error) => huffman_log(weights@, 65_536, 20, "huffman_struct_v2"@) == Err::<
                u8,
                ErrorView,
            >(error@),
        },
{
    let log: u8 = find_huffman_log(weights, 65_536, 20, "huffman_struct_v2")?;
    proof {
        lemma_weights_below_log(weights@, log as nat);
    }
    Ok((lay_out_table(weights, log), log))
}

/// Whether the streams are four, and how many symbols they hold.
#[derive(Clone, Copy, Debug, PartialEq, Eq, Structural)]
pub struct HuffmanV2Header {
    pub x4: bool,
    pub output_len: usize,
}

/// The header of a Huffman node.
pub open spec fn huffman_header(header: Seq<u8>, name: Seq<char>) -> Result<
    HuffmanV2Header,
    ErrorView,
> {
    let output_len = le_value(header.subrange(1, header.len() as int));
    if header.len() < 2 || header.len() > 9 {
        Err(detailed(ErrorKind::Malformed, name + " header is malformed"@))
    } else if output_len < 2 {
        Err(detailed(ErrorKind::Malformed, name + " output count must be at least two"@))
    } else if output_len > usize::MAX {
        Err(detailed(ErrorKind::LimitExceeded, name + " output size is too large"@))
    } else {
        Ok(HuffmanV2Header { x4: header[0] % 2 == 1, output_len: output_len as usize })
    }
}

fn parse_huffman_header(header: &[u8], name: &str) -> (result: Result<HuffmanV2Header, Error>)
    ensures
        plain_outcome(result) == huffman_header(header@, name@),
{
    if header.len() < 2 || header.len() > 9 {
        let text = join_text(name, " header is malformed");
        return Err(fail(ErrorKind::Malformed, text.as_str()));
    }
    let output_len: u64 = read_le(header, 1, header.len() - 1);
    if output_len < 2 {
        let text = join_text(name, " output count must be at least two");
        return Err(fail(ErrorKind::Malformed, text.as_str()));
    }
    if output_len > usize::MAX as u64 {
        let text = join_text(name, " output size is too large");
        return Err(fail(ErrorKind::LimitExceeded, text.as_str()));
    }
    Ok(HuffmanV2Header { x4: header[0] % 2 == 1, output_len: output_len as usize })
}

/// What is made of decoded bytes, or of the text of an error.
pub open spec fn huffman_outcome(decoded: Result<Seq<u8>, Seq<char>>) -> Result<
    Seq<u8>,
    ErrorView,
> {
    match decoded {
        Ok(bytes) => Ok(bytes),
        Err(text) => Err(detailed(ErrorKind::Malformed, text)),
    }
}

/// Turns the text of a decoding error into an error.
pub fn finish_huffman(decoded: Result<Vec<u8>, String>) -> (result: Result<Vec<u8>, Error>)
    ensures
        outcome(result) == huffman_outcome(decoded_view(decoded)),
{
    match decoded {
        Ok(bytes) => Ok(bytes),
        Err(text) => Err(fail(ErrorKind::Malformed, text.as_str())),
    }
}

/// What a huffman_v2 node produces.
pub open spec fn huffman_v2_node(inputs: Seq<StreamView>, header: Seq<u8>, limits: Limits) -> Result<
    Seq<u8>,
    ErrorView,
> {
    if inputs.len() != 2 {
        Err(detailed(ErrorKind::InvalidGraph, "huffman_v2 input count does not match node shape"@))
    } else if let Some(error) = required_width_error(inputs[0], 1, "huffman_v2 weights"@) {
        Err(error)
    } else if inputs[1].element_width != 1 {
        Err(detailed(ErrorKind::InvalidType, "huffman_v2 bits must be serial"@))
    } else {
        match huffman_header(header, "huffman_v2"@) {
            Err(error) => Err(error),
            Ok(parsed) => if !limits.admits(parsed.output_len as int) || parsed.output_len
                > isize::MAX {
                Err(output_limit_error())
            } else {
                match huffman_log(inputs[0].bytes, 256, 12, "huffman_v2"@) {
                    Err(error) => Err(error),
                    Ok(log) => {
                        let table = huffman_table(inputs[0].bytes, log as nat);
                        let bits = inputs[1].bytes;
                        if 8 * bits.len() > usize::MAX {
                            Err(plain(ErrorKind::IntegerOverflow))
                        } else if parsed.x4 {
                            huffman_outcome(
                                huffman_four_streams(table, log, bits, parsed.output_len),
                            )
                        } else {
                            huffman_outcome(huffman_stream(table, log, bits, parsed.output_len))
                        }
                    },
                }
            },
        }
    }
}

/// Decodes a huffman_v2 node.
pub fn decode_huffman_v2_node(inputs: &[StreamInput<'_>], header: &[u8], limits: Limits) -> (result:
    Result<Vec<u8>, Error>)
    ensures
        outcome(result) == huffman_v2_node(stream_views(inputs@), header@, limits),
{
    if inputs.len() != 2 {
        return Err(
            fail(ErrorKind::InvalidGraph, "huffman_v2 input count does not match node shape"),
        );
    }
    let weights = inputs[0];
    let bits = inputs[1];
    require_numeric_width(&weights, 1, "huffman_v2 weights")?;
    if bits.element_width != 1 {
        return Err(fail(ErrorKind::InvalidType, "huffman_v2 bits must be serial"));
    }
    let parsed = parse_huffman_header(header, "huffman_v2")?;
    check_output_limit(parsed.output_len, limits)?;
    if parsed.output_len > isize::MAX as usize {
        return Err(fail(ErrorKind::LimitExceeded, "decoded output limit exceeded"));
    }
    let (table, log) = build_complete_huffman_decode_table(weights.bytes)?;
    if bits.bytes.len() > usize::MAX / 8 {
        return Err(Error::new(ErrorKind::IntegerOverflow));
    }
    let decoded = if parsed.x4 {
        run_four_streams(table.as_slice(), log, bits.bytes, parsed.output_len)
    } else {
        run_single_stream(table.as_slice(), log, bits.bytes, parsed.output_len)
    };
    finish_huffman(decoded)
}

/// Decodes the symbols behind `symbols` until there are `count`.
pub open spec fn large_symbols_from(
    table: Seq<(u16, u8)>,
    log: nat,
    unread: Seq<bool>,
    count: nat,
    symbols: Seq<u64>,
) -> Result<(Seq<u64>, Seq<bool>), ErrorView>
    decreases count - symbols.len(),
{
    if symbols.len() >= count {
        Ok((symbols, unread))
    } else if unread.len() == 0 {
        Err(detailed(ErrorKind::Malformed, "huffman_struct_v2 bitstream ended early"@))
    } else if next_cell(unread, log) >= table.len() {
        Err(plain(ErrorKind::Malformed))
    } else {
        let (symbol, bits) = table[next_cell(unread, log) as int];
        if bits > unread.len() {
            Err(detailed(ErrorKind::Malformed, "huffman_struct_v2 bitstream ended inside symbol"@))
        } else {
            large_symbols_from(
                table,
                log,
                unread.skip(bits as int),
                count,
                symbols.push(symbol as u64),
            )
        }
    }
}

/// The `count` symbols of one stream.
pub open spec fn large_stream(table: Seq<(u16, u8)>, log: nat, bits: Seq<u8>, count: nat) -> Result<
    Seq<u64>,
    ErrorView,
> {
    if 8 * bits.len() > usize::MAX {
        Err(plain(ErrorKind::IntegerOverflow))
    } else {
        match reverse_open_error(bits) {
            Some(text) => Err(detailed(ErrorKind::Malformed, text)),
            None => match large_symbols_from(table, log, marked_bits(bits), count, Seq::empty()) {
                Err(error) => Err(error),
                Ok((symbols, rest)) => if rest.len() != 0 {
                    Err(
                        detailed(
                            ErrorKind::Malformed,
                            "huffman_struct_v2 bitstream has trailing bits"@,
                        ),
                    )
                } else {
                    Ok(symbols)
                },
            },
        }
    }
}

/// The 32-bit size at `offset`.
pub open spec fn size_at(bits: Seq<u8>, offset: int) -> nat {
    le_value(bits.subrange(offset, offset + 4))
}

/// The symbols of one stream that its sizes precede.
pub open spec fn sized_stream(table: Seq<(u16, u8)>, log: nat, bits: Seq<u8>, count: nat) -> Result<
    Seq<u64>,
    ErrorView,
> {
    if bits.len() < 8 {
        Err(detailed(ErrorKind::Malformed, "huffman_struct_v2 bitstream is malformed"@))
    } else if 8 + size_at(bits, 4) > usize::MAX {
        Err(plain(ErrorKind::IntegerOverflow))
    } else if size_at(bits, 0) != count || 8 + size_at(bits, 4) != bits.len() {
        Err(detailed(ErrorKind::Malformed, "huffman_struct_v2 bitstream size is invalid"@))
    } else {
        large_stream(table, log, bits.subrange(8, bits.len() as int), count)
    }
}

/// The symbols of the streams from `index` on, of four that their sizes precede.
pub open spec fn four_streams_from(
    table: Seq<(u16, u8)>,
    log: nat,
    bits: Seq<u8>,
    count: nat,
    index: nat,
    cursor: nat,
    symbols: Seq<u64>,
) -> Result<Seq<u64>, ErrorView>
    decreases 4 - index,
{
    if index >= 4 {
        if symbols.len() != count || cursor != bits.len() {
            Err(detailed(ErrorKind::Malformed, "huffman_struct_v2 x4 bitstream size is invalid"@))
        } else {
            Ok(symbols)
        }
    } else if cursor + 8 > bits.len() {
        Err(detailed(ErrorKind::Malformed, "huffman_struct_v2 x4 bitstream is malformed"@))
    } else {
        let size = size_at(bits, cursor as int);
        let end = cursor + 8 + size_at(bits, cursor as int + 4);
        if end > usize::MAX {
            Err(plain(ErrorKind::IntegerOverflow))
        } else if end > bits.len() {
            Err(detailed(ErrorKind::Malformed, "huffman_struct_v2 x4 source size is invalid"@))
        } else if symbols.len() + size > usize::MAX {
            Err(plain(ErrorKind::IntegerOverflow))
        } else if symbols.len() + size > count {
            Err(detailed(ErrorKind::Malformed, "huffman_struct_v2 x4 output size is invalid"@))
        } else {
            match large_stream(table, log, bits.subrange(cursor as int + 8, end as int), size) {
                Err(error) => Err(error),
                Ok(more) => four_streams_from(
                    table,
                    log,
                    bits,
                    count,
                    index + 1,
                    end,
                    symbols + more,
                ),
            }
        }
    }
}

/// What a huffman_struct_v2 node produces.
pub open spec fn huffman_struct_v2_node(
    inputs: Seq<StreamView>,
    header: Seq<u8>,
    limits: Limits,
) -> Result<StreamView, ErrorView> {
    if inputs.len() != 2 {
        Err(
            detailed(
                ErrorKind::InvalidGraph,
                "huffman_struct_v2 input count does not match node shape"@,
            ),
        )
    } else if let Some(error) = required_width_error(inputs[0], 1, "huffman_struct_v2 weights"@) {
        Err(error)
    } else if inputs[1].element_width != 1 {
        Err(detailed(ErrorKind::InvalidType, "huffman_struct_v2 bits must be serial"@))
    } else {
        match huffman_header(header, "huffman_struct_v2"@) {
            Err(error) => Err(error),
            Ok(parsed) => if parsed.output_len * 2 > usize::MAX {
                Err(plain(ErrorKind::IntegerOverflow))
            } else if !limits.admits(parsed.output_len * 2) {
                Err(output_limit_error())
            } else {
                match huffman_log(inputs[0].bytes, 65_536, 20, "huffman_struct_v2"@) {
                    Err(error) => Err(error),
                    Ok(log) => {
                        let table = huffman_table(inputs[0].bytes, log as nat);
                        match (if parsed.x4 {
                            four_streams_from(
                                table,
                                log as nat,
                                inputs[1].bytes,
                                parsed.output_len as nat,
                                0,
                                0,
                                Seq::empty(),
                            )
                        } else {
                            sized_stream(
                                table,
                                log as nat,
                                inputs[1].bytes,
                                parsed.output_len as nat,
                            )
                        }) {
                            Err(error) => Err(error),
                            Ok(symbols) => Ok(typed_stream(packed(symbols, 2), 2)),
                        }
                    },
                }
            },
        }
    }
}

/// Decodes the symbols of one stream.
fn decode_large_huffman_stream(
    table: &[(u16, u8)],
    table_log: u8,
    bits: &[u8],
    count: usize,
    output: &mut Vec<u8>,
    Ghost(symbols): Ghost<Seq<u64>>,
) -> (result: Result<(), Error>)
    requires
        1 <= table_log <= 20,
        forall|i: int| 0 <= i < table@.len() ==> 1 <= (#[trigger] table@[i]).1 <= table_log,
        old(output)@ == packed(symbols, 2),
    ensures
        match result {
            Ok(_) => large_stream(table@, table_log as nat, bits@, count as nat) is Ok
                && final(output)@ == packed(
                symbols + large_stream(table@, table_log as nat, bits@, count as nat)->Ok_0,
                2,
            ),
            Err(error) => large_stream(table@, table_log as nat, bits@, count as nat) == Err::<
                Seq<u64>,
                ErrorView,
            >(error@),
        },
{
    if bits.len() > usize::MAX / 8 {
        return Err(Error::new(ErrorKind::IntegerOverflow));
    }
    let mut reader = open_reverse(bits)?;
    proof {
        lemma_bit_range_values();
        lemma_bit_length_bound(bits@.last() as nat, 8);
    }
    let ghost mut decoded: Seq<u64> = Seq::empty();
    let ghost total = large_symbols_from(
        table@,
        table_log as nat,
        unread_bits(reader),
        count as nat,
        decoded,
    );
    proof {
        assert(symbols + decoded =~= symbols);
    }
    let log: usize = table_log as usize;
    let mut index: usize = 0;
    while index < count
        invariant
            index <= count,
            index == decoded.len(),
            log == table_log,
            1 <= table_log <= 20,
            forall|i: int| 0 <= i < table@.len() ==> 1 <= (#[trigger] table@[i]).1 <= table_log,
            unread_bits(reader).len() <= usize::MAX,
            output@ == packed(symbols + decoded, 2),
            total == large_symbols_from(
                table@,
                table_log as nat,
                unread_bits(reader),
                count as nat,
                decoded,
            ),
            large_stream(table@, table_log as nat, bits@, count as nat) == (match total {
                Err(error) => Err::<Seq<u64>, ErrorView>(error),
                Ok((symbols, rest)) => if rest.len() != 0 {
                    Err(
                        detailed(
                            ErrorKind::Malformed,
                            "huffman_struct_v2 bitstream has trailing bits"@,
                        ),
                    )
                } else {
                    Ok(symbols)
                },
            }),
        decreases count - index,
    {
        let remaining: usize = bits_left(&reader);
        if remaining == 0 {
            return Err(fail(ErrorKind::Malformed, "huffman_struct_v2 bitstream ended early"));
        }
        let ghost unread = unread_bits(reader);
        let cell: u64 = if remaining >= log {
            peek_next(&mut reader, table_log) as u64
        } else {
            let value: u64 = peek_next(&mut reader, remaining as u8) as u64;
            proof {
                assert(unread.take(remaining as int) =~= unread);
                lemma_be_bits_bound(unread);
                lemma_bit_range_monotone(remaining as nat, 31);
                lemma_bit_range_monotone((log - remaining) as nat, 31);
                lemma_bit_range_values();
                assert(value * bit_range((log - remaining) as nat) <= 0x8000_0000 * 0x8000_0000)
                    by (nonlinear_arith)
                    requires
                        value <= 0x8000_0000,
                        bit_range((log - remaining) as nat) <= 0x8000_0000,
                ;
            }
            value * power_of_two(log - remaining)
        };
        if cell >= table.len() as u64 {
            return Err(Error::new(ErrorKind::Malformed));
        }
        let (symbol, count_of_bits) = table[cell as usize];
        if count_of_bits as usize > remaining {
            return Err(
                fail(ErrorKind::Malformed, "huffman_struct_v2 bitstream ended inside symbol"),
            );
        }
        push_element(output, symbol as u64, 2, Ghost(symbols + decoded));
        proof {
            assert((symbols + decoded).push(symbol as u64) =~= symbols + decoded.push(
                symbol as u64,
            ));
            decoded = decoded.push(symbol as u64);
        }
        drop_bits(&mut reader, count_of_bits);
        index = index + 1;
    }
    if bits_left(&reader) != 0 {
        return Err(fail(ErrorKind::Malformed, "huffman_struct_v2 bitstream has trailing bits"));
    }
    Ok(())
}

/// Decodes one stream that its sizes precede.
fn decode_large_huffman_stream_with_size_prefix(
    table: &[(u16, u8)],
    table_log: u8,
    bits: &[u8],
    expected: usize,
) -> (result: Result<Vec<u8>, Error>)
    requires
        1 <= table_log <= 20,
        forall|i: int| 0 <= i < table@.len() ==> 1 <= (#[trigger] table@[i]).1 <= table_log,
    ensures
        match result {
            Ok(output) => sized_stream(table@, table_log as nat, bits@, expected as nat) is Ok
                && output@ == packed(
                sized_stream(table@, table_log as nat, bits@, expected as nat)->Ok_0,
                2,
            ),
            Err(error) => sized_stream(table@, table_log as nat, bits@, expected as nat) == Err::<
                Seq<u64>,
                ErrorView,
            >(error@),
        },
{
    if bits.len() < 8 {
        return Err(fail(ErrorKind::Malformed, "huffman_struct_v2 bitstream is malformed"));
    }
    proof {
        lemma_le_value_bound(bits@.subrange(0, 4));
        lemma_le_value_bound(bits@.subrange(4, 8));
        lemma_byte_range_values();
    }
    let output_len: usize = read_le(bits, 0, 4) as usize;
    let source_len: usize = read_le(bits, 4, 4) as usize;
    let source_end: usize = match source_len.checked_add(8) {
        Some(source_end) => source_end,
        None => {
            return Err(Error::new(ErrorKind::IntegerOverflow));
        },
    };
    if output_len != expected || source_end != bits.len() {
        return Err(fail(ErrorKind::Malformed, "huffman_struct_v2 bitstream size is invalid"));
    }
    let mut output: Vec<u8> = Vec::new();
    let source = slice_subrange(bits, 8, source_end);
    decode_large_huffman_stream(
        table,
        table_log,
        source,
        output_len,
        &mut output,
        Ghost(Seq::empty()),
    )?;
    proof {
        let decoded = sized_stream(table@, table_log as nat, bits@, expected as nat)->Ok_0;
        assert(Seq::empty() + decoded =~= decoded);
    }
    Ok(output)
}

proof fn lemma_large_symbols_len(
    table: Seq<(u16, u8)>,
    log: nat,
    unread: Seq<bool>,
    count: nat,
    symbols: Seq<u64>,
)
    requires
        large_symbols_from(table, log, unread, count, symbols) is Ok,
        symbols.len() <= count,
    ensures
        large_symbols_from(table, log, unread, count, symbols)->Ok_0.0.len() == count,
    decreases count - symbols.len(),
{
    if symbols.len() < count {
        let (symbol, bits) = table[next_cell(unread, log) as int];
        lemma_large_symbols_len(
            table,
            log,
            unread.skip(bits as int),
            count,
            symbols.push(symbol as u64),
        );
    }
}

/// Decodes four streams that their sizes precede.
fn decode_large_huffman_streams_x4(
    table: &[(u16, u8)],
    table_log: u8,
    bits: &[u8],
    expected: usize,
) -> (result: Result<Vec<u8>, Error>)
    requires
        1 <= table_log <= 20,
        forall|i: int| 0 <= i < table@.len() ==> 1 <= (#[trigger] table@[i]).1 <= table_log,
    ensures
        ({
            let spec_result = four_streams_from(
                table@,
                table_log as nat,
                bits@,
                expected as nat,
                0,
                0,
                Seq::empty(),
            );
            match result {
                Ok(output) => spec_result is Ok && output@ == packed(spec_result->Ok_0, 2),
                Err(error) => spec_result == Err::<Seq<u64>, ErrorView>(error@),
            }
        }),
{
    let ghost total = four_streams_from(
        table@,
        table_log as nat,
        bits@,
        expected as nat,
        0,
        0,
        Seq::empty(),
    );
    let ghost mut symbols: Seq<u64> = Seq::empty();
    let mut output: Vec<u8> = Vec::new();
    let mut cursor: usize = 0;
    let mut decoded: usize = 0;
    let mut index: usize = 0;
    while index < 4
        invariant
            index <= 4,
            cursor <= bits@.len(),
            decoded == symbols.len(),
            1 <= table_log <= 20,
            forall|i: int| 0 <= i < table@.len() ==> 1 <= (#[trigger] table@[i]).1 <= table_log,
            output@ == packed(symbols, 2),
            total == four_streams_from(
                table@,
                table_log as nat,
                bits@,
                expected as nat,
                index as nat,
                cursor as nat,
                symbols,
            ),
            total == four_streams_from(
                table@,
                table_log as nat,
                bits@,
                expected as nat,
                0,
                0,
                Seq::empty(),
            ),
        decreases 4 - index,
    {
        if bits.len() - cursor < 8 {
            return Err(
                fail(ErrorKind::Malformed, "huffman_struct_v2 x4 bitstream is malformed"),
            );
        }
        proof {
            lemma_le_value_bound(bits@.subrange(cursor as int, cursor + 4));
            lemma_le_value_bound(bits@.subrange(cursor + 4, cursor + 8));
            lemma_byte_range_values();
        }
        let output_len: usize = read_le(bits, cursor, 4) as usize;
        let source_len: usize = read_le(bits, cursor + 4, 4) as usize;
        let start: usize = cursor + 8;
        let source_end: usize = match start.checked_add(source_len) {
            Some(source_end) => source_end,
            None => {
                return Err(Error::new(ErrorKind::IntegerOverflow));
            },
        };
        if source_end > bits.len() {
            return Err(
                fail(ErrorKind::Malformed, "huffman_struct_v2 x4 source size is invalid"),
            );
        }
        let next: usize = match decoded.checked_add(output_len) {
            Some(next) => next,
            None => {
                return Err(Error::new(ErrorKind::IntegerOverflow));
            },
        };
        if next > expected {
            return Err(
                fail(ErrorKind::Malformed, "huffman_struct_v2 x4 output size is invalid"),
            );
        }
        let source = slice_subrange(bits, start, source_end);
        decode_large_huffman_stream(
            table,
            table_log,
            source,
            output_len,
            &mut output,
            Ghost(symbols),
        )?;
        proof {
            let more = large_stream(table@, table_log as nat, source@, output_len as nat)->Ok_0;
            lemma_large_symbols_len(
                table@,
                table_log as nat,
                marked_bits(source@),
                output_len as nat,
                Seq::empty(),
            );
            symbols = symbols + more;
        }
        decoded = next;
        cursor = source_end;
        index = index + 1;
    }
    if decoded != expected || cursor != bits.len() {
        return Err(fail(ErrorKind::Malformed, "huffman_struct_v2 x4 bitstream size is invalid"));
    }
    Ok(output)
}

/// Decodes a huffman_struct_v2 node.
pub fn decode_huffman_struct_v2_node(
    inputs: &[StreamInput<'_>],
    header: &[u8],
    limits: Limits,
) -> (result: Result<OwnedStream, Error>)
    ensures
        outcome(result) == huffman_struct_v2_node(stream_views(inputs@), header@, limits),
        result is Ok ==> !result->Ok_0.recyclable,
{
    if inputs.len() != 2 {
        return Err(
            fail(
                ErrorKind::InvalidGraph,
                "huffman_struct_v2 input count does not match node shape",
            ),
        );
    }
    let weights = inputs[0];
    let bits = inputs[1];
    require_numeric_width(&weights, 1, "huffman_struct_v2 weights")?;
    if bits.element_width != 1 {
        return Err(fail(ErrorKind::InvalidType, "huffman_struct_v2 bits must be serial"));
    }
    let parsed = parse_huffman_header(header, "huffman_struct_v2")?;
    let output_bytes: usize = match parsed.output_len.checked_mul(2) {
        Some(output_bytes) => output_bytes,
        None => {
            return Err(Error::new(ErrorKind::IntegerOverflow));
        },
    };
    check_output_limit(output_bytes, limits)?;
    let (table, log) = build_large_huffman_decode_table(weights.bytes)?;
    let output = if parsed.x4 {
        decode_large_huffman_streams_x4(table.as_slice(), log, bits.bytes, parsed.output_len)?
    } else {
        decode_large_huffman_stream_with_size_prefix(
            table.as_slice(),
            log,
            bits.bytes,
            parsed.output_len,
        )?
    };
    Ok(OwnedStream::typed(output, 2))
}

proof fn lemma_large_stream_len(table: Seq<(u16, u8)>, log: nat, bits: Seq<u8>, count: nat)
    requires
        large_stream(table, log, bits, count) is Ok,
    ensures
        large_stream(table, log, bits, count)->Ok_0.len() == count,
{
    lemma_large_symbols_len(table, log, marked_bits(bits), count, Seq::empty());
}

proof fn lemma_four_streams_len(
    table: Seq<(u16, u8)>,
    log: nat,
    bits: Seq<u8>,
    count: nat,
    index: nat,
    cursor: nat,
    symbols: Seq<u64>,
)
    requires
        four_streams_from(table, log, bits, count, index, cursor, symbols) is Ok,
    ensures
        four_streams_from(table, log, bits, count, index, cursor, symbols)->Ok_0.len() == count,
    decreases 4 - index,
{
    if index < 4 {
        let size = size_at(bits, cursor as int);
        let end = cursor + 8 + size_at(bits, cursor as int + 4);
        let more = large_stream(
            table,
            log,
            bits.subrange(cursor as int + 8, end as int),
            size,
        )->Ok_0;
        lemma_four_streams_len(table, log, bits, count, index + 1, end, symbols + more);
    }
}

/// A huffman_struct_v2 node that decodes gives exactly as many elements of two bytes as
/// its header declares.
pub proof fn law_huffman_struct_v2_length_is_declared(
    inputs: Seq<StreamView>,
    header: Seq<u8>,
    limits: Limits,
)
    requires
        huffman_struct_v2_node(inputs, header, limits) is Ok,
    ensures
        huffman_header(header, "huffman_struct_v2"@) is Ok,
        huffman_struct_v2_node(inputs, header, limits)->Ok_0.element_width == 2,
        huffman_struct_v2_node(inputs, header, limits)->Ok_0.bytes.len() == 2 * huffman_header(
            header,
            "huffman_struct_v2"@,
        )->Ok_0.output_len,
{
    let parsed = huffman_header(header, "huffman_struct_v2"@)->Ok_0;
    let log = huffman_log(inputs[0].bytes, 65_536, 20, "huffman_struct_v2"@)->Ok_0;
    let table = huffman_table(inputs[0].bytes, log as nat);
    let bits = inputs[1].bytes;
    let count = parsed.output_len as nat;
    let symbols = if parsed.x4 {
        lemma_four_streams_len(table, log as nat, bits, count, 0, 0, Seq::empty());
        four_streams_from(table, log as nat, bits, count, 0, 0, Seq::empty())->Ok_0
    } else {
        lemma_large_stream_len(table, log as nat, bits.subrange(8, bits.len() as int), count);
        sized_stream(table, log as nat, bits, count)->Ok_0
    };
    lemma_packed_len(symbols, 2);
}

} // verus!
