//! What transforms accept: where they give a stream, and where they refuse.

use vstd::prelude::*;

use crate::bytes::{law_var_u64_round_trip, var_bytes};
use crate::error::ErrorView;
use crate::limits::Limits;
use crate::numeric::{delta_node, zigzag_node};
use crate::sentinel::{sentinel_from, sentinel_node, sentinel_value};
use crate::sparse_num::{distance_sum, sparse_num_node};
use crate::split_struct::{split_by_struct_node, struct_width_from};
use crate::splitn::{splitn_node, splitn_total};
use crate::stream::{
    element, lemma_element_inside, lemma_whole_elements, max_numeric, sum_lengths, StreamView,
};
use crate::strings::{
    component_lengths_from, separate_string_components_node, string_to_serial_node,
};
use crate::tokenize::{tokenize_fixed_node, tokens_from};
use crate::transpose::transpose_split_node;

verus! {

/// Whether a stream consists of whole integers of one, two, four or eight bytes.
pub open spec fn whole_numbers(stream: StreamView) -> bool {
    &&& stream.element_width == 1 || stream.element_width == 2 || stream.element_width == 4
        || stream.element_width == 8
    &&& stream.bytes.len() % stream.element_width == 0
}

/// Whether so many bytes may be decoded at once.
pub open spec fn has_room(limits: Limits, len: nat) -> bool {
    len <= limits.max_decoded_bytes && len <= limits.max_buffer_bytes
}

/// A zigzag node takes whole integers and no header.
pub proof fn law_zigzag_accepts(stored: StreamView, header: Seq<u8>, limits: Limits)
    ensures
        zigzag_node(stored, header, limits) is Ok <==> header.len() == 0 && whole_numbers(stored)
            && has_room(limits, stored.bytes.len()),
{
}

/// A delta node takes whole integers behind a first one in the header, or nothing at all,
/// and gives one integer more than it takes, or none.
pub proof fn law_delta_accepts(stored: StreamView, header: Seq<u8>, limits: Limits)
    requires
        stored.bytes.len() < usize::MAX,
    ensures
        delta_node(stored, header, limits) is Ok <==> whole_numbers(stored) && (if header.len()
            == 0 {
            stored.bytes.len() == 0
        } else {
            header.len() == stored.element_width && has_room(
                limits,
                stored.bytes.len() + stored.element_width,
            )
        }),
        delta_node(stored, header, limits) is Ok ==> delta_node(
            stored,
            header,
            limits,
        )->Ok_0.element_width == stored.element_width,
        delta_node(stored, header, limits) is Ok && header.len() == 0 ==> delta_node(
            stored,
            header,
            limits,
        )->Ok_0.bytes.len() == 0,
{
    let width = stored.element_width;
    if whole_numbers(stored) {
        lemma_whole_elements(stored.bytes.len(), width);
        let count = stored.bytes.len() / width;
        assert((count + 1) * width == count * width + width) by (nonlinear_arith);
        assert(0 * width == 0);
        if stored.bytes.len() != 0 && count == 0 {
            assert(0 * width == 0);
        }
        if stored.bytes.len() == 0 {
            assert(count == 0);
        }
    }
    if delta_node(stored, header, limits) is Ok && header.len() == 0 {
        assert(delta_node(stored, header, limits)->Ok_0.bytes.len() == 0 * width);
    }
}

/// A transpose_split node takes one or more lanes of one length.
pub proof fn law_transpose_accepts(
    inputs: Seq<StreamView>,
    variable_inputs: u32,
    header: Seq<u8>,
    limits: Limits,
)
    ensures
        transpose_split_node(inputs, variable_inputs, header, limits) is Ok <==> {
            &&& header.len() == 0
            &&& variable_inputs == 0 || variable_inputs == inputs.len()
            &&& inputs.len() > 0
            &&& has_room(limits, inputs[0].bytes.len() * inputs.len())
            &&& forall|i: int|
                0 <= i < inputs.len() ==> (#[trigger] inputs[i]).bytes.len()
                    == inputs[0].bytes.len()
        },
{
}

proof fn lemma_tokens(alphabet: StreamView, indices: StreamView, place: nat, decoded: Seq<u8>)
    requires
        whole_numbers(indices),
        indices.bytes.len() <= usize::MAX,
        alphabet.bytes.len() <= usize::MAX,
        alphabet.element_width > 0,
    ensures
        tokens_from(alphabet, indices, place, decoded) is Ok <==> forall|i: int|
            place <= i < indices.bytes.len() / indices.element_width ==> #[trigger] element(
                indices.bytes,
                indices.element_width,
                i,
            ) < alphabet.bytes.len() / alphabet.element_width,
    decreases indices.bytes.len() / indices.element_width - place,
{
    let count = indices.bytes.len() / indices.element_width;
    let letters = alphabet.bytes.len() / alphabet.element_width;
    if place < count {
        lemma_whole_elements(indices.bytes.len(), indices.element_width);
        lemma_element_inside(place, count, indices.element_width);
        vstd::arithmetic::div_mod::lemma_div_is_ordered_by_denominator(
            alphabet.bytes.len() as int,
            1,
            alphabet.element_width as int,
        );
        assert(letters <= usize::MAX);
        let value = element(indices.bytes, indices.element_width, place as int);
        if value < letters {
            lemma_tokens(
                alphabet,
                indices,
                place + 1,
                decoded + crate::tokenize::token(alphabet, value as int),
            );
        }
    }
}

/// A tokenize_fixed node takes whole letters and whole indices, each of a letter that
/// there is.
pub proof fn law_tokenize_accepts(inputs: Seq<StreamView>, header: Seq<u8>, limits: Limits)
    requires
        inputs.len() == 2,
        inputs[0].bytes.len() <= usize::MAX,
        inputs[1].bytes.len() <= usize::MAX,
        inputs[0].element_width > 0,
    ensures
        tokenize_fixed_node(inputs, header, limits) is Ok <==> {
            let letters = inputs[0].bytes.len() / inputs[0].element_width;
            let count = inputs[1].bytes.len() / inputs[1].element_width;
            &&& header.len() == 0
            &&& inputs[0].bytes.len() % inputs[0].element_width == 0
            &&& whole_numbers(inputs[1])
            &&& has_room(limits, count * inputs[0].element_width)
            &&& forall|i: int|
                0 <= i < count ==> #[trigger] element(
                    inputs[1].bytes,
                    inputs[1].element_width,
                    i,
                ) < letters
        },
{
    if whole_numbers(inputs[1]) {
        lemma_whole_elements(inputs[1].bytes.len(), inputs[1].element_width);
        lemma_tokens(inputs[0], inputs[1], 0, Seq::empty());
        let count = inputs[1].bytes.len() / inputs[1].element_width;
        if count > 0 {
            let first = element(inputs[1].bytes, inputs[1].element_width, 0);
            assert(first >= 0);
        }
    }
}

/// A convert_string_to_serial node takes strings whose lengths add up to their bytes.
pub proof fn law_string_to_serial_accepts(input: StreamView, header: Seq<u8>, limits: Limits)
    ensures
        string_to_serial_node(input, header, limits) is Ok <==> {
            &&& header.len() == 0
            &&& input.element_width == 1
            &&& input.string_lengths is Some
            &&& sum_lengths(input.string_lengths->0) == input.bytes.len()
            &&& has_room(limits, input.bytes.len())
        },
        string_to_serial_node(input, header, limits) is Ok ==> string_to_serial_node(
            input,
            header,
            limits,
        )->Ok_0 == input.bytes,
{
}

/// The sizes from `index` on, added up.
pub open spec fn sizes_from(sizes: StreamView, index: nat) -> nat
    decreases sizes.bytes.len() / sizes.element_width - index,
{
    if index >= sizes.bytes.len() / sizes.element_width {
        0
    } else {
        element(sizes.bytes, sizes.element_width, index as int) + sizes_from(sizes, index + 1)
    }
}

proof fn lemma_component_lengths(sizes: StreamView, index: nat, total: nat, lengths: Seq<u32>)
    requires
        whole_numbers(sizes),
        sizes.bytes.len() <= usize::MAX,
        total <= usize::MAX,
    ensures
        ({
            let result = component_lengths_from(sizes, index, total, lengths);
            &&& result is Ok <==> total + sizes_from(sizes, index) <= usize::MAX && forall|i: int|
                index <= i < sizes.bytes.len() / sizes.element_width ==> #[trigger] element(
                    sizes.bytes,
                    sizes.element_width,
                    i,
                ) <= u32::MAX
            &&& result is Ok ==> result->Ok_0.1 == total + sizes_from(sizes, index)
        }),
    decreases sizes.bytes.len() / sizes.element_width - index,
{
    let count = sizes.bytes.len() / sizes.element_width;
    if index < count {
        lemma_whole_elements(sizes.bytes.len(), sizes.element_width);
        lemma_element_inside(index, count, sizes.element_width);
        let size = element(sizes.bytes, sizes.element_width, index as int);
        if total + size <= usize::MAX && size <= u32::MAX {
            lemma_component_lengths(sizes, index + 1, total + size, lengths.push(size as u32));
        }
    }
}

/// A separate_string_components node takes bytes and whole lengths that fit in 32 bits and
/// add up to them.
pub proof fn law_string_components_accept(
    inputs: Seq<StreamView>,
    header: Seq<u8>,
    limits: Limits,
)
    requires
        inputs.len() == 2,
        inputs[0].bytes.len() <= usize::MAX,
        inputs[1].bytes.len() <= usize::MAX,
    ensures
        separate_string_components_node(inputs, header, limits) is Ok <==> {
            &&& header.len() == 0
            &&& inputs[0].element_width == 1
            &&& whole_numbers(inputs[1])
            &&& forall|i: int|
                0 <= i < inputs[1].bytes.len() / inputs[1].element_width ==> #[trigger] element(
                    inputs[1].bytes,
                    inputs[1].element_width,
                    i,
                ) <= u32::MAX
            &&& sizes_from(inputs[1], 0) == inputs[0].bytes.len()
            &&& has_room(limits, inputs[0].bytes.len())
        },
{
    if whole_numbers(inputs[1]) {
        lemma_component_lengths(inputs[1], 0, 0, Seq::empty());
    }
}

/// The sentinel is the one that the header states, or the largest integer of the width
/// where it states none.
pub proof fn law_sentinel_is_stated(value: u64, largest: u64)
    ensures
        sentinel_value(Seq::empty(), largest) == Ok::<u64, ErrorView>(largest),
        value <= largest ==> sentinel_value(var_bytes(value as nat), largest) == Ok::<
            u64,
            ErrorView,
        >(value),
        value > largest ==> sentinel_value(var_bytes(value as nat), largest) is Err,
        max_numeric(1) == 0xff,
        max_numeric(2) == 0xffff,
        max_numeric(4) == 0xffff_ffff,
        max_numeric(8) == 0xffff_ffff_ffff_ffff,
{
    law_var_u64_round_trip(Seq::empty(), value, Seq::empty());
    let header = var_bytes(value as nat);
    assert(Seq::<u8>::empty() + header + Seq::<u8>::empty() =~= header);
    assert(Seq::<u8>::empty() + header =~= header);
    assert(header.len() > 0);
}

/// The widths of the columns from `index` on, added up.
pub open spec fn widths_from(columns: Seq<StreamView>, index: nat) -> nat
    decreases columns.len() - index,
{
    if index >= columns.len() {
        0
    } else {
        columns[index as int].element_width + widths_from(columns, index + 1)
    }
}

/// Whether a column holds one whole field for each row.
pub open spec fn column_fills(column: StreamView, rows: nat) -> bool {
    column.element_width > 0 && column.bytes.len() == rows * column.element_width
}

proof fn lemma_column_fills(column: StreamView, rows: nat)
    requires
        column.element_width > 0,
    ensures
        column_fills(column, rows) <==> column.bytes.len() % column.element_width == 0
            && column.bytes.len() / column.element_width == rows,
{
    let len = column.bytes.len();
    let width = column.element_width;
    if len % width == 0 {
        lemma_whole_elements(len, width);
    }
    if len == rows * width {
        vstd::arithmetic::div_mod::lemma_div_by_multiple(rows as int, width as int);
        vstd::arithmetic::div_mod::lemma_mod_multiples_basic(rows as int, width as int);
    }
}

proof fn lemma_struct_width(columns: Seq<StreamView>, rows: nat, index: nat, width: nat)
    requires
        width <= usize::MAX,
    ensures
        ({
            let result = struct_width_from(columns, rows, index, width);
            &&& result is Ok <==> width + widths_from(columns, index) <= usize::MAX && forall|
                i: int,
            |
                index <= i < columns.len() ==> column_fills(#[trigger] columns[i], rows)
            &&& result is Ok ==> result->Ok_0 == width + widths_from(columns, index)
        }),
    decreases columns.len() - index,
{
    if index < columns.len() {
        let column = columns[index as int];
        if column.element_width > 0 {
            lemma_column_fills(column, rows);
            if column_fills(column, rows) && width + column.element_width <= usize::MAX {
                lemma_struct_width(columns, rows, index + 1, width + column.element_width);
            }
        }
    }
}

/// A split_by_struct node takes one or more columns of whole fields, as many in each, and
/// no header.
pub proof fn law_split_by_struct_accepts(
    inputs: Seq<StreamView>,
    variable_inputs: u32,
    header: Seq<u8>,
    limits: Limits,
)
    ensures
        split_by_struct_node(inputs, variable_inputs, header, limits) is Ok <==> {
            let rows = inputs[0].bytes.len() / inputs[0].element_width;
            &&& header.len() == 0
            &&& inputs.len() == variable_inputs
            &&& inputs.len() > 0
            &&& forall|i: int|
                0 <= i < inputs.len() ==> column_fills(#[trigger] inputs[i], rows)
            &&& widths_from(inputs, 0) <= usize::MAX
            &&& has_room(limits, rows * widths_from(inputs, 0))
        },
{
    if inputs.len() > 0 && inputs[0].element_width > 0 {
        let rows = inputs[0].bytes.len() / inputs[0].element_width;
        lemma_column_fills(inputs[0], rows);
        lemma_struct_width(inputs, rows, 0, 0);
    }
}

/// The bytes of the streams from `index` on, counted.
pub open spec fn bytes_from(streams: Seq<StreamView>, index: nat) -> nat
    decreases streams.len() - index,
{
    if index >= streams.len() {
        0
    } else {
        streams[index as int].bytes.len() + bytes_from(streams, index + 1)
    }
}

/// Whether a stream has whole elements of a width.
pub open spec fn has_width(stream: StreamView, width: nat) -> bool {
    stream.element_width == width && stream.bytes.len() % width == 0
}

proof fn lemma_splitn_total(inputs: Seq<StreamView>, width: nat, index: nat, total: nat)
    requires
        total <= usize::MAX,
    ensures
        ({
            let result = splitn_total(inputs, width, index, total);
            &&& result is Ok <==> total + bytes_from(inputs, index) <= usize::MAX && forall|
                i: int,
            |
                index <= i < inputs.len() ==> has_width(#[trigger] inputs[i], width)
            &&& result is Ok ==> result->Ok_0 == total + bytes_from(inputs, index)
        }),
    decreases inputs.len() - index,
{
    if index < inputs.len() {
        let input = inputs[index as int];
        if has_width(input, width) && total + input.bytes.len() <= usize::MAX {
            lemma_splitn_total(inputs, width, index + 1, total + input.bytes.len());
        }
    }
}

/// A splitn node with inputs takes streams of whole elements of one width, and no header.
pub proof fn law_splitn_accepts(
    inputs: Seq<StreamView>,
    variable_inputs: u32,
    header: Seq<u8>,
    limits: Limits,
)
    requires
        inputs.len() > 0,
    ensures
        splitn_node(inputs, variable_inputs, header, limits) is Ok <==> {
            &&& header.len() == 0
            &&& inputs.len() == variable_inputs
            &&& inputs[0].element_width > 0
            &&& forall|i: int|
                0 <= i < inputs.len() ==> has_width(
                    #[trigger] inputs[i],
                    inputs[0].element_width,
                )
            &&& has_room(limits, bytes_from(inputs, 0))
        },
{
    lemma_splitn_total(inputs, inputs[0].element_width, 0, 0);
}

/// A splitn node without inputs gives an empty stream, of the width that its header states
/// or of bytes.
pub proof fn law_empty_splitn_has_its_width(width: u64, limits: Limits)
    ensures
        splitn_node(Seq::empty(), 0, Seq::empty(), limits) == Ok::<StreamView, ErrorView>(
            StreamView { bytes: Seq::empty(), element_width: 1, string_lengths: None },
        ),
        0 < width <= usize::MAX ==> splitn_node(
            Seq::empty(),
            0,
            var_bytes(width as nat),
            limits,
        ) == Ok::<StreamView, ErrorView>(
            StreamView {
                bytes: Seq::empty(),
                element_width: width as nat,
                string_lengths: None,
            },
        ),
        width == 0 ==> splitn_node(Seq::empty(), 0, var_bytes(width as nat), limits) is Err,
{
    law_var_u64_round_trip(Seq::empty(), width, Seq::empty());
    let header = var_bytes(width as nat);
    assert(Seq::<u8>::empty() + header + Seq::<u8>::empty() =~= header);
    assert(Seq::<u8>::empty() + header =~= header);
    assert(header.len() > 0);
}

/// How often the sentinel occurs from `index` on.
pub open spec fn sentinels_from(values: StreamView, sentinel: nat, index: nat) -> nat
    decreases values.bytes.len() / values.element_width - index,
{
    if index >= values.bytes.len() / values.element_width {
        0
    } else {
        (if element(values.bytes, values.element_width, index as int) == sentinel {
            1nat
        } else {
            0nat
        }) + sentinels_from(values, sentinel, index + 1)
    }
}

proof fn lemma_sentinels_used(
    values: StreamView,
    exceptions: StreamView,
    sentinel: u64,
    index: nat,
    used: nat,
    resolved: Seq<u64>,
)
    requires
        used <= exceptions.bytes.len() / exceptions.element_width,
    ensures
        sentinel_from(values, exceptions, sentinel, index, used, resolved) is Ok <==> used
            + sentinels_from(values, sentinel as nat, index) == exceptions.bytes.len()
            / exceptions.element_width,
    decreases values.bytes.len() / values.element_width - index,
{
    let count = values.bytes.len() / values.element_width;
    if index < count {
        let value = element(values.bytes, values.element_width, index as int);
        if value != sentinel {
            lemma_sentinels_used(
                values,
                exceptions,
                sentinel,
                index + 1,
                used,
                resolved.push(value as u64),
            );
        } else if used < exceptions.bytes.len() / exceptions.element_width {
            lemma_sentinels_used(
                values,
                exceptions,
                sentinel,
                index + 1,
                used + 1,
                resolved.push(
                    element(exceptions.bytes, exceptions.element_width, used as int) as u64,
                ),
            );
        }
    }
}

/// A sentinel node takes whole values and whole exceptions that are no narrower, and as
/// many exceptions as there are sentinels among the values.
pub proof fn law_sentinel_accepts(inputs: Seq<StreamView>, header: Seq<u8>, limits: Limits)
    requires
        inputs.len() == 2,
        inputs[0].bytes.len() <= usize::MAX,
    ensures
        sentinel_node(inputs, header, limits) is Ok <==> {
            let stated = sentinel_value(header, max_numeric(inputs[0].element_width as int));
            let count = inputs[0].bytes.len() / inputs[0].element_width;
            &&& whole_numbers(inputs[0])
            &&& whole_numbers(inputs[1])
            &&& inputs[0].element_width <= inputs[1].element_width
            &&& stated is Ok
            &&& has_room(limits, count * inputs[1].element_width)
            &&& sentinels_from(inputs[0], stated->Ok_0 as nat, 0) == inputs[1].bytes.len()
                / inputs[1].element_width
        },
{
    let stated = sentinel_value(header, max_numeric(inputs[0].element_width as int));
    if whole_numbers(inputs[0]) && whole_numbers(inputs[1]) && stated is Ok {
        lemma_whole_elements(inputs[0].bytes.len(), inputs[0].element_width);
        lemma_sentinels_used(inputs[0], inputs[1], stated->Ok_0, 0, 0, Seq::empty());
    }
}

proof fn lemma_distances(distances: StreamView, base: nat, count: nat)
    requires
        count <= distances.bytes.len() / distances.element_width,
    ensures
        distance_sum(distances, base, count) + sizes_from(distances, count) == base + sizes_from(
            distances,
            0,
        ),
    decreases count,
{
    if count > 0 {
        lemma_distances(distances, base, (count - 1) as nat);
    }
}

/// A sparse_num node takes whole distances of at most four bytes and whole values, one
/// distance for each value and perhaps one more, and a dominant value no wider than they.
pub proof fn law_sparse_num_accepts(inputs: Seq<StreamView>, header: Seq<u8>, limits: Limits)
    requires
        inputs.len() == 2,
    ensures
        sparse_num_node(inputs, header, limits) is Ok <==> {
            let runs = inputs[0].bytes.len() / inputs[0].element_width;
            let count = inputs[1].bytes.len() / inputs[1].element_width;
            &&& whole_numbers(inputs[0])
            &&& inputs[0].element_width <= 4
            &&& whole_numbers(inputs[1])
            &&& header.len() <= inputs[1].element_width
            &&& runs == count || runs == count + 1
            &&& has_room(
                limits,
                (count + sizes_from(inputs[0], 0)) * inputs[1].element_width,
            )
        },
{
    if whole_numbers(inputs[0]) && whole_numbers(inputs[1]) {
        let runs = inputs[0].bytes.len() / inputs[0].element_width;
        let count = inputs[1].bytes.len() / inputs[1].element_width;
        lemma_distances(inputs[0], count, runs);
    }
}

} // verus!
