//! Columns of a table of fixed-width fields are woven back into rows.

use vstd::prelude::*;
use vstd::slice::slice_subrange;

use crate::bytes::append_bytes;
use crate::error::{
    appends, detailed, error_of, fail, outcome, plain, plain_outcome, Error, ErrorKind, ErrorView,
};
use crate::limits::{check_output_limit, output_limit_error, Limits};
use crate::stream::{
    lemma_element_inside, lemma_whole_elements, stream_views, typed_stream, OwnedStream,
    StreamInput, StreamView,
};

verus! {

/// The fields of row `row` in the columns before `column`.
pub open spec fn row_prefix(columns: Seq<StreamView>, row: nat, column: nat) -> Seq<u8>
    decreases column,
{
    if column == 0 {
        Seq::empty()
    } else {
        let last = columns[column - 1];
        row_prefix(columns, row, (column - 1) as nat) + last.bytes.subrange(
            (row * last.element_width) as int,
            (row * last.element_width + last.element_width) as int,
        )
    }
}

/// The first `rows` rows of the columns.
pub open spec fn woven_rows(columns: Seq<StreamView>, rows: nat) -> Seq<u8>
    decreases rows,
{
    if rows == 0 {
        Seq::empty()
    } else {
        woven_rows(columns, (rows - 1) as nat) + row_prefix(
            columns,
            (rows - 1) as nat,
            columns.len(),
        )
    }
}

/// Adds up the field widths from `index` on; every column must have `rows` whole
/// fields.
pub open spec fn struct_width_from(
    columns: Seq<StreamView>,
    rows: nat,
    index: nat,
    width: nat,
) -> Result<nat, ErrorView>
    decreases columns.len() - index,
{
    if index >= columns.len() {
        Ok(width)
    } else {
        let column = columns[index as int];
        if column.element_width == 0 {
            Err(detailed(ErrorKind::InvalidType, "split_by_struct field width is zero"@))
        } else if column.bytes.len() % column.element_width != 0 {
            Err(detailed(ErrorKind::Malformed, "split_by_struct input has partial element"@))
        } else if column.bytes.len() / column.element_width != rows {
            Err(
                detailed(
                    ErrorKind::Malformed,
                    "split_by_struct inputs have mismatched element counts"@,
                ),
            )
        } else if width + column.element_width > usize::MAX {
            Err(plain(ErrorKind::IntegerOverflow))
        } else {
            struct_width_from(columns, rows, index + 1, width + column.element_width)
        }
    }
}

/// How many rows the columns have, by the first of them.
pub open spec fn row_count(columns: Seq<StreamView>) -> nat {
    columns[0].bytes.len() / columns[0].element_width
}

/// The size of the woven rows, or why the columns are refused.
pub open spec fn struct_output_len(columns: Seq<StreamView>) -> Result<usize, ErrorView> {
    if columns.len() == 0 {
        Err(detailed(ErrorKind::Malformed, "split_by_struct requires inputs"@))
    } else if columns[0].element_width == 0 {
        Err(detailed(ErrorKind::InvalidType, "split_by_struct field width is zero"@))
    } else if columns[0].bytes.len() % columns[0].element_width != 0 {
        Err(detailed(ErrorKind::Malformed, "split_by_struct input has partial element"@))
    } else {
        match struct_width_from(columns, row_count(columns), 0, 0) {
            Err(error) => Err(error),
            Ok(width) => if row_count(columns) * width > usize::MAX {
                Err(plain(ErrorKind::IntegerOverflow))
            } else {
                Ok((row_count(columns) * width) as usize)
            },
        }
    }
}

/// The woven rows, or why the columns are refused.
pub open spec fn weave(columns: Seq<StreamView>, limits: Limits) -> Result<Seq<u8>, ErrorView> {
    match struct_output_len(columns) {
        Err(error) => Err(error),
        Ok(len) => if !limits.admits(len as int) {
            Err(output_limit_error())
        } else {
            Ok(woven_rows(columns, row_count(columns)))
        },
    }
}

/// What a split_by_struct node produces.
pub open spec fn split_by_struct_node(
    inputs: Seq<StreamView>,
    variable_inputs: u32,
    header: Seq<u8>,
    limits: Limits,
) -> Result<StreamView, ErrorView> {
    if header.len() != 0 {
        Err(detailed(ErrorKind::Unsupported, "split_by_struct headers are unsupported"@))
    } else if inputs.len() != variable_inputs {
        Err(
            detailed(
                ErrorKind::InvalidGraph,
                "split_by_struct input count does not match node shape"@,
            ),
        )
    } else {
        match weave(inputs, limits) {
            Err(error) => Err(error),
            Ok(bytes) => Ok(typed_stream(bytes, 1)),
        }
    }
}

/// Every column has a field for each row.
pub open spec fn columns_cover(columns: Seq<StreamView>, rows: nat) -> bool {
    forall|i: int|
        0 <= i < columns.len() ==> (#[trigger] columns[i]).element_width > 0
            && columns[i].bytes.len() == rows * columns[i].element_width
}

proof fn lemma_struct_width(columns: Seq<StreamView>, rows: nat, index: nat, width: nat)
    requires
        index <= columns.len(),
        forall|i: int|
            0 <= i < index ==> (#[trigger] columns[i]).element_width > 0 && columns[i].bytes.len()
                == rows * columns[i].element_width,
        width == fields_width(columns, index),
        struct_width_from(columns, rows, index, width) is Ok,
    ensures
        columns_cover(columns, rows),
        struct_width_from(columns, rows, index, width)->Ok_0 == fields_width(
            columns,
            columns.len(),
        ),
    decreases columns.len() - index,
{
    if index < columns.len() {
        let column = columns[index as int];
        lemma_whole_elements(column.bytes.len(), column.element_width);
        lemma_struct_width(columns, rows, index + 1, width + column.element_width);
    }
}

/// The widths of the first `count` fields, added up.
pub open spec fn fields_width(columns: Seq<StreamView>, count: nat) -> nat
    decreases count,
{
    if count == 0 {
        0
    } else {
        fields_width(columns, (count - 1) as nat) + columns[count - 1].element_width
    }
}

proof fn lemma_row_len(columns: Seq<StreamView>, rows: nat, row: nat, column: nat)
    requires
        columns_cover(columns, rows),
        row < rows,
        column <= columns.len(),
    ensures
        row_prefix(columns, row, column).len() == fields_width(columns, column),
    decreases column,
{
    if column > 0 {
        lemma_row_len(columns, rows, row, (column - 1) as nat);
        lemma_element_inside(row, rows, columns[column - 1].element_width);
    }
}

proof fn lemma_woven_len(columns: Seq<StreamView>, rows: nat, count: nat)
    requires
        columns_cover(columns, rows),
        count <= rows,
    ensures
        woven_rows(columns, count).len() == count * fields_width(columns, columns.len()),
    decreases count,
{
    let width = fields_width(columns, columns.len());
    if count == 0 {
        assert(count * width == 0) by (nonlinear_arith)
            requires
                count == 0,
        ;
    } else {
        lemma_woven_len(columns, rows, (count - 1) as nat);
        lemma_row_len(columns, rows, (count - 1) as nat, columns.len());
        assert((count - 1) * width + width == count * width) by (nonlinear_arith);
    }
}

/// Woven rows are as long as was announced.
pub proof fn lemma_weave_rows(columns: Seq<StreamView>, limits: Limits)
    requires
        weave(columns, limits) is Ok,
    ensures
        weave(columns, limits)->Ok_0.len() == struct_output_len(columns)->Ok_0,
{
    let count = row_count(columns);
    lemma_struct_width(columns, count, 0, 0);
    lemma_woven_len(columns, count, count);
}

/// Woven rows are as long as was announced, and the field of column `c` in row
/// `r` stands in row `r` behind the fields of the columns before `c`.
pub proof fn law_weave_places_every_field(
    columns: Seq<StreamView>,
    limits: Limits,
    row: nat,
    column: nat,
    byte: nat,
)
    requires
        weave(columns, limits) is Ok,
        row < row_count(columns),
        column < columns.len(),
        byte < columns[column as int].element_width,
    ensures
        ({
            let rows = weave(columns, limits)->Ok_0;
            let width = fields_width(columns, columns.len());
            &&& rows.len() == struct_output_len(columns)->Ok_0
            &&& rows.len() == row_count(columns) * width
            &&& rows[(row * width + fields_width(columns, column) + byte) as int]
                == columns[column as int].bytes[(row * columns[column as int].element_width + byte)
                as int]
        }),
{
    let count = row_count(columns);
    let width = fields_width(columns, columns.len());
    lemma_weave_rows(columns, limits);
    lemma_struct_width(columns, count, 0, 0);
    lemma_woven_len(columns, count, count);
    lemma_row_in_rows(columns, count, count, row);
    lemma_row_len(columns, count, row, columns.len());
    lemma_field_in_row(columns, count, row, columns.len(), column, byte);
    lemma_fields_width_monotone(columns, column + 1, columns.len());
    let rows = woven_rows(columns, count);
    lemma_element_inside(row, count, width);
    let line = rows.subrange((row * width) as int, (row * width + width) as int);
    assert(line == row_prefix(columns, row, columns.len()));
    assert(line[(fields_width(columns, column) + byte) as int] == rows[(row * width + fields_width(
        columns,
        column,
    ) + byte) as int]);
}

proof fn lemma_fields_width_monotone(columns: Seq<StreamView>, small: nat, large: nat)
    requires
        small <= large,
    ensures
        fields_width(columns, small) <= fields_width(columns, large),
    decreases large,
{
    if small < large {
        lemma_fields_width_monotone(columns, small, (large - 1) as nat);
    }
}

proof fn lemma_row_in_rows(columns: Seq<StreamView>, rows: nat, count: nat, row: nat)
    requires
        columns_cover(columns, rows),
        row < count <= rows,
    ensures
        ({
            let width = fields_width(columns, columns.len());
            &&& row * width + width <= woven_rows(columns, count).len()
            &&& woven_rows(columns, count).subrange(
                (row * width) as int,
                (row * width + width) as int,
            ) == row_prefix(columns, row, columns.len())
        }),
    decreases count,
{
    let width = fields_width(columns, columns.len());
    lemma_woven_len(columns, rows, count);
    lemma_woven_len(columns, rows, (count - 1) as nat);
    lemma_row_len(columns, rows, (count - 1) as nat, columns.len());
    lemma_element_inside(row, count, width);
    let whole = woven_rows(columns, count);
    if row < count - 1 {
        lemma_row_in_rows(columns, rows, (count - 1) as nat, row);
        assert(whole.subrange((row * width) as int, (row * width + width) as int) =~= woven_rows(
            columns,
            (count - 1) as nat,
        ).subrange((row * width) as int, (row * width + width) as int));
    } else {
        assert(whole.subrange((row * width) as int, (row * width + width) as int) =~= row_prefix(
            columns,
            row,
            columns.len(),
        ));
    }
}

proof fn lemma_field_in_row(
    columns: Seq<StreamView>,
    rows: nat,
    row: nat,
    count: nat,
    column: nat,
    byte: nat,
)
    requires
        columns_cover(columns, rows),
        row < rows,
        column < count <= columns.len(),
        byte < columns[column as int].element_width,
    ensures
        fields_width(columns, column) + byte < row_prefix(columns, row, count).len(),
        row_prefix(columns, row, count)[(fields_width(columns, column) + byte) as int]
            == columns[column as int].bytes[(row * columns[column as int].element_width + byte)
            as int],
    decreases count,
{
    let last = columns[count - 1];
    lemma_row_len(columns, rows, row, count);
    lemma_row_len(columns, rows, row, (count - 1) as nat);
    lemma_element_inside(row, rows, last.element_width);
    if column < count - 1 {
        lemma_field_in_row(columns, rows, row, (count - 1) as nat, column, byte);
    }
}

/// The size of the rows that the columns weave into.
pub fn split_by_struct_output_len(inputs: &[StreamInput<'_>]) -> (result: Result<usize, Error>)
    ensures
        plain_outcome(result) == struct_output_len(stream_views(inputs@)),
{
    if inputs.len() == 0 {
        return Err(fail(ErrorKind::Malformed, "split_by_struct requires inputs"));
    }
    let first = inputs[0];
    if first.element_width == 0 {
        return Err(fail(ErrorKind::InvalidType, "split_by_struct field width is zero"));
    }
    if first.bytes.len() % first.element_width != 0 {
        return Err(fail(ErrorKind::Malformed, "split_by_struct input has partial element"));
    }
    let element_count: usize = first.bytes.len() / first.element_width;
    let ghost views = stream_views(inputs@);
    let mut struct_width: usize = 0;
    let mut index: usize = 0;
    while index < inputs.len()
        invariant
            index <= inputs.len(),
            views == stream_views(inputs@),
            inputs.len() > 0,
            views[0].element_width > 0,
            views[0].bytes.len() % views[0].element_width == 0,
            element_count == row_count(views),
            struct_width_from(views, element_count as nat, 0, 0) == struct_width_from(
                views,
                element_count as nat,
                index as nat,
                struct_width as nat,
            ),
        decreases inputs.len() - index,
    {
        let input = inputs[index];
        assert(views[index as int] == input@);
        if input.element_width == 0 {
            return Err(fail(ErrorKind::InvalidType, "split_by_struct field width is zero"));
        }
        if input.bytes.len() % input.element_width != 0 {
            return Err(fail(ErrorKind::Malformed, "split_by_struct input has partial element"));
        }
        if input.bytes.len() / input.element_width != element_count {
            return Err(
                fail(
                    ErrorKind::Malformed,
                    "split_by_struct inputs have mismatched element counts",
                ),
            );
        }
        struct_width = match struct_width.checked_add(input.element_width) {
            Some(width) => width,
            None => {
                return Err(Error::new(ErrorKind::IntegerOverflow));
            },
        };
        index = index + 1;
    }
    match element_count.checked_mul(struct_width) {
        Some(output_len) => Ok(output_len),
        None => Err(Error::new(ErrorKind::IntegerOverflow)),
    }
}

/// Weaves columns into rows at the end of `output`, which is left as it was where
/// the columns are refused.
pub fn append_split_by_struct_output(
    inputs: &[StreamInput<'_>],
    limits: Limits,
    output: &mut Vec<u8>,
) -> (result: Result<(), Error>)
    ensures
        appends(
            weave_behind(stream_views(inputs@), limits, old(output)@.len()),
            old(output)@,
            final(output)@,
            error_of(result),
        ),
{
    let output_len: usize = split_by_struct_output_len(inputs)?;
    check_output_limit(output_len, limits)?;
    if output_len > usize::MAX - output.len() {
        return Err(Error::new(ErrorKind::IntegerOverflow));
    }
    let ghost views = stream_views(inputs@);
    let ghost before = output@;
    let rows: usize = inputs[0].bytes.len() / inputs[0].element_width;
    proof {
        lemma_struct_width(views, rows as nat, 0, 0);
        assert(before + woven_rows(views, 0) =~= before);
    }
    let mut row: usize = 0;
    while row < rows
        invariant
            row <= rows,
            views == stream_views(inputs@),
            columns_cover(views, rows as nat),
            output@ == before + woven_rows(views, row as nat),
        decreases rows - row,
    {
        let ghost line_start = output@;
        let mut column: usize = 0;
        proof {
            assert(line_start + row_prefix(views, row as nat, 0) =~= line_start);
        }
        while column < inputs.len()
            invariant
                column <= inputs.len(),
                row < rows,
                views == stream_views(inputs@),
                columns_cover(views, rows as nat),
                output@ == line_start + row_prefix(views, row as nat, column as nat),
            decreases inputs.len() - column,
        {
            let input = inputs[column];
            assert(views[column as int] == input@);
            proof {
                lemma_element_inside(row as nat, rows as nat, input.element_width as nat);
                assert(input.bytes@.len() == input.bytes.len());
            }
            let start: usize = row * input.element_width;
            let part = slice_subrange(input.bytes, start, start + input.element_width);
            append_bytes(output, part);
            proof {
                assert(output@ =~= line_start + row_prefix(
                    views,
                    row as nat,
                    (column + 1) as nat,
                ));
            }
            column = column + 1;
        }
        row = row + 1;
        proof {
            assert(output@ =~= before + woven_rows(views, row as nat));
        }
    }
    Ok(())
}

/// The woven rows where `base` bytes already stand in front of them.
pub open spec fn weave_behind(columns: Seq<StreamView>, limits: Limits, base: nat) -> Result<
    Seq<u8>,
    ErrorView,
> {
    match weave(columns, limits) {
        Err(error) => Err(error),
        Ok(rows) => if base + struct_output_len(columns)->Ok_0 > usize::MAX {
            Err(plain(ErrorKind::IntegerOverflow))
        } else {
            Ok(rows)
        },
    }
}

/// Decodes a split_by_struct node.
pub fn decode_split_by_struct_node(
    inputs: &[StreamInput<'_>],
    variable_inputs: u32,
    header: &[u8],
    limits: Limits,
) -> (result: Result<OwnedStream, Error>)
    ensures
        outcome(result) == split_by_struct_node(
            stream_views(inputs@),
            variable_inputs,
            header@,
            limits,
        ),
        result is Ok ==> !result->Ok_0.recyclable,
{
    if header.len() != 0 {
        return Err(fail(ErrorKind::Unsupported, "split_by_struct headers are unsupported"));
    }
    if inputs.len() != variable_inputs as usize {
        return Err(
            fail(
                ErrorKind::InvalidGraph,
                "split_by_struct input count does not match node shape",
            ),
        );
    }
    let mut output: Vec<u8> = Vec::new();
    append_split_by_struct_output(inputs, limits, &mut output)?;
    proof {
        let rows = weave(stream_views(inputs@), limits)->Ok_0;
        assert(Seq::<u8>::empty() + rows =~= rows);
    }
    Ok(OwnedStream::typed(output, 1))
}

} // verus!
