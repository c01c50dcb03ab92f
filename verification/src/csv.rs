//! Dispatching strings in the order of a table: rows of fields, each of its own source,
//! and delimiters, which share one source.

use vstd::arithmetic::div_mod::{
    lemma_fundamental_div_mod, lemma_fundamental_div_mod_converse_mod, lemma_mod_bound,
};
use vstd::prelude::*;
use vstd::slice::slice_subrange;

use crate::bytes::{append_bytes, read_le};
use crate::dispatch::{
    dispatch_complete, dispatch_from, dispatch_start, dispatch_step, source_used, sources_match,
    DispatchState, DispatchStringSource,
};
use crate::stream::{
    checked_sum_u32, element, lemma_sum_lengths_monotone, sum_lengths, StreamInput, StreamView,
};

verus! {

/// The source of index `k` of a table of `fields` columns, each field of which is
/// followed by a delimiter.
pub open spec fn row_source(fields: nat, k: int) -> nat {
    let place = k % (2 * fields as int);
    if place % 2 == 1 {
        fields
    } else {
        (place / 2) as nat
    }
}

/// The source of index `k` of a table of `fields` columns, each field of which follows a
/// delimiter. In front of the rows stands a line of headers with what is between them.
pub open spec fn header_row_source(fields: nat, k: int) -> nat {
    if k < 2 * fields - 1 {
        fields + 1
    } else {
        let place = (k - (2 * fields - 1)) % (2 * fields as int);
        if place % 2 == 0 {
            fields
        } else {
            (place / 2) as nat
        }
    }
}

/// The lengths of a source add up to its bytes, and it has been used in order.
pub open spec fn source_intact(source: DispatchStringSource<'_>) -> bool {
    &&& source.position <= source.lengths@.len()
    &&& source.byte_position == sum_lengths(source.lengths@.take(source.position as int))
    &&& sum_lengths(source.lengths@) == source.bytes@.len()
}

/// Every source is intact.
pub open spec fn sources_intact(sources: Seq<DispatchStringSource<'_>>) -> bool {
    forall|i: int| 0 <= i < sources.len() ==> source_intact(#[trigger] sources[i])
}

/// The first `fields` sources have a string for each of `rows` rows.
pub open spec fn fields_fill(
    sources: Seq<DispatchStringSource<'_>>,
    fields: nat,
    rows: nat,
) -> bool {
    forall|i: int| 0 <= i < fields ==> (#[trigger] sources[i]).lengths@.len() == rows
}

/// Whether `count` indices and the sources are those of a table without headers.
pub open spec fn is_table(
    indices: StreamView,
    count: nat,
    sources: Seq<DispatchStringSource<'_>>,
    fields: nat,
) -> bool {
    let rows = count / (2 * fields);
    &&& sources.len() == fields + 1
    &&& count % (2 * fields) == 0
    &&& fields_fill(sources, fields, rows)
    &&& sources[fields as int].lengths@.len() == rows * fields
    &&& sources_intact(sources)
    &&& forall|k: int|
        0 <= k < count ==> #[trigger] element(indices.bytes, indices.element_width, k)
            == row_source(fields, k)
}

/// Whether `count` indices and the sources are those of a table with headers.
pub open spec fn is_header_table(
    indices: StreamView,
    count: nat,
    sources: Seq<DispatchStringSource<'_>>,
    fields: nat,
) -> bool {
    let rows = (count / (2 * fields) - 1) as nat;
    &&& sources.len() == fields + 2
    &&& count > 0
    &&& count % (2 * fields) == 0
    &&& fields_fill(sources, fields, rows)
    &&& sources[fields as int].lengths@.len() == rows * fields + 1
    &&& sources[fields as int + 1].lengths@.len() == 2 * fields - 1
    &&& sources_intact(sources)
    &&& forall|k: int|
        0 <= k < count ==> #[trigger] element(indices.bytes, indices.element_width, k)
            == header_row_source(fields, k)
}

/// Counting on within rows of `width` places.
proof fn lemma_next_place(index: int, width: int)
    requires
        0 <= index,
        0 < width,
    ensures
        (index + 1) % width == (if index % width + 1 == width {
            0
        } else {
            index % width + 1
        }),
{
    lemma_fundamental_div_mod(index, width);
    lemma_mod_bound(index, width);
    let row = index / width;
    if index % width + 1 == width {
        assert(index + 1 == (row + 1) * width + 0) by (nonlinear_arith)
            requires
                index == width * row + index % width,
                index % width + 1 == width,
        ;
        lemma_fundamental_div_mod_converse_mod(index + 1, width, row + 1, 0);
    } else {
        assert(index + 1 == row * width + (index % width + 1)) by (nonlinear_arith)
            requires
                index == width * row + index % width,
        ;
        lemma_fundamental_div_mod_converse_mod(index + 1, width, row, index % width + 1);
    }
}

/// The sources of a field and of the delimiter behind it.
proof fn lemma_row_source(fields: nat, row: nat, field: nat)
    requires
        field < fields,
    ensures
        row_source(fields, (2 * fields * row + 2 * field) as int) == field,
        row_source(fields, (2 * fields * row + 2 * field + 1) as int) == fields,
{
    let width = 2 * fields as int;
    assert(2 * fields * row == row as int * width) by (nonlinear_arith)
        requires
            width == 2 * fields,
    ;
    lemma_fundamental_div_mod_converse_mod(
        (2 * fields * row + 2 * field) as int,
        width,
        row as int,
        2 * field as int,
    );
    lemma_fundamental_div_mod_converse_mod(
        (2 * fields * row + 2 * field + 1) as int,
        width,
        row as int,
        2 * field as int + 1,
    );
}

/// The sources of a delimiter and of the field behind it.
proof fn lemma_header_row_source(fields: nat, row: nat, field: nat)
    requires
        field < fields,
    ensures
        header_row_source(fields, 2 * fields - 1 + 2 * fields * row + 2 * field) == fields,
        header_row_source(fields, 2 * fields - 1 + 2 * fields * row + 2 * field + 1) == field,
{
    let width = 2 * fields as int;
    assert(2 * fields * row == row as int * width) by (nonlinear_arith)
        requires
            width == 2 * fields,
    ;
    assert(2 * fields * row >= 0) by (nonlinear_arith);
    lemma_fundamental_div_mod_converse_mod(
        (2 * fields * row + 2 * field) as int,
        width,
        row as int,
        2 * field as int,
    );
    lemma_fundamental_div_mod_converse_mod(
        (2 * fields * row + 2 * field + 1) as int,
        width,
        row as int,
        2 * field as int + 1,
    );
}

proof fn lemma_intact_next(source: DispatchStringSource<'_>)
    requires
        source_intact(source),
        source.position < source.lengths@.len(),
    ensures
        source.byte_position + source.lengths@[source.position as int] == sum_lengths(
            source.lengths@.take(source.position + 1),
        ),
        source.byte_position + source.lengths@[source.position as int] <= source.bytes@.len(),
{
    let next = source.lengths@.take(source.position + 1);
    assert(next.drop_last() =~= source.lengths@.take(source.position as int));
    lemma_sum_lengths_monotone(source.lengths@, source.position + 1);
}

/// A source that is intact and has no strings left has no bytes left.
proof fn lemma_intact_used(
    sources: Seq<DispatchStringSource<'_>>,
    views: Seq<StreamView>,
    state: DispatchState,
)
    requires
        sources_match(sources, views, state),
        sources_intact(sources),
        forall|i: int|
            0 <= i < sources.len() ==> (#[trigger] sources[i]).position
                == sources[i].lengths@.len(),
    ensures
        dispatch_complete(views, state),
{
    assert forall|i: int| 0 <= i < views.len() implies #[trigger] source_used(views, state, i) by {
        let source = sources[i];
        assert(source.lengths@.take(source.position as int) =~= source.lengths@);
    }
}

/// Appends the next string of a source.
fn append_next_string(
    sources: &mut Vec<DispatchStringSource<'_>>,
    source: usize,
    output: &mut Vec<u8>,
    Ghost(views): Ghost<Seq<StreamView>>,
    Ghost(state): Ghost<DispatchState>,
    Ghost(prefix): Ghost<Seq<u8>>,
)
    requires
        sources_match(old(sources)@, views, state),
        sources_intact(old(sources)@),
        source < old(sources)@.len(),
        old(sources)@[source as int].position < old(sources)@[source as int].lengths@.len(),
        old(output)@ == prefix + state.output,
    ensures
        sources_intact(final(sources)@),
        final(sources)@.len() == old(sources)@.len(),
        forall|i: int|
            0 <= i < final(sources)@.len() ==> (#[trigger] final(sources)@[i]).lengths == old(
                sources)@[i].lengths,
        match dispatch_step(views, source as nat, state) {
            Ok(next) => sources_match(final(sources)@, views, next) && final(output)@ == prefix
                + next.output,
            Err(_) => false,
        },
{
    let mut current = sources[source];
    proof {
        assert(sources@[source as int] == current);
        lemma_intact_next(current);
    }
    let start: usize = current.byte_position;
    let end: usize = start + current.lengths[current.position] as usize;
    append_bytes(output, slice_subrange(current.bytes, start, end));
    current.position = current.position + 1;
    current.byte_position = end;
    sources.set(source, current);
    proof {
        let next = dispatch_step(views, source as nat, state)->Ok_0;
        assert(output@ =~= prefix + next.output);
    }
}

/// Tells whether the first `fields` sources have a string for each row and every source
/// is intact.
fn sources_fit(sources: &Vec<DispatchStringSource<'_>>, fields: usize, rows: usize) -> (fit: bool)
    requires
        fields <= sources@.len(),
        forall|i: int|
            0 <= i < sources@.len() ==> (#[trigger] sources@[i]).position == 0
                && sources@[i].byte_position == 0,
    ensures
        fit == (fields_fill(sources@, fields as nat, rows as nat) && sources_intact(sources@)),
{
    let mut index: usize = 0;
    while index < sources.len()
        invariant
            index <= sources@.len(),
            fields <= sources@.len(),
            forall|i: int|
                0 <= i < sources@.len() ==> (#[trigger] sources@[i]).position == 0
                    && sources@[i].byte_position == 0,
            forall|i: int| 0 <= i < index ==> source_intact(#[trigger] sources@[i]),
            forall|i: int|
                0 <= i < index && i < fields ==> (#[trigger] sources@[i]).lengths@.len() == rows,
        decreases sources@.len() - index,
    {
        let source = sources[index];
        proof {
            assert(sources@[index as int] == source);
            assert(source.lengths@.take(0) =~= Seq::empty());
            assert(source.bytes@.len() == source.bytes.len());
        }
        if index < fields && source.lengths.len() != rows {
            return false;
        }
        match checked_sum_u32(source.lengths) {
            Ok(total) => {
                if total != source.bytes.len() {
                    return false;
                }
            },
            Err(_) => {
                return false;
            },
        }
        index = index + 1;
    }
    true
}

/// Tells whether the indices are those of a table without headers.
fn row_indices_match(indices: &StreamInput<'_>, count: usize, fields: usize) -> (matches: bool)
    requires
        indices.element_width == 2,
        indices.bytes@.len() == 2 * count,
        0 < fields,
        2 * fields <= usize::MAX,
    ensures
        matches == (forall|k: int|
            0 <= k < count ==> #[trigger] element(indices.bytes@, 2, k) == row_source(
                fields as nat,
                k,
            )),
{
    let width: usize = 2 * fields;
    let mut place: usize = 0;
    let mut index: usize = 0;
    proof {
        lemma_fundamental_div_mod_converse_mod(0, width as int, 0, 0);
    }
    while index < count
        invariant
            index <= count,
            indices.bytes@.len() == 2 * count,
            width == 2 * fields,
            0 < width,
            place < width,
            place == index as int % (width as int),
            forall|k: int|
                0 <= k < index ==> #[trigger] element(indices.bytes@, 2, k) == row_source(
                    fields as nat,
                    k,
                ),
        decreases count - index,
    {
        proof {
            assert(indices.bytes@.len() == indices.bytes.len());
            lemma_next_place(index as int, width as int);
        }
        let expected: usize = if place % 2 == 1 {
            fields
        } else {
            place / 2
        };
        if read_le(indices.bytes, 2 * index, 2) != expected as u64 {
            proof {
                assert(element(indices.bytes@, 2, index as int) != row_source(
                    fields as nat,
                    index as int,
                ));
            }
            return false;
        }
        place = if place + 1 == width {
            0
        } else {
            place + 1
        };
        index = index + 1;
    }
    true
}

/// Tells whether the indices are those of a table with headers.
fn csv_wide_header_row_indices_match(
    indices: &StreamInput<'_>,
    count: usize,
    fields: usize,
) -> (matches: bool)
    requires
        indices.element_width == 2,
        indices.bytes@.len() == 2 * count,
        0 < fields,
        2 * fields <= count,
    ensures
        matches == (forall|k: int|
            0 <= k < count ==> #[trigger] element(indices.bytes@, 2, k) == header_row_source(
                fields as nat,
                k,
            )),
{
    let width: usize = 2 * fields;
    let mut index: usize = 0;
    while index < width - 1
        invariant
            index <= width - 1,
            width == 2 * fields,
            width <= count,
            0 < width,
            indices.bytes@.len() == 2 * count,
            forall|k: int|
                0 <= k < index ==> #[trigger] element(indices.bytes@, 2, k) == header_row_source(
                    fields as nat,
                    k,
                ),
        decreases width - index,
    {
        proof {
            assert(indices.bytes@.len() == indices.bytes.len());
        }
        if read_le(indices.bytes, 2 * index, 2) != (fields + 1) as u64 {
            proof {
                assert(element(indices.bytes@, 2, index as int) != header_row_source(
                    fields as nat,
                    index as int,
                ));
            }
            return false;
        }
        index = index + 1;
    }
    let mut place: usize = 0;
    proof {
        lemma_fundamental_div_mod_converse_mod(0, width as int, 0, 0);
    }
    while index < count
        invariant
            width - 1 <= index <= count,
            indices.bytes@.len() == 2 * count,
            width == 2 * fields,
            0 < width,
            place < width,
            place == (index - (width - 1)) % (width as int),
            forall|k: int|
                0 <= k < index ==> #[trigger] element(indices.bytes@, 2, k) == header_row_source(
                    fields as nat,
                    k,
                ),
        decreases count - index,
    {
        proof {
            assert(indices.bytes@.len() == indices.bytes.len());
            lemma_next_place(index - (width - 1), width as int);
        }
        let expected: usize = if place % 2 == 0 {
            fields
        } else {
            place / 2
        };
        if read_le(indices.bytes, 2 * index, 2) != expected as u64 {
            proof {
                assert(element(indices.bytes@, 2, index as int) != header_row_source(
                    fields as nat,
                    index as int,
                ));
            }
            return false;
        }
        place = if place + 1 == width {
            0
        } else {
            place + 1
        };
        index = index + 1;
    }
    true
}

/// How many strings are used where `field` fields of row `row` are done: of each field, of
/// the delimiter, and of the headers, where there are any.
pub open spec fn table_positions(
    sources: nat,
    fields: nat,
    row: nat,
    field: nat,
    headers: nat,
) -> Seq<nat> {
    Seq::new(
        sources,
        |i: int|
            if i < field {
                row + 1
            } else if i < fields {
                row
            } else if i == fields {
                row * fields + field
            } else {
                headers
            },
    )
}

/// Appends the rows of a table without headers.
fn append_2byte_csv_pattern_rows(
    rows: usize,
    fields: usize,
    sources: &mut Vec<DispatchStringSource<'_>>,
    output: &mut Vec<u8>,
    Ghost(indices): Ghost<StreamView>,
    Ghost(views): Ghost<Seq<StreamView>>,
)
    requires
        0 < fields,
        sources_match(old(sources)@, views, dispatch_start(views.len())),
        is_table(indices, 2 * fields as nat * rows as nat, old(sources)@, fields as nat),
    ensures
        match dispatch_from(
            indices,
            2 * fields as nat * rows as nat,
            views,
            0,
            dispatch_start(views.len()),
        ) {
            Ok(state) => dispatch_complete(views, state) && final(output)@ == old(output)@
                + state.output,
            Err(_) => false,
        },
{
    let ghost prefix = output@;
    let ghost count = 2 * fields as nat * rows as nat;
    let ghost start = dispatch_start(views.len());
    let ghost mut state = start;
    let mut row: usize = 0;
    proof {
        lemma_table_rows(fields as nat, rows as nat);
        assert(prefix + state.output =~= prefix);
        assert(state.positions =~= table_positions(views.len(), fields as nat, 0, 0, 0));
    }
    while row < rows
        invariant
            row <= rows,
            0 < fields,
            count == 2 * fields as nat * rows as nat,
            start == dispatch_start(views.len()),
            sources_match(sources@, views, state),
            sources_intact(sources@),
            sources@.len() == fields + 1,
            fields_fill(sources@, fields as nat, rows as nat),
            sources@[fields as int].lengths@.len() == rows as nat * fields as nat,
            forall|k: int|
                0 <= k < count ==> #[trigger] element(indices.bytes, indices.element_width, k)
                    == row_source(fields as nat, k),
            output@ == prefix + state.output,
            state.positions == table_positions(views.len(), fields as nat, row as nat, 0, 0),
            dispatch_from(indices, count, views, 0, start) == dispatch_from(
                indices,
                count,
                views,
                2 * fields as nat * row as nat,
                state,
            ),
        decreases rows - row,
    {
        let mut field: usize = 0;
        while field < fields
            invariant
                field <= fields,
                row < rows,
                0 < fields,
                count == 2 * fields as nat * rows as nat,
                start == dispatch_start(views.len()),
                sources_match(sources@, views, state),
                sources_intact(sources@),
                sources@.len() == fields + 1,
                fields_fill(sources@, fields as nat, rows as nat),
                sources@[fields as int].lengths@.len() == rows as nat * fields as nat,
                forall|k: int|
                    0 <= k < count ==> #[trigger] element(indices.bytes, indices.element_width, k)
                        == row_source(fields as nat, k),
                output@ == prefix + state.output,
                state.positions == table_positions(
                    views.len(),
                    fields as nat,
                    row as nat,
                    field as nat,
                    0,
                ),
                dispatch_from(indices, count, views, 0, start) == dispatch_from(
                    indices,
                    count,
                    views,
                    2 * fields as nat * row as nat + 2 * field as nat,
                    state,
                ),
            decreases fields - field,
        {
            let ghost k = 2 * fields as nat * row as nat + 2 * field as nat;
            proof {
                lemma_row_source(fields as nat, row as nat, field as nat);
                lemma_table_place(fields as nat, rows as nat, row as nat, field as nat);
                assert(element(indices.bytes, indices.element_width, k as int) == field);
                assert(element(indices.bytes, indices.element_width, k as int + 1) == fields);
            }
            append_next_string(sources, field, output, Ghost(views), Ghost(state), Ghost(prefix));
            proof {
                state = dispatch_step(views, field as nat, state)->Ok_0;
            }
            append_next_string(sources, fields, output, Ghost(views), Ghost(state), Ghost(prefix));
            proof {
                let next = dispatch_step(views, fields as nat, state)->Ok_0;
                assert(dispatch_from(indices, count, views, k + 1, state) == dispatch_from(
                    indices,
                    count,
                    views,
                    k + 2,
                    next,
                ));
                state = next;
                assert(state.positions =~= table_positions(
                    views.len(),
                    fields as nat,
                    row as nat,
                    (field + 1) as nat,
                    0,
                ));
            }
            field = field + 1;
        }
        proof {
            lemma_row_done(fields as nat, row as nat);
            assert(state.positions =~= table_positions(
                views.len(),
                fields as nat,
                (row + 1) as nat,
                0,
                0,
            ));
        }
        row = row + 1;
    }
    proof {
        lemma_intact_used(sources@, views, state);
    }
}

/// How many rows a table without headers has.
proof fn lemma_table_rows(fields: nat, rows: nat)
    requires
        0 < fields,
    ensures
        (2 * fields * rows) / (2 * fields) == rows,
{
    vstd::arithmetic::div_mod::lemma_div_multiples_vanish(rows as int, 2 * fields as int);
}

/// Where a field of a row stands among the indices, and its delimiter among the
/// delimiters.
proof fn lemma_table_place(fields: nat, rows: nat, row: nat, field: nat)
    requires
        row < rows,
        field < fields,
    ensures
        2 * fields * row + 2 * field + 1 < 2 * fields * rows,
        row * fields + field < rows * fields,
        0 <= 2 * fields * row,
{
    assert(2 * fields * row + 2 * fields <= 2 * fields * rows) by (nonlinear_arith)
        requires
            row < rows,
    ;
    assert(row * fields + fields <= rows * fields) by (nonlinear_arith)
        requires
            row < rows,
    ;
    assert(0 <= 2 * fields * row) by (nonlinear_arith);
}

proof fn lemma_row_done(fields: nat, row: nat)
    ensures
        2 * fields * (row + 1) == 2 * fields * row + 2 * fields,
        (row + 1) * fields == row * fields + fields,
{
    assert(2 * fields * (row + 1) == 2 * fields * row + 2 * fields) by (nonlinear_arith);
    assert((row + 1) * fields == row * fields + fields) by (nonlinear_arith);
}

/// Appends the headers and rows of a table.
fn append_wide_header_pattern(
    rows: usize,
    fields: usize,
    sources: &mut Vec<DispatchStringSource<'_>>,
    output: &mut Vec<u8>,
    Ghost(indices): Ghost<StreamView>,
    Ghost(views): Ghost<Seq<StreamView>>,
)
    requires
        0 < fields,
        2 * fields <= usize::MAX,
        sources_match(old(sources)@, views, dispatch_start(views.len())),
        is_header_table(
            indices,
            2 * fields as nat * (rows as nat + 1),
            old(sources)@,
            fields as nat,
        ),
    ensures
        match dispatch_from(
            indices,
            2 * fields as nat * (rows as nat + 1),
            views,
            0,
            dispatch_start(views.len()),
        ) {
            Ok(state) => dispatch_complete(views, state) && final(output)@ == old(output)@
                + state.output,
            Err(_) => false,
        },
{
    let ghost prefix = output@;
    let ghost headers = (2 * fields - 1) as nat;
    let ghost count = 2 * fields as nat * (rows as nat + 1);
    let ghost start = dispatch_start(views.len());
    let ghost mut state = start;
    let mut index: usize = 0;
    proof {
        lemma_table_rows(fields as nat, rows as nat + 1);
        lemma_row_done(fields as nat, rows as nat);
        assert(2 * fields as nat * rows as nat >= 0) by (nonlinear_arith);
        assert(prefix + state.output =~= prefix);
        assert(state.positions =~= table_positions(views.len(), fields as nat, 0, 0, 0));
    }
    while index < 2 * fields - 1
        invariant
            index <= headers,
            0 < fields,
            2 * fields <= usize::MAX,
            headers == 2 * fields - 1,
            headers < count,
            start == dispatch_start(views.len()),
            sources_match(sources@, views, state),
            sources_intact(sources@),
            sources@.len() == fields + 2,
            fields_fill(sources@, fields as nat, rows as nat),
            sources@[fields as int].lengths@.len() == rows as nat * fields as nat + 1,
            sources@[fields as int + 1].lengths@.len() == headers,
            forall|k: int|
                0 <= k < count ==> #[trigger] element(indices.bytes, indices.element_width, k)
                    == header_row_source(fields as nat, k),
            output@ == prefix + state.output,
            state.positions == table_positions(views.len(), fields as nat, 0, 0, index as nat),
            dispatch_from(indices, count, views, 0, start) == dispatch_from(
                indices,
                count,
                views,
                index as nat,
                state,
            ),
        decreases headers - index,
    {
        proof {
            assert(element(indices.bytes, indices.element_width, index as int) == fields + 1);
        }
        append_next_string(sources, fields + 1, output, Ghost(views), Ghost(state), Ghost(prefix));
        proof {
            state = dispatch_step(views, fields as nat + 1, state)->Ok_0;
            assert(state.positions =~= table_positions(
                views.len(),
                fields as nat,
                0,
                0,
                (index + 1) as nat,
            ));
        }
        index = index + 1;
    }
    let mut row: usize = 0;
    while row < rows
        invariant
            row <= rows,
            0 < fields,
            headers == 2 * fields - 1,
            count == headers + 2 * fields as nat * rows as nat + 1,
            start == dispatch_start(views.len()),
            sources_match(sources@, views, state),
            sources_intact(sources@),
            sources@.len() == fields + 2,
            fields_fill(sources@, fields as nat, rows as nat),
            sources@[fields as int].lengths@.len() == rows as nat * fields as nat + 1,
            sources@[fields as int + 1].lengths@.len() == headers,
            forall|k: int|
                0 <= k < count ==> #[trigger] element(indices.bytes, indices.element_width, k)
                    == header_row_source(fields as nat, k),
            output@ == prefix + state.output,
            state.positions == table_positions(views.len(), fields as nat, row as nat, 0, headers),
            dispatch_from(indices, count, views, 0, start) == dispatch_from(
                indices,
                count,
                views,
                headers + 2 * fields as nat * row as nat,
                state,
            ),
        decreases rows - row,
    {
        let mut field: usize = 0;
        while field < fields
            invariant
                field <= fields,
                row < rows,
                0 < fields,
                headers == 2 * fields - 1,
                count == headers + 2 * fields as nat * rows as nat + 1,
                start == dispatch_start(views.len()),
                sources_match(sources@, views, state),
                sources_intact(sources@),
                sources@.len() == fields + 2,
                fields_fill(sources@, fields as nat, rows as nat),
                sources@[fields as int].lengths@.len() == rows as nat * fields as nat + 1,
                sources@[fields as int + 1].lengths@.len() == headers,
                forall|k: int|
                    0 <= k < count ==> #[trigger] element(indices.bytes, indices.element_width, k)
                        == header_row_source(fields as nat, k),
                output@ == prefix + state.output,
                state.positions == table_positions(
                    views.len(),
                    fields as nat,
                    row as nat,
                    field as nat,
                    headers,
                ),
                dispatch_from(indices, count, views, 0, start) == dispatch_from(
                    indices,
                    count,
                    views,
                    headers + 2 * fields as nat * row as nat + 2 * field as nat,
                    state,
                ),
            decreases fields - field,
        {
            let ghost k = headers + 2 * fields as nat * row as nat + 2 * field as nat;
            proof {
                lemma_header_row_source(fields as nat, row as nat, field as nat);
                lemma_table_place(fields as nat, rows as nat, row as nat, field as nat);
                assert(element(indices.bytes, indices.element_width, k as int) == fields);
                assert(element(indices.bytes, indices.element_width, k as int + 1) == field);
            }
            append_next_string(sources, fields, output, Ghost(views), Ghost(state), Ghost(prefix));
            proof {
                state = dispatch_step(views, fields as nat, state)->Ok_0;
            }
            append_next_string(sources, field, output, Ghost(views), Ghost(state), Ghost(prefix));
            proof {
                let next = dispatch_step(views, field as nat, state)->Ok_0;
                assert(dispatch_from(indices, count, views, k + 1, state) == dispatch_from(
                    indices,
                    count,
                    views,
                    k + 2,
                    next,
                ));
                state = next;
                assert(state.positions =~= table_positions(
                    views.len(),
                    fields as nat,
                    row as nat,
                    (field + 1) as nat,
                    headers,
                ));
            }
            field = field + 1;
        }
        proof {
            lemma_row_done(fields as nat, row as nat);
            assert(state.positions =~= table_positions(
                views.len(),
                fields as nat,
                (row + 1) as nat,
                0,
                headers,
            ));
        }
        row = row + 1;
    }
    proof {
        lemma_header_row_source(fields as nat, rows as nat, 0);
        assert(element(indices.bytes, indices.element_width, count - 1) == fields);
    }
    append_next_string(sources, fields, output, Ghost(views), Ghost(state), Ghost(prefix));
    proof {
        let next = dispatch_step(views, fields as nat, state)->Ok_0;
        assert(dispatch_from(indices, count, views, (count - 1) as nat, state) == dispatch_from(
            indices,
            count,
            views,
            count,
            next,
        ));
        lemma_intact_used(sources@, views, next);
    }
}

/// Appends the strings of a table without headers, where the indices and the sources are
/// those of one.
pub(crate) fn append_dispatched_string_2byte_csv_pattern_fast(
    indices: &StreamInput<'_>,
    count: usize,
    fields: usize,
    sources: &mut Vec<DispatchStringSource<'_>>,
    output: &mut Vec<u8>,
    Ghost(views): Ghost<Seq<StreamView>>,
) -> (appended: bool)
    requires
        0 < fields,
        2 * fields <= usize::MAX,
        old(sources)@.len() == fields + 1,
        indices.element_width == 2,
        indices.bytes@.len() == 2 * count,
        sources_match(old(sources)@, views, dispatch_start(views.len())),
    ensures
        appended == is_table(indices@, count as nat, old(sources)@, fields as nat),
        appended ==> match dispatch_from(
            indices@,
            count as nat,
            views,
            0,
            dispatch_start(views.len()),
        ) {
            Ok(state) => dispatch_complete(views, state) && final(output)@ == old(output)@
                + state.output,
            Err(_) => false,
        },
        !appended ==> final(output)@ == old(output)@ && final(sources)@ == old(sources)@,
{
    let width: usize = 2 * fields;
    if count % width != 0 {
        return false;
    }
    let rows: usize = count / width;
    proof {
        lemma_fundamental_div_mod(count as int, width as int);
        lemma_delimiters(fields as nat, rows as nat);
    }
    if sources[fields].lengths.len() != rows * fields || !sources_fit(sources, fields, rows)
        || !row_indices_match(indices, count, fields) {
        return false;
    }
    append_2byte_csv_pattern_rows(rows, fields, sources, output, Ghost(indices@), Ghost(views));
    true
}

/// A row has half as many delimiters as indices.
proof fn lemma_delimiters(fields: nat, rows: nat)
    ensures
        2 * (rows * fields) == 2 * fields * rows,
{
    assert(2 * (rows * fields) == 2 * fields * rows) by (nonlinear_arith);
}

/// Appends the strings of a table with headers, where the indices and the sources are
/// those of one.
pub(crate) fn append_dispatched_string_2byte_csv_wide_header_pattern_fast(
    indices: &StreamInput<'_>,
    count: usize,
    fields: usize,
    sources: &mut Vec<DispatchStringSource<'_>>,
    output: &mut Vec<u8>,
    Ghost(views): Ghost<Seq<StreamView>>,
) -> (appended: bool)
    requires
        0 < fields,
        old(sources)@.len() == fields + 2,
        indices.element_width == 2,
        indices.bytes@.len() == 2 * count,
        sources_match(old(sources)@, views, dispatch_start(views.len())),
    ensures
        appended == is_header_table(indices@, count as nat, old(sources)@, fields as nat),
        appended ==> match dispatch_from(
            indices@,
            count as nat,
            views,
            0,
            dispatch_start(views.len()),
        ) {
            Ok(state) => dispatch_complete(views, state) && final(output)@ == old(output)@
                + state.output,
            Err(_) => false,
        },
        !appended ==> final(output)@ == old(output)@ && final(sources)@ == old(sources)@,
{
    if fields > count / 2 {
        proof {
            vstd::arithmetic::div_mod::lemma_small_mod(count as nat, 2 * fields as nat);
        }
        return false;
    }
    let width: usize = 2 * fields;
    if count % width != 0 {
        return false;
    }
    proof {
        lemma_fundamental_div_mod(count as int, width as int);
        assert(count as int / (width as int) >= 1) by (nonlinear_arith)
            requires
                count as int == width as int * (count as int / (width as int)),
                0 < width <= count,
        ;
    }
    let rows: usize = count / width - 1;
    proof {
        lemma_delimiters(fields as nat, rows as nat);
        lemma_row_done(fields as nat, rows as nat);
    }
    if sources[fields].lengths.len() != rows * fields + 1 || sources[fields + 1].lengths.len()
        != width - 1 || !sources_fit(sources, fields, rows) || !csv_wide_header_row_indices_match(
        indices,
        count,
        fields,
    ) {
        return false;
    }
    append_wide_header_pattern(rows, fields, sources, output, Ghost(indices@), Ghost(views));
    true
}

} // verus!
