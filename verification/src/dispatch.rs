//! Dispatch transforms: strings or segments of several streams, put back into
//! one in the order that an index stream gives.

use vstd::prelude::*;
use vstd::slice::slice_subrange;

use crate::bytes::append_bytes;
use crate::csv::{
    append_dispatched_string_2byte_csv_pattern_fast,
    append_dispatched_string_2byte_csv_wide_header_pattern_fast,
};
use crate::error::{
    detailed, error_of, fail, leaves, outcome, plain, Error, ErrorKind, ErrorView,
};
use crate::limits::{check_output_limit, output_limit_error, Limits};
use crate::stream::{
    checked_sum_u32, element, element_count, lemma_element_bound, lemma_element_inside,
    numeric_element_count, numeric_width_error, read_usize_numeric_element, require_numeric_width,
    required_width_error, stream_views, sum_lengths, usize_element, validate_numeric_stream_width,
    OwnedStream, StreamInput, StreamView,
};

verus! {

/// The fewest fields of a table that is recognised as one.
pub const CSV_FIELDS: usize = 4;

/// How far the strings of the sources have been put back.
#[verifier::ext_equal]
pub struct DispatchState {
    /// How many strings of each source are used.
    pub positions: Seq<nat>,
    /// How many bytes of each source are used.
    pub byte_positions: Seq<nat>,
    pub output: Seq<u8>,
    pub lengths: Seq<u32>,
}

/// Where dispatching starts.
pub open spec fn dispatch_start(sources: nat) -> DispatchState {
    DispatchState {
        positions: Seq::new(sources, |i: int| 0nat),
        byte_positions: Seq::new(sources, |i: int| 0nat),
        output: Seq::empty(),
        lengths: Seq::empty(),
    }
}

/// The state after the next string of `source` is appended.
pub open spec fn dispatch_step(sources: Seq<StreamView>, source: nat, state: DispatchState) -> Result<
    DispatchState,
    ErrorView,
> {
    if source >= sources.len() {
        Err(detailed(ErrorKind::Malformed, "dispatch_string source index is invalid"@))
    } else {
        let lengths = sources[source as int].string_lengths->0;
        let bytes = sources[source as int].bytes;
        let position = state.positions[source as int];
        let start = state.byte_positions[source as int];
        if position >= lengths.len() {
            Err(detailed(ErrorKind::Malformed, "dispatch_string source is exhausted"@))
        } else {
            let length = lengths[position as int];
            let end = start + length as nat;
            if end > usize::MAX {
                Err(plain(ErrorKind::IntegerOverflow))
            } else if end > bytes.len() {
                Err(detailed(ErrorKind::Malformed, "dispatch_string range is invalid"@))
            } else {
                Ok(
                    DispatchState {
                        positions: state.positions.update(source as int, position + 1),
                        byte_positions: state.byte_positions.update(source as int, end),
                        output: state.output + bytes.subrange(start as int, end as int),
                        lengths: state.lengths.push(length),
                    },
                )
            }
        }
    }
}

/// The state after the strings that the indices from `index` on name.
pub open spec fn dispatch_from(
    indices: StreamView,
    count: nat,
    sources: Seq<StreamView>,
    index: nat,
    state: DispatchState,
) -> Result<DispatchState, ErrorView>
    decreases count - index,
{
    if index >= count {
        Ok(state)
    } else {
        match dispatch_step(
            sources,
            element(indices.bytes, indices.element_width, index as int),
            state,
        ) {
            Err(error) => Err(error),
            Ok(next) => dispatch_from(indices, count, sources, index + 1, next),
        }
    }
}

/// The bytes that are put back when the strings that the indices from `index` on name run
/// out, or one of them is refused.
pub open spec fn dispatch_written_from(
    indices: StreamView,
    count: nat,
    sources: Seq<StreamView>,
    index: nat,
    state: DispatchState,
) -> Seq<u8>
    decreases count - index,
{
    if index >= count {
        state.output
    } else {
        match dispatch_step(
            sources,
            element(indices.bytes, indices.element_width, index as int),
            state,
        ) {
            Err(_) => state.output,
            Ok(next) => dispatch_written_from(indices, count, sources, index + 1, next),
        }
    }
}

/// Whether every string of every source has been used.
pub open spec fn dispatch_complete(sources: Seq<StreamView>, state: DispatchState) -> bool {
    forall|i: int| 0 <= i < sources.len() ==> #[trigger] source_used(sources, state, i)
}

/// Whether every string of source `i` has been used.
pub open spec fn source_used(sources: Seq<StreamView>, state: DispatchState, i: int) -> bool {
    &&& state.positions[i] == sources[i].string_lengths->0.len()
    &&& state.byte_positions[i] == sources[i].bytes.len()
}

/// Adds up the strings and bytes of the sources from `index` on. The lengths of a
/// source are checked against its size only where `checked` says so.
pub open spec fn dispatch_totals(
    sources: Seq<StreamView>,
    checked: bool,
    index: nat,
    strings: nat,
    bytes: nat,
) -> Result<(nat, nat), ErrorView>
    decreases sources.len() - index,
{
    if index >= sources.len() {
        Ok((strings, bytes))
    } else {
        let source = sources[index as int];
        if source.element_width != 1 {
            Err(
                detailed(ErrorKind::InvalidType, "dispatch_string inputs must be byte strings"@),
            )
        } else if source.string_lengths is None {
            Err(
                detailed(
                    ErrorKind::InvalidType,
                    "dispatch_string input is missing string lengths"@,
                ),
            )
        } else {
            let lengths = source.string_lengths->0;
            if checked && sum_lengths(lengths) > usize::MAX {
                Err(plain(ErrorKind::IntegerOverflow))
            } else if checked && sum_lengths(lengths) != source.bytes.len() {
                Err(
                    detailed(
                        ErrorKind::Malformed,
                        "dispatch_string input lengths do not sum to content size"@,
                    ),
                )
            } else if strings + lengths.len() > usize::MAX || bytes + source.bytes.len()
                > usize::MAX {
                Err(plain(ErrorKind::IntegerOverflow))
            } else {
                dispatch_totals(
                    sources,
                    checked,
                    index + 1,
                    strings + lengths.len(),
                    bytes + source.bytes.len(),
                )
            }
        }
    }
}

/// The width of string indices in a format version.
pub open spec fn dispatch_index_width(format_version: u32) -> nat {
    if format_version < 21 {
        1
    } else {
        2
    }
}

/// The number of indices of a dispatch_string node, or why it is refused.
pub open spec fn dispatch_shape(
    inputs: Seq<StreamView>,
    variable_inputs: u32,
    header: Seq<u8>,
    format_version: u32,
    limits: Limits,
    checked: bool,
) -> Result<usize, ErrorView> {
    if header.len() != 0 {
        Err(detailed(ErrorKind::Malformed, "dispatch_string header must be empty"@))
    } else if variable_inputs + 1 > usize::MAX {
        Err(plain(ErrorKind::IntegerOverflow))
    } else if inputs.len() != variable_inputs + 1 {
        Err(
            detailed(
                ErrorKind::InvalidGraph,
                "dispatch_string input count does not match node shape"@,
            ),
        )
    } else {
        let indices = inputs[0];
        let sources = inputs.skip(1);
        let width = dispatch_index_width(format_version);
        if required_width_error(indices, width, "dispatch_string indices"@) is Some {
            Err(required_width_error(indices, width, "dispatch_string indices"@)->0)
        } else {
            let count = indices.bytes.len() / width;
            if count != 0 && sources.len() == 0 {
                Err(
                    detailed(
                        ErrorKind::Malformed,
                        "dispatch_string indices require string inputs"@,
                    ),
                )
            } else {
                match dispatch_totals(sources, checked, 0, 0, 0) {
                    Err(error) => Err(error),
                    Ok((strings, bytes)) => if count != strings {
                        Err(
                            detailed(
                                ErrorKind::Malformed,
                                "dispatch_string index count does not match string count"@,
                            ),
                        )
                    } else if !limits.admits(bytes as int) {
                        Err(output_limit_error())
                    } else {
                        Ok(count as usize)
                    },
                }
            }
        }
    }
}

/// What the sources of a dispatch_string node are put back into.
pub open spec fn dispatch_strings(
    inputs: Seq<StreamView>,
    variable_inputs: u32,
    header: Seq<u8>,
    format_version: u32,
    limits: Limits,
    checked: bool,
) -> Result<DispatchState, ErrorView> {
    match dispatch_shape(inputs, variable_inputs, header, format_version, limits, checked) {
        Err(error) => Err(error),
        Ok(count) => match dispatch_from(
            inputs[0],
            count as nat,
            inputs.skip(1),
            0,
            dispatch_start((inputs.len() - 1) as nat),
        ) {
            Err(error) => Err(error),
            Ok(state) => if !dispatch_complete(inputs.skip(1), state) {
                Err(
                    detailed(
                        ErrorKind::Malformed,
                        "dispatch_string did not consume every source string"@,
                    ),
                )
            } else {
                Ok(state)
            },
        },
    }
}

/// What a dispatch_string node produces.
pub open spec fn dispatch_string_node(
    inputs: Seq<StreamView>,
    variable_inputs: u32,
    header: Seq<u8>,
    format_version: u32,
    limits: Limits,
) -> Result<StreamView, ErrorView> {
    match dispatch_strings(inputs, variable_inputs, header, format_version, limits, true) {
        Err(error) => Err(error),
        Ok(state) => Ok(
            StreamView {
                bytes: state.output,
                element_width: 1,
                string_lengths: Some(state.lengths),
            },
        ),
    }
}

/// What a dispatch_string node that is read as plain bytes produces.
pub open spec fn dispatch_string_serial(
    inputs: Seq<StreamView>,
    variable_inputs: u32,
    header: Seq<u8>,
    format_version: u32,
    limits: Limits,
) -> Result<Seq<u8>, ErrorView> {
    match dispatch_strings(inputs, variable_inputs, header, format_version, limits, false) {
        Err(error) => Err(error),
        Ok(state) => Ok(state.output),
    }
}

/// What a dispatch_string node that is read as plain bytes and fails has appended by then.
pub open spec fn dispatch_left(
    inputs: Seq<StreamView>,
    variable_inputs: u32,
    header: Seq<u8>,
    format_version: u32,
    limits: Limits,
) -> Seq<u8> {
    match dispatch_shape(inputs, variable_inputs, header, format_version, limits, false) {
        Err(_) => Seq::empty(),
        Ok(count) => dispatch_written_from(
            inputs[0],
            count as nat,
            inputs.skip(1),
            0,
            dispatch_start((inputs.len() - 1) as nat),
        ),
    }
}

/// The sum of a sequence of sizes.
pub open spec fn sum_nats(values: Seq<nat>) -> nat
    decreases values.len(),
{
    if values.len() == 0 {
        0
    } else {
        sum_nats(values.drop_last()) + values.last()
    }
}

proof fn lemma_sum_nats_update(values: Seq<nat>, index: int, value: nat)
    requires
        0 <= index < values.len(),
    ensures
        sum_nats(values.update(index, value)) == sum_nats(values) - values[index] + value,
    decreases values.len(),
{
    if index == values.len() - 1 {
        assert(values.update(index, value).drop_last() =~= values.drop_last());
    } else {
        lemma_sum_nats_update(values.drop_last(), index, value);
        assert(values.update(index, value).drop_last() =~= values.drop_last().update(
            index,
            value,
        ));
    }
}

proof fn lemma_sum_nats_zero(count: nat)
    ensures
        sum_nats(Seq::new(count, |i: int| 0nat)) == 0,
    decreases count,
{
    let zeros = Seq::new(count, |i: int| 0nat);
    if count > 0 {
        lemma_sum_nats_zero((count - 1) as nat);
        assert(zeros.drop_last() =~= Seq::new((count - 1) as nat, |i: int| 0nat));
    }
}

proof fn lemma_sum_lengths_push(lengths: Seq<u32>, length: u32)
    ensures
        sum_lengths(lengths.push(length)) == sum_lengths(lengths) + length,
{
    assert(lengths.push(length).drop_last() =~= lengths);
}

proof fn lemma_dispatch_balance(
    indices: StreamView,
    count: nat,
    sources: Seq<StreamView>,
    index: nat,
    state: DispatchState,
)
    requires
        state.positions.len() == sources.len(),
        state.byte_positions.len() == sources.len(),
        state.output.len() == sum_nats(state.byte_positions),
        state.output.len() == sum_lengths(state.lengths),
        dispatch_from(indices, count, sources, index, state) is Ok,
    ensures
        ({
            let done = dispatch_from(indices, count, sources, index, state)->Ok_0;
            &&& done.byte_positions.len() == sources.len()
            &&& done.output.len() == sum_nats(done.byte_positions)
            &&& done.output.len() == sum_lengths(done.lengths)
            &&& done.lengths.len() == state.lengths.len() + (if index < count {
                count - index
            } else {
                0
            })
        }),
    decreases count - index,
{
    if index < count {
        let source = element(indices.bytes, indices.element_width, index as int);
        let next = dispatch_step(sources, source, state)->Ok_0;
        let start = state.byte_positions[source as int];
        let length = sources[source as int].string_lengths->0[state.positions[source as int]
            as int];
        lemma_sum_nats_update(state.byte_positions, source as int, start + length as nat);
        lemma_sum_lengths_push(state.lengths, length);
        lemma_dispatch_balance(indices, count, sources, index + 1, next);
    }
}

/// The bytes of a list of streams, added up.
pub open spec fn total_bytes(streams: Seq<StreamView>) -> nat {
    sum_nats(Seq::new(streams.len(), |i: int| streams[i].bytes.len()))
}

/// A dispatch_string node that decodes loses nothing: its output has one string
/// for each index, its lengths add up to its size, and its size is that of all
/// sources together.
pub proof fn law_dispatch_string_keeps_every_byte(
    inputs: Seq<StreamView>,
    variable_inputs: u32,
    header: Seq<u8>,
    format_version: u32,
    limits: Limits,
)
    requires
        inputs[0].bytes.len() <= usize::MAX,
        dispatch_string_node(inputs, variable_inputs, header, format_version, limits) is Ok,
    ensures
        ({
            let output = dispatch_string_node(
                inputs,
                variable_inputs,
                header,
                format_version,
                limits,
            )->Ok_0;
            &&& output.bytes.len() == total_bytes(inputs.skip(1))
            &&& sum_lengths(output.string_lengths->0) == output.bytes.len()
            &&& output.string_lengths->0.len() == inputs[0].bytes.len() / dispatch_index_width(
                format_version,
            )
        }),
{
    let count = dispatch_shape(
        inputs,
        variable_inputs,
        header,
        format_version,
        limits,
        true,
    )->Ok_0;
    let sources = inputs.skip(1);
    let start = dispatch_start(sources.len());
    lemma_sum_nats_zero(sources.len());
    lemma_dispatch_balance(inputs[0], count as nat, sources, 0, start);
    let done = dispatch_from(inputs[0], count as nat, sources, 0, start)->Ok_0;
    assert(done.byte_positions =~= Seq::new(sources.len(), |i: int| sources[i].bytes.len())) by {
        assert forall|i: int| 0 <= i < sources.len() implies done.byte_positions[i]
            == sources[i].bytes.len() by {
            assert(source_used(sources, done, i));
        }
    }
    vstd::arithmetic::div_mod::lemma_div_is_ordered_by_denominator(
        inputs[0].bytes.len() as int,
        1,
        dispatch_index_width(format_version) as int,
    );
}

/// The strings of one source, and how far they have been used.
#[derive(Clone, Copy)]
pub struct DispatchStringSource<'a> {
    pub bytes: &'a [u8],
    pub lengths: &'a [u32],
    pub position: usize,
    pub byte_position: usize,
}

/// Whether `sources` hold the strings of `views` and have been used as far as
/// `state` says.
pub open spec fn sources_match(
    sources: Seq<DispatchStringSource<'_>>,
    views: Seq<StreamView>,
    state: DispatchState,
) -> bool {
    &&& sources.len() == views.len()
    &&& state.positions.len() == views.len()
    &&& state.byte_positions.len() == views.len()
    &&& forall|i: int|
        0 <= i < views.len() ==> {
            &&& (#[trigger] sources[i]).bytes@ == views[i].bytes
            &&& views[i].string_lengths == Some(sources[i].lengths@)
            &&& sources[i].position == state.positions[i]
            &&& sources[i].byte_position == state.byte_positions[i]
            &&& sources[i].byte_position <= sources[i].bytes.len()
        }
}

/// Checks the shape of a dispatch_string node; returns its index count and its
/// sources.
fn prepare_dispatch<'a>(
    inputs: &[StreamInput<'a>],
    variable_inputs: u32,
    header: &[u8],
    format_version: u32,
    limits: Limits,
    checked: bool,
) -> (result: Result<(usize, Vec<DispatchStringSource<'a>>), Error>)
    ensures
        match result {
            Ok((count, sources)) => {
                &&& dispatch_shape(
                    stream_views(inputs@),
                    variable_inputs,
                    header@,
                    format_version,
                    limits,
                    checked,
                ) == Ok::<usize, ErrorView>(count)
                &&& sources_match(
                    sources@,
                    stream_views(inputs@).skip(1),
                    dispatch_start((inputs.len() - 1) as nat),
                )
                &&& inputs.len() >= 1
                &&& inputs[0].element_width == dispatch_index_width(format_version)
                &&& inputs[0].bytes.len() == count * inputs[0].element_width
            },
            Err(error) => dispatch_shape(
                stream_views(inputs@),
                variable_inputs,
                header@,
                format_version,
                limits,
                checked,
            ) == Err::<usize, ErrorView>(error@),
        },
{
    if header.len() != 0 {
        return Err(fail(ErrorKind::Malformed, "dispatch_string header must be empty"));
    }
    let source_count: usize = variable_inputs as usize;
    if source_count == usize::MAX {
        return Err(Error::new(ErrorKind::IntegerOverflow));
    }
    if inputs.len() != source_count + 1 {
        return Err(
            fail(
                ErrorKind::InvalidGraph,
                "dispatch_string input count does not match node shape",
            ),
        );
    }
    let ghost views = stream_views(inputs@).skip(1);
    let expected_width: usize = if format_version < 21 {
        1
    } else {
        2
    };
    require_numeric_width(&inputs[0], expected_width, "dispatch_string indices")?;
    let index_count: usize = numeric_element_count(inputs[0].bytes, inputs[0].element_width)?;
    if index_count != 0 && inputs.len() == 1 {
        return Err(
            fail(ErrorKind::Malformed, "dispatch_string indices require string inputs"),
        );
    }
    let mut sources: Vec<DispatchStringSource<'a>> = Vec::new();
    let mut total_string_count: usize = 0;
    let mut total_bytes: usize = 0;
    let mut index: usize = 1;
    while index < inputs.len()
        invariant
            1 <= index <= inputs.len(),
            views == stream_views(inputs@).skip(1),
            sources.len() == index - 1,
            forall|i: int|
                0 <= i < sources.len() ==> {
                    &&& (#[trigger] sources[i]).bytes@ == views[i].bytes
                    &&& views[i].string_lengths == Some(sources[i].lengths@)
                    &&& sources[i].position == 0
                    &&& sources[i].byte_position == 0
                },
            dispatch_totals(views, checked, 0, 0, 0) == dispatch_totals(
                views,
                checked,
                (index - 1) as nat,
                total_string_count as nat,
                total_bytes as nat,
            ),
            index_count != 0 ==> inputs.len() != 1,
            header@.len() == 0,
            variable_inputs + 1 == inputs.len(),
            required_width_error(
                stream_views(inputs@)[0],
                dispatch_index_width(format_version),
                "dispatch_string indices"@,
            ) is None,
            index_count == inputs[0].bytes@.len() / dispatch_index_width(format_version),
        decreases inputs.len() - index,
    {
        let input = inputs[index];
        assert(views[index - 1] == input@);
        if input.element_width != 1 {
            return Err(
                fail(ErrorKind::InvalidType, "dispatch_string inputs must be byte strings"),
            );
        }
        let lengths = match input.string_lengths {
            Some(lengths) => lengths,
            None => {
                return Err(
                    fail(ErrorKind::InvalidType, "dispatch_string input is missing string lengths"),
                );
            },
        };
        if checked {
            let byte_total: usize = checked_sum_u32(lengths)?;
            if byte_total != input.bytes.len() {
                return Err(
                    fail(
                        ErrorKind::Malformed,
                        "dispatch_string input lengths do not sum to content size",
                    ),
                );
            }
        }
        if lengths.len() > usize::MAX - total_string_count || input.bytes.len() > usize::MAX
            - total_bytes {
            return Err(Error::new(ErrorKind::IntegerOverflow));
        }
        total_string_count = total_string_count + lengths.len();
        total_bytes = total_bytes + input.bytes.len();
        sources.push(
            DispatchStringSource { bytes: input.bytes, lengths, position: 0, byte_position: 0 },
        );
        index = index + 1;
    }
    if index_count != total_string_count {
        return Err(
            fail(
                ErrorKind::Malformed,
                "dispatch_string index count does not match string count",
            ),
        );
    }
    check_output_limit(total_bytes, limits)?;
    Ok((index_count, sources))
}

/// Puts back the strings that the indices name, at the end of `output`.
fn append_dispatched_strings(
    indices: &StreamInput<'_>,
    count: usize,
    sources: &mut Vec<DispatchStringSource<'_>>,
    output: &mut Vec<u8>,
    lengths: &mut Vec<u32>,
    Ghost(views): Ghost<Seq<StreamView>>,
) -> (result: Result<(), Error>)
    requires
        sources_match(old(sources)@, views, dispatch_start(views.len())),
        indices.element_width == 1 || indices.element_width == 2,
        indices.bytes.len() == count * indices.element_width,
        old(lengths)@.len() == 0,
    ensures
        final(output)@ == old(output)@ + dispatch_written_from(
            indices@,
            count as nat,
            views,
            0,
            dispatch_start(views.len()),
        ),
        match result {
            Ok(_) => exists|state: DispatchState|
                {
                    &&& dispatch_from(
                        indices@,
                        count as nat,
                        views,
                        0,
                        dispatch_start(views.len()),
                    ) == Ok::<DispatchState, ErrorView>(state)
                    &&& #[trigger] sources_match(final(sources)@, views, state)
                    &&& final(output)@ == old(output)@ + state.output
                    &&& final(lengths)@ == state.lengths
                },
            Err(error) => dispatch_from(
                indices@,
                count as nat,
                views,
                0,
                dispatch_start(views.len()),
            ) == Err::<DispatchState, ErrorView>(error@),
        },
{
    let ghost prefix = output@;
    let ghost mut state = dispatch_start(views.len());
    let mut index: usize = 0;
    proof {
        assert(prefix + state.output =~= prefix);
        assert(lengths@ =~= state.lengths);
    }
    while index < count
        invariant
            index <= count,
            prefix == old(output)@,
            indices.element_width == 1 || indices.element_width == 2,
            indices.bytes.len() == count * indices.element_width,
            sources_match(sources@, views, state),
            output@ == prefix + state.output,
            lengths@ == state.lengths,
            dispatch_from(indices@, count as nat, views, 0, dispatch_start(views.len()))
                == dispatch_from(indices@, count as nat, views, index as nat, state),
            dispatch_written_from(indices@, count as nat, views, 0, dispatch_start(views.len()))
                == dispatch_written_from(indices@, count as nat, views, index as nat, state),
        decreases count - index,
    {
        proof {
            lemma_element_inside(index as nat, count as nat, indices.element_width as nat);
            lemma_element_bound(indices.bytes@, indices.element_width as nat, index as int);
        }
        let source: usize = crate::bytes::read_le(
            indices.bytes,
            index * indices.element_width,
            indices.element_width,
        ) as usize;
        assert(source as nat == element(
            indices.bytes@,
            indices.element_width as nat,
            index as int,
        ));
        if source >= sources.len() {
            return Err(fail(ErrorKind::Malformed, "dispatch_string source index is invalid"));
        }
        let mut current = sources[source];
        if current.position >= current.lengths.len() {
            return Err(fail(ErrorKind::Malformed, "dispatch_string source is exhausted"));
        }
        let length: u32 = current.lengths[current.position];
        let start: usize = current.byte_position;
        let end: usize = match start.checked_add(length as usize) {
            Some(end) => end,
            None => {
                return Err(Error::new(ErrorKind::IntegerOverflow));
            },
        };
        if end > current.bytes.len() {
            return Err(fail(ErrorKind::Malformed, "dispatch_string range is invalid"));
        }
        let part = slice_subrange(current.bytes, start, end);
        append_bytes(output, part);
        lengths.push(length);
        current.position = current.position + 1;
        current.byte_position = end;
        let ghost before = sources@;
        sources.set(source, current);
        proof {
            let next = dispatch_step(views, source as nat, state)->Ok_0;
            assert(output@ =~= prefix + next.output);
            state = next;
        }
        index = index + 1;
    }
    Ok(())
}

/// Checks that every string of every source has been used.
fn check_sources_consumed(
    sources: &Vec<DispatchStringSource<'_>>,
    Ghost(views): Ghost<Seq<StreamView>>,
    Ghost(state): Ghost<DispatchState>,
) -> (result: Result<(), Error>)
    requires
        sources_match(sources@, views, state),
    ensures
        match result {
            Ok(_) => dispatch_complete(views, state),
            Err(error) => !dispatch_complete(views, state) && error@ == detailed(
                ErrorKind::Malformed,
                "dispatch_string did not consume every source string"@,
            ),
        },
{
    let mut index: usize = 0;
    while index < sources.len()
        invariant
            index <= sources.len(),
            sources_match(sources@, views, state),
            forall|i: int| 0 <= i < index ==> #[trigger] source_used(views, state, i),
        decreases sources.len() - index,
    {
        let source = sources[index];
        if source.position != source.lengths.len() || source.byte_position != source.bytes.len() {
            proof {
                assert(sources@[index as int] == source);
                assert(!source_used(views, state, index as int));
            }
            return Err(
                fail(ErrorKind::Malformed, "dispatch_string did not consume every source string"),
            );
        }
        proof {
            assert(sources@[index as int] == source);
            assert(source_used(views, state, index as int));
        }
        index = index + 1;
    }
    Ok(())
}

/// Decodes a dispatch_string node into a stream of strings.
pub fn decode_dispatch_string_node(
    inputs: &[StreamInput<'_>],
    variable_inputs: u32,
    header: &[u8],
    format_version: u32,
    limits: Limits,
) -> (result: Result<OwnedStream, Error>)
    ensures
        outcome(result) == dispatch_string_node(
            stream_views(inputs@),
            variable_inputs,
            header@,
            format_version,
            limits,
        ),
        result is Ok ==> !result->Ok_0.recyclable,
{
    let (count, mut sources) = prepare_dispatch(
        inputs,
        variable_inputs,
        header,
        format_version,
        limits,
        true,
    )?;
    let ghost views = stream_views(inputs@).skip(1);
    let mut output: Vec<u8> = Vec::new();
    let mut lengths: Vec<u32> = Vec::new();
    append_dispatched_strings(
        &inputs[0],
        count,
        &mut sources,
        &mut output,
        &mut lengths,
        Ghost(views),
    )?;
    let ghost state = dispatch_from(
        inputs[0]@,
        count as nat,
        views,
        0,
        dispatch_start(views.len()),
    )->Ok_0;
    proof {
        assert(Seq::<u8>::empty() + state.output =~= state.output);
    }
    check_sources_consumed(&sources, Ghost(views), Ghost(state))?;
    Ok(
        OwnedStream {
            bytes: output,
            element_width: 1,
            string_lengths: Some(lengths),
            recyclable: false,
        },
    )
}

/// Decodes a dispatch_string node as plain bytes at the end of `output`; where it fails
/// midway, the caller takes back what was written.
pub fn decode_dispatch_string_node_to_serial_output(
    inputs: &[StreamInput<'_>],
    variable_inputs: u32,
    header: &[u8],
    format_version: u32,
    limits: Limits,
    output: &mut Vec<u8>,
) -> (result: Result<(), Error>)
    ensures
        leaves(
            dispatch_string_serial(
                stream_views(inputs@),
                variable_inputs,
                header@,
                format_version,
                limits,
            ),
            dispatch_left(
                stream_views(inputs@),
                variable_inputs,
                header@,
                format_version,
                limits,
            ),
            old(output)@,
            final(output)@,
            error_of(result),
        ),
{
    proof {
        assert(output@ + Seq::empty() =~= output@);
    }
    let (count, mut sources) = prepare_dispatch(
        inputs,
        variable_inputs,
        header,
        format_version,
        limits,
        false,
    )?;
    let ghost views = stream_views(inputs@).skip(1);
    if inputs[0].element_width == 2 && sources.len() == CSV_FIELDS + 1 {
        if append_dispatched_string_2byte_csv_pattern_fast(
            &inputs[0],
            count,
            CSV_FIELDS,
            &mut sources,
            output,
            Ghost(views),
        ) {
            return Ok(());
        }
    } else if inputs[0].element_width == 2 && sources.len() >= CSV_FIELDS + 2 {
        let fields: usize = sources.len() - 2;
        if append_dispatched_string_2byte_csv_wide_header_pattern_fast(
            &inputs[0],
            count,
            fields,
            &mut sources,
            output,
            Ghost(views),
        ) {
            return Ok(());
        }
    }
    let mut lengths: Vec<u32> = Vec::new();
    append_dispatched_strings(
        &inputs[0],
        count,
        &mut sources,
        output,
        &mut lengths,
        Ghost(views),
    )?;
    let ghost state = dispatch_from(
        inputs[0]@,
        count as nat,
        views,
        0,
        dispatch_start(views.len()),
    )->Ok_0;
    check_sources_consumed(&sources, Ghost(views), Ghost(state))
}

/// Adds up the sizes of the sources from `index` on.
pub open spec fn segment_source_total(sources: Seq<StreamView>, index: nat, total: nat) -> Result<
    nat,
    ErrorView,
>
    decreases sources.len() - index,
{
    if index >= sources.len() {
        Ok(total)
    } else if sources[index as int].element_width == 0 {
        Err(detailed(ErrorKind::InvalidType, "dispatchN_byTag source width is zero"@))
    } else if total + sources[index as int].bytes.len() > usize::MAX {
        Err(plain(ErrorKind::IntegerOverflow))
    } else {
        segment_source_total(sources, index + 1, total + sources[index as int].bytes.len())
    }
}

/// The tag and the size of a segment.
pub open spec fn segment_at(tags: StreamView, sizes: StreamView, index: int) -> Result<
    (usize, usize),
    ErrorView,
> {
    match usize_element(tags.bytes, tags.element_width, index) {
        Err(error) => Err(error),
        Ok(tag) => match usize_element(sizes.bytes, sizes.element_width, index) {
            Err(error) => Err(error),
            Ok(size) => Ok((tag, size)),
        },
    }
}

/// Adds up the segment sizes of each tag, from `index` on.
pub open spec fn tag_totals(
    tags: StreamView,
    sizes: StreamView,
    count: nat,
    index: nat,
    totals: Seq<nat>,
) -> Result<Seq<nat>, ErrorView>
    decreases count - index,
{
    if index >= count {
        Ok(totals)
    } else {
        match segment_at(tags, sizes, index as int) {
            Err(error) => Err(error),
            Ok((tag, size)) => if tag >= totals.len() {
                Err(detailed(ErrorKind::Malformed, "dispatchN_byTag tag is out of range"@))
            } else if totals[tag as int] + size > usize::MAX {
                Err(plain(ErrorKind::IntegerOverflow))
            } else {
                tag_totals(
                    tags,
                    sizes,
                    count,
                    index + 1,
                    totals.update(tag as int, totals[tag as int] + size as nat),
                )
            },
        }
    }
}

/// Appends the segments from `index` on, each from where its source has come to.
pub open spec fn segments_from(
    tags: StreamView,
    sizes: StreamView,
    sources: Seq<StreamView>,
    count: nat,
    total: nat,
    index: nat,
    positions: Seq<nat>,
    output: Seq<u8>,
) -> Result<Seq<u8>, ErrorView>
    decreases count - index,
{
    if index >= count {
        if output.len() != total {
            Err(detailed(ErrorKind::Malformed, "dispatchN_byTag output size mismatch"@))
        } else {
            Ok(output)
        }
    } else {
        match segment_at(tags, sizes, index as int) {
            Err(error) => Err(error),
            Ok((tag, size)) => if tag >= sources.len() {
                Err(detailed(ErrorKind::Malformed, "dispatchN_byTag tag is out of range"@))
            } else {
                let start = positions[tag as int];
                let end = start + size as nat;
                if end > usize::MAX {
                    Err(plain(ErrorKind::IntegerOverflow))
                } else if end > sources[tag as int].bytes.len() {
                    Err(
                        detailed(
                            ErrorKind::Malformed,
                            "dispatchN_byTag source stream is truncated"@,
                        ),
                    )
                } else if output.len() + size > total {
                    Err(detailed(ErrorKind::Malformed, "dispatchN_byTag output size mismatch"@))
                } else {
                    segments_from(
                        tags,
                        sizes,
                        sources,
                        count,
                        total,
                        index + 1,
                        positions.update(tag as int, end),
                        output + sources[tag as int].bytes.subrange(start as int, end as int),
                    )
                }
            },
        }
    }
}

/// The segment count of a dispatchN_byTag node, or why it is refused.
pub open spec fn segment_shape(
    inputs: Seq<StreamView>,
    variable_inputs: u32,
    header: Seq<u8>,
    format_version: u32,
) -> Result<usize, ErrorView> {
    if header.len() != 0 {
        Err(detailed(ErrorKind::Malformed, "dispatchN_byTag header must be empty"@))
    } else if variable_inputs + 2 > usize::MAX {
        Err(plain(ErrorKind::IntegerOverflow))
    } else if inputs.len() != variable_inputs + 2 {
        Err(
            detailed(
                ErrorKind::InvalidGraph,
                "dispatchN_byTag input count does not match node shape"@,
            ),
        )
    } else {
        let tags = inputs[0];
        let sizes = inputs[1];
        if tags.element_width > (if format_version < 20 {
            1nat
        } else {
            2nat
        }) {
            Err(detailed(ErrorKind::Unsupported, "dispatchN_byTag tag width is unsupported"@))
        } else if numeric_width_error(
            tags.element_width as int,
            "dispatchN_byTag tags"@,
        ) is Some {
            Err(numeric_width_error(tags.element_width as int, "dispatchN_byTag tags"@)->0)
        } else if numeric_width_error(
            sizes.element_width as int,
            "dispatchN_byTag segment sizes"@,
        ) is Some {
            Err(
                numeric_width_error(
                    sizes.element_width as int,
                    "dispatchN_byTag segment sizes"@,
                )->0,
            )
        } else {
            match element_count(sizes.bytes.len(), sizes.element_width) {
                Err(error) => Err(error),
                Ok(count) => match element_count(tags.bytes.len(), tags.element_width) {
                    Err(error) => Err(error),
                    Ok(tag_count) => if tag_count != count {
                        Err(
                            detailed(
                                ErrorKind::Malformed,
                                "dispatchN_byTag tag count does not match segment count"@,
                            ),
                        )
                    } else if count != 0 && inputs.len() == 2 {
                        Err(
                            detailed(
                                ErrorKind::Malformed,
                                "dispatchN_byTag segments require source streams"@,
                            ),
                        )
                    } else if inputs.len() - 2 >= (if format_version < 20 {
                        256int
                    } else {
                        65_536int
                    }) {
                        Err(
                            detailed(
                                ErrorKind::Unsupported,
                                "dispatchN_byTag source count is unsupported"@,
                            ),
                        )
                    } else {
                        Ok(count)
                    },
                },
            }
        }
    }
}

/// What a dispatchN_byTag node produces.
pub open spec fn dispatch_n_by_tag_node(
    inputs: Seq<StreamView>,
    variable_inputs: u32,
    header: Seq<u8>,
    format_version: u32,
    limits: Limits,
) -> Result<Seq<u8>, ErrorView> {
    match segment_shape(inputs, variable_inputs, header, format_version) {
        Err(error) => Err(error),
        Ok(count) => {
            let sources = inputs.skip(2);
            let zeros = Seq::new(sources.len(), |i: int| 0nat);
            match segment_source_total(sources, 0, 0) {
                Err(error) => Err(error),
                Ok(total) => if !limits.admits(total as int) {
                    Err(output_limit_error())
                } else {
                    match tag_totals(inputs[0], inputs[1], count as nat, 0, zeros) {
                        Err(error) => Err(error),
                        Ok(totals) => if totals != Seq::new(
                            sources.len(),
                            |i: int| sources[i].bytes.len(),
                        ) {
                            Err(
                                detailed(
                                    ErrorKind::Malformed,
                                    "dispatchN_byTag segment sizes do not consume source stream"@,
                                ),
                            )
                        } else {
                            segments_from(
                                inputs[0],
                                inputs[1],
                                sources,
                                count as nat,
                                total,
                                0,
                                zeros,
                                Seq::empty(),
                            )
                        },
                    }
                },
            }
        },
    }
}

/// A dispatchN_byTag node that decodes gives as many bytes as its sources hold.
pub proof fn law_dispatch_n_by_tag_keeps_every_byte(
    inputs: Seq<StreamView>,
    variable_inputs: u32,
    header: Seq<u8>,
    format_version: u32,
    limits: Limits,
)
    requires
        dispatch_n_by_tag_node(inputs, variable_inputs, header, format_version, limits) is Ok,
    ensures
        dispatch_n_by_tag_node(
            inputs,
            variable_inputs,
            header,
            format_version,
            limits,
        )->Ok_0.len() == total_bytes(inputs.skip(2)),
{
    let sources = inputs.skip(2);
    let count = segment_shape(inputs, variable_inputs, header, format_version)->Ok_0;
    let total = segment_source_total(sources, 0, 0)->Ok_0;
    let zeros = Seq::new(sources.len(), |i: int| 0nat);
    lemma_source_total(sources, 0, 0);
    assert(Seq::new(sources.len(), |i: int| sources[i].bytes.len()).take(0) =~= Seq::empty());
    lemma_segments_len(
        inputs[0],
        inputs[1],
        sources,
        count as nat,
        total,
        0,
        zeros,
        Seq::empty(),
    );
}

proof fn lemma_source_total(sources: Seq<StreamView>, index: nat, total: nat)
    requires
        index <= sources.len(),
        total == sum_nats(
            Seq::new(sources.len(), |i: int| sources[i].bytes.len()).take(index as int),
        ),
        segment_source_total(sources, index, total) is Ok,
    ensures
        segment_source_total(sources, index, total)->Ok_0 == total_bytes(sources),
    decreases sources.len() - index,
{
    let sizes = Seq::new(sources.len(), |i: int| sources[i].bytes.len());
    if index < sources.len() {
        assert(sizes.take(index as int + 1).drop_last() =~= sizes.take(index as int));
        lemma_source_total(sources, index + 1, total + sources[index as int].bytes.len());
    } else {
        assert(sizes.take(index as int) =~= sizes);
    }
}

proof fn lemma_segments_len(
    tags: StreamView,
    sizes: StreamView,
    sources: Seq<StreamView>,
    count: nat,
    total: nat,
    index: nat,
    positions: Seq<nat>,
    output: Seq<u8>,
)
    requires
        segments_from(tags, sizes, sources, count, total, index, positions, output) is Ok,
    ensures
        segments_from(
            tags,
            sizes,
            sources,
            count,
            total,
            index,
            positions,
            output,
        )->Ok_0.len() == total,
    decreases count - index,
{
    if index < count {
        let (tag, size) = segment_at(tags, sizes, index as int)->Ok_0;
        let start = positions[tag as int];
        let end = start + size as nat;
        lemma_segments_len(
            tags,
            sizes,
            sources,
            count,
            total,
            index + 1,
            positions.update(tag as int, end),
            output + sources[tag as int].bytes.subrange(start as int, end as int),
        );
    }
}

/// The values of a list of sizes.
pub open spec fn sizes_view(sizes: Seq<usize>) -> Seq<nat> {
    Seq::new(sizes.len(), |i: int| sizes[i] as nat)
}

/// A list of `count` zeros.
fn zero_sizes(count: usize) -> (sizes: Vec<usize>)
    ensures
        sizes_view(sizes@) == Seq::new(count as nat, |i: int| 0nat),
        sizes.len() == count,
{
    let mut sizes: Vec<usize> = Vec::new();
    let mut index: usize = 0;
    while index < count
        invariant
            index <= count,
            sizes.len() == index,
            forall|i: int| 0 <= i < index ==> sizes[i] == 0,
        decreases count - index,
    {
        sizes.push(0);
        index = index + 1;
    }
    proof {
        assert(sizes_view(sizes@) =~= Seq::new(count as nat, |i: int| 0nat));
    }
    sizes
}

fn validate_segments(
    inputs: &[StreamInput<'_>],
    variable_inputs: u32,
    header: &[u8],
    format_version: u32,
) -> (result: Result<usize, Error>)
    ensures
        match result {
            Ok(count) => segment_shape(
                stream_views(inputs@),
                variable_inputs,
                header@,
                format_version,
            ) == Ok::<usize, ErrorView>(count) && inputs.len() >= 2,
            Err(error) => segment_shape(
                stream_views(inputs@),
                variable_inputs,
                header@,
                format_version,
            ) == Err::<usize, ErrorView>(error@),
        },
{
    if header.len() != 0 {
        return Err(fail(ErrorKind::Malformed, "dispatchN_byTag header must be empty"));
    }
    let source_count: usize = variable_inputs as usize;
    if source_count > usize::MAX - 2 {
        return Err(Error::new(ErrorKind::IntegerOverflow));
    }
    if inputs.len() != source_count + 2 {
        return Err(
            fail(
                ErrorKind::InvalidGraph,
                "dispatchN_byTag input count does not match node shape",
            ),
        );
    }
    let tags = inputs[0];
    let segment_sizes = inputs[1];
    let expected_tag_width: usize = if format_version < 20 {
        1
    } else {
        2
    };
    if tags.element_width > expected_tag_width {
        return Err(fail(ErrorKind::Unsupported, "dispatchN_byTag tag width is unsupported"));
    }
    validate_numeric_stream_width(tags.element_width, "dispatchN_byTag tags")?;
    validate_numeric_stream_width(segment_sizes.element_width, "dispatchN_byTag segment sizes")?;
    let segment_count: usize = numeric_element_count(
        segment_sizes.bytes,
        segment_sizes.element_width,
    )?;
    let tag_count: usize = numeric_element_count(tags.bytes, tags.element_width)?;
    if tag_count != segment_count {
        return Err(
            fail(
                ErrorKind::Malformed,
                "dispatchN_byTag tag count does not match segment count",
            ),
        );
    }
    if segment_count != 0 && inputs.len() == 2 {
        return Err(
            fail(ErrorKind::Malformed, "dispatchN_byTag segments require source streams"),
        );
    }
    let source_limit: usize = if format_version < 20 {
        256
    } else {
        65_536
    };
    if inputs.len() - 2 >= source_limit {
        return Err(fail(ErrorKind::Unsupported, "dispatchN_byTag source count is unsupported"));
    }
    Ok(segment_count)
}

/// Adds up the segment sizes of each source.
fn segment_totals(
    tags: &StreamInput<'_>,
    segment_sizes: &StreamInput<'_>,
    segment_count: usize,
    source_count: usize,
) -> (result: Result<Vec<usize>, Error>)
    ensures
        match result {
            Ok(totals) => tag_totals(
                tags@,
                segment_sizes@,
                segment_count as nat,
                0,
                Seq::new(source_count as nat, |i: int| 0nat),
            ) == Ok::<Seq<nat>, ErrorView>(sizes_view(totals@)) && totals.len() == source_count,
            Err(error) => tag_totals(
                tags@,
                segment_sizes@,
                segment_count as nat,
                0,
                Seq::new(source_count as nat, |i: int| 0nat),
            ) == Err::<Seq<nat>, ErrorView>(error@),
        },
{
    let mut totals = zero_sizes(source_count);
    let ghost expected = tag_totals(
        tags@,
        segment_sizes@,
        segment_count as nat,
        0,
        Seq::new(source_count as nat, |i: int| 0nat),
    );
    let mut segment: usize = 0;
    while segment < segment_count
        invariant
            segment <= segment_count,
            totals.len() == source_count,
            expected == tag_totals(
                tags@,
                segment_sizes@,
                segment_count as nat,
                0,
                Seq::new(source_count as nat, |i: int| 0nat),
            ),
            expected == tag_totals(
                tags@,
                segment_sizes@,
                segment_count as nat,
                segment as nat,
                sizes_view(totals@),
            ),
        decreases segment_count - segment,
    {
        let tag: usize = read_usize_numeric_element(tags.bytes, tags.element_width, segment)?;
        let size: usize = read_usize_numeric_element(
            segment_sizes.bytes,
            segment_sizes.element_width,
            segment,
        )?;
        if tag >= totals.len() {
            return Err(fail(ErrorKind::Malformed, "dispatchN_byTag tag is out of range"));
        }
        let total: usize = match totals[tag].checked_add(size) {
            Some(total) => total,
            None => {
                return Err(Error::new(ErrorKind::IntegerOverflow));
            },
        };
        let ghost before = totals@;
        totals.set(tag, total);
        proof {
            assert(sizes_view(totals@) =~= sizes_view(before).update(tag as int, total as nat));
        }
        segment = segment + 1;
    }
    Ok(totals)
}

/// Puts the segments back in their order.
fn decode_dispatch_n_by_tag_to_output(
    tags: &StreamInput<'_>,
    segment_sizes: &StreamInput<'_>,
    segment_inputs: &[StreamInput<'_>],
    segment_count: usize,
    total_output: usize,
) -> (result: Result<Vec<u8>, Error>)
    ensures
        outcome(result) == segments_from(
            tags@,
            segment_sizes@,
            stream_views(segment_inputs@),
            segment_count as nat,
            total_output as nat,
            0,
            Seq::new(segment_inputs@.len(), |i: int| 0nat),
            Seq::empty(),
        ),
{
    let mut output: Vec<u8> = Vec::new();
    let mut positions = zero_sizes(segment_inputs.len());
    let ghost expected = segments_from(
        tags@,
        segment_sizes@,
        stream_views(segment_inputs@),
        segment_count as nat,
        total_output as nat,
        0,
        Seq::new(segment_inputs@.len(), |i: int| 0nat),
        Seq::empty(),
    );
    let mut segment: usize = 0;
    while segment < segment_count
        invariant
            segment <= segment_count,
            positions.len() == segment_inputs.len(),
            output.len() <= total_output,
            expected == segments_from(
                tags@,
                segment_sizes@,
                stream_views(segment_inputs@),
                segment_count as nat,
                total_output as nat,
                0,
                Seq::new(segment_inputs@.len(), |i: int| 0nat),
                Seq::empty(),
            ),
            expected == segments_from(
                tags@,
                segment_sizes@,
                stream_views(segment_inputs@),
                segment_count as nat,
                total_output as nat,
                segment as nat,
                sizes_view(positions@),
                output@,
            ),
        decreases segment_count - segment,
    {
        let tag: usize = read_usize_numeric_element(tags.bytes, tags.element_width, segment)?;
        let size: usize = read_usize_numeric_element(
            segment_sizes.bytes,
            segment_sizes.element_width,
            segment,
        )?;
        if tag >= segment_inputs.len() {
            return Err(fail(ErrorKind::Malformed, "dispatchN_byTag tag is out of range"));
        }
        let start: usize = positions[tag];
        let end: usize = match start.checked_add(size) {
            Some(end) => end,
            None => {
                return Err(Error::new(ErrorKind::IntegerOverflow));
            },
        };
        let source = segment_inputs[tag].bytes;
        if end > source.len() {
            return Err(fail(ErrorKind::Malformed, "dispatchN_byTag source stream is truncated"));
        }
        if size > total_output - output.len() {
            return Err(fail(ErrorKind::Malformed, "dispatchN_byTag output size mismatch"));
        }
        let part = slice_subrange(source, start, end);
        append_bytes(&mut output, part);
        let ghost before = positions@;
        positions.set(tag, end);
        proof {
            assert(sizes_view(positions@) =~= sizes_view(before).update(tag as int, end as nat));
        }
        segment = segment + 1;
    }
    if output.len() != total_output {
        return Err(fail(ErrorKind::Malformed, "dispatchN_byTag output size mismatch"));
    }
    Ok(output)
}

/// Decodes a dispatchN_byTag node.
pub fn decode_dispatch_n_by_tag_node(
    inputs: &[StreamInput<'_>],
    variable_inputs: u32,
    header: &[u8],
    format_version: u32,
    limits: Limits,
) -> (result: Result<Vec<u8>, Error>)
    ensures
        outcome(result) == dispatch_n_by_tag_node(
            stream_views(inputs@),
            variable_inputs,
            header@,
            format_version,
            limits,
        ),
{
    let segment_count: usize = validate_segments(inputs, variable_inputs, header, format_version)?;
    let segment_inputs = slice_subrange(inputs, 2, inputs.len());
    let ghost sources = stream_views(inputs@).skip(2);
    proof {
        assert(stream_views(segment_inputs@) =~= sources);
    }
    let mut total_output: usize = 0;
    let mut index: usize = 0;
    while index < segment_inputs.len()
        invariant
            index <= segment_inputs.len(),
            sources == stream_views(segment_inputs@),
            sources == stream_views(inputs@).skip(2),
            segment_shape(stream_views(inputs@), variable_inputs, header@, format_version) == Ok::<
                usize,
                ErrorView,
            >(segment_count),
            segment_source_total(sources, 0, 0) == segment_source_total(
                sources,
                index as nat,
                total_output as nat,
            ),
        decreases segment_inputs.len() - index,
    {
        if segment_inputs[index].element_width == 0 {
            return Err(fail(ErrorKind::InvalidType, "dispatchN_byTag source width is zero"));
        }
        total_output = match total_output.checked_add(segment_inputs[index].bytes.len()) {
            Some(total) => total,
            None => {
                return Err(Error::new(ErrorKind::IntegerOverflow));
            },
        };
        index = index + 1;
    }
    check_output_limit(total_output, limits)?;
    let totals = segment_totals(&inputs[0], &inputs[1], segment_count, segment_inputs.len())?;
    let ghost sizes = Seq::new(sources.len(), |i: int| sources[i].bytes.len());
    let mut index: usize = 0;
    while index < segment_inputs.len()
        invariant
            index <= segment_inputs.len(),
            totals.len() == segment_inputs.len(),
            sources == stream_views(segment_inputs@),
            sources == stream_views(inputs@).skip(2),
            sizes == Seq::new(sources.len(), |i: int| sources[i].bytes.len()),
            forall|i: int| 0 <= i < index ==> totals[i] == sizes[i],
            segment_shape(stream_views(inputs@), variable_inputs, header@, format_version) == Ok::<
                usize,
                ErrorView,
            >(segment_count),
            segment_source_total(sources, 0, 0) == Ok::<nat, ErrorView>(total_output as nat),
            limits.admits(total_output as int),
            tag_totals(
                stream_views(inputs@)[0],
                stream_views(inputs@)[1],
                segment_count as nat,
                0,
                Seq::new(sources.len(), |i: int| 0nat),
            ) == Ok::<Seq<nat>, ErrorView>(sizes_view(totals@)),
        decreases segment_inputs.len() - index,
    {
        if totals[index] != segment_inputs[index].bytes.len() {
            proof {
                assert(sizes_view(totals@)[index as int] != sizes[index as int]);
            }
            return Err(
                fail(
                    ErrorKind::Malformed,
                    "dispatchN_byTag segment sizes do not consume source stream",
                ),
            );
        }
        index = index + 1;
    }
    proof {
        assert(sizes_view(totals@) =~= sizes);
    }
    decode_dispatch_n_by_tag_to_output(
        &inputs[0],
        &inputs[1],
        segment_inputs,
        segment_count,
        total_output,
    )
}

} // verus!
