//! Integers between runs of one dominant value.

use vstd::prelude::*;

use crate::bytes::{le_value, read_le};
use crate::error::{detailed, fail, outcome, plain, Error, ErrorKind, ErrorView};
use crate::limits::{check_output_limit, output_limit_error, Limits};
use crate::stream::{
    element, element_count, lemma_element_bound, lemma_element_inside, lemma_packed_len,
    numeric_element_count, numeric_width, packed, push_element, stream_views, typed_stream,
    OwnedStream, StreamInput, StreamView,
};

verus! {

/// `count` copies of a value.
pub open spec fn run(value: u64, count: nat) -> Seq<u64> {
    Seq::new(count, |i: int| value)
}

/// Adds the first `count` distances to `base`.
pub open spec fn distance_sum(distances: StreamView, base: nat, count: nat) -> nat
    decreases count,
{
    if count == 0 {
        base
    } else {
        distance_sum(distances, base, (count - 1) as nat) + element(
            distances.bytes,
            distances.element_width,
            count - 1,
        )
    }
}

/// The first `count` values, each behind its run of the dominant one.
pub open spec fn sparse_values(
    distances: StreamView,
    values: StreamView,
    dominant: u64,
    count: nat,
) -> Seq<u64>
    decreases count,
{
    if count == 0 {
        Seq::empty()
    } else {
        (sparse_values(distances, values, dominant, (count - 1) as nat) + run(
            dominant,
            element(distances.bytes, distances.element_width, count - 1),
        )).push(element(values.bytes, values.element_width, count - 1) as u64)
    }
}

/// All values: those behind their runs, and a last run where there is one.
pub open spec fn sparse_output(distances: StreamView, values: StreamView, dominant: u64) -> Seq<
    u64,
> {
    let count = values.bytes.len() / values.element_width;
    let runs = distances.bytes.len() / distances.element_width;
    let body = sparse_values(distances, values, dominant, count);
    if runs == count + 1 {
        body + run(
            dominant,
            element(distances.bytes, distances.element_width, count as int),
        )
    } else {
        body
    }
}

/// What a sparse_num node produces.
pub open spec fn sparse_num_node(inputs: Seq<StreamView>, header: Seq<u8>, limits: Limits) -> Result<
    StreamView,
    ErrorView,
> {
    if inputs.len() != 2 {
        Err(detailed(ErrorKind::InvalidGraph, "sparse_num input count does not match node shape"@))
    } else {
        let distances = inputs[0];
        let values = inputs[1];
        let width = values.element_width;
        if !(distances.element_width == 1 || distances.element_width == 2
            || distances.element_width == 4) {
            Err(detailed(ErrorKind::InvalidType, "sparse_num distance width is unsupported"@))
        } else if !numeric_width(width as int) {
            Err(detailed(ErrorKind::InvalidType, "sparse_num value width is unsupported"@))
        } else if header.len() > width {
            Err(detailed(ErrorKind::Malformed, "sparse_num header exceeds value width"@))
        } else if let Err(error) = element_count(distances.bytes.len(), distances.element_width) {
            Err(error)
        } else if let Err(error) = element_count(values.bytes.len(), width) {
            Err(error)
        } else {
            let runs = distances.bytes.len() / distances.element_width;
            let count = values.bytes.len() / width;
            let elements = distance_sum(distances, count, runs);
            if runs != count && runs != count + 1 {
                Err(
                    detailed(
                        ErrorKind::Malformed,
                        "sparse_num distance count does not match literal count"@,
                    ),
                )
            } else if elements * width > usize::MAX {
                Err(plain(ErrorKind::IntegerOverflow))
            } else if !limits.admits((elements * width) as int) {
                Err(output_limit_error())
            } else {
                Ok(
                    typed_stream(
                        packed(
                            sparse_output(distances, values, le_value(header) as u64),
                            width,
                        ),
                        width,
                    ),
                )
            }
        }
    }
}

proof fn lemma_distance_sum_monotone(distances: StreamView, base: nat, small: nat, large: nat)
    requires
        small <= large,
    ensures
        base <= distance_sum(distances, base, small) <= distance_sum(distances, base, large),
    decreases large,
{
    if small < large {
        lemma_distance_sum_monotone(distances, base, small, (large - 1) as nat);
    } else if small > 0 {
        lemma_distance_sum_monotone(distances, base, (small - 1) as nat, (small - 1) as nat);
    }
}

proof fn lemma_sparse_len(distances: StreamView, values: StreamView, dominant: u64, count: nat)
    ensures
        sparse_values(distances, values, dominant, count).len() == distance_sum(
            distances,
            0,
            count,
        ) + count,
    decreases count,
{
    if count > 0 {
        lemma_sparse_len(distances, values, dominant, (count - 1) as nat);
    }
}

proof fn lemma_distance_base(distances: StreamView, base: nat, count: nat)
    ensures
        distance_sum(distances, base, count) == base + distance_sum(distances, 0, count),
    decreases count,
{
    if count > 0 {
        lemma_distance_base(distances, base, (count - 1) as nat);
    }
}

/// A sparse_num node produces as many integers as it has values and dominant ones.
pub proof fn law_sparse_num_counts(inputs: Seq<StreamView>, header: Seq<u8>, limits: Limits)
    requires
        sparse_num_node(inputs, header, limits) is Ok,
    ensures
        ({
            let output = sparse_num_node(inputs, header, limits)->Ok_0;
            let count = inputs[1].bytes.len() / inputs[1].element_width;
            let runs = inputs[0].bytes.len() / inputs[0].element_width;
            output.bytes.len() == (count + distance_sum(inputs[0], 0, runs))
                * inputs[1].element_width
        }),
{
    let dominant = le_value(header) as u64;
    let count = inputs[1].bytes.len() / inputs[1].element_width;
    lemma_sparse_len(inputs[0], inputs[1], dominant, count);
    lemma_packed_len(
        sparse_output(inputs[0], inputs[1], dominant),
        inputs[1].element_width,
    );
}

/// Appends copies of the dominant value.
fn append_run(
    output: &mut Vec<u8>,
    dominant: u64,
    distance: usize,
    width: usize,
    Ghost(values): Ghost<Seq<u64>>,
)
    requires
        old(output)@ == packed(values, width as nat),
    ensures
        final(output)@ == packed(values + run(dominant, distance as nat), width as nat),
{
    let mut index: usize = 0;
    proof {
        assert(values + run(dominant, 0) =~= values);
    }
    while index < distance
        invariant
            index <= distance,
            output@ == packed(values + run(dominant, index as nat), width as nat),
        decreases distance - index,
    {
        push_element(output, dominant, width, Ghost(values + run(dominant, index as nat)));
        proof {
            assert((values + run(dominant, index as nat)).push(dominant) =~= values + run(
                dominant,
                (index + 1) as nat,
            ));
        }
        index = index + 1;
    }
}

/// Counts the integers of the output.
fn count_elements(distances: &StreamInput<'_>, runs: usize, count: usize) -> (result: Result<
    usize,
    Error,
>)
    requires
        1 <= distances.element_width <= 4,
        numeric_width(distances.element_width as int),
        distances.bytes@.len() == runs * distances.element_width,
    ensures
        match result {
            Ok(elements) => elements == distance_sum(distances@, count as nat, runs as nat),
            Err(error) => distance_sum(distances@, count as nat, runs as nat) > usize::MAX
                && error@ == plain(ErrorKind::IntegerOverflow),
        },
{
    let mut elements: usize = count;
    let mut index: usize = 0;
    while index < runs
        invariant
            index <= runs,
            1 <= distances.element_width <= 4,
            numeric_width(distances.element_width as int),
            distances.bytes@.len() == runs * distances.element_width,
            elements == distance_sum(distances@, count as nat, index as nat),
        decreases runs - index,
    {
        let distance: usize = read_distance(distances, runs, index);
        proof {
            lemma_distance_sum_monotone(
                distances@,
                count as nat,
                (index + 1) as nat,
                runs as nat,
            );
        }
        elements = match elements.checked_add(distance) {
            Some(elements) => elements,
            None => {
                return Err(Error::new(ErrorKind::IntegerOverflow));
            },
        };
        index = index + 1;
    }
    Ok(elements)
}

/// Reads the length of a run.
fn read_distance(distances: &StreamInput<'_>, runs: usize, index: usize) -> (distance: usize)
    requires
        1 <= distances.element_width <= 4,
        numeric_width(distances.element_width as int),
        distances.bytes@.len() == runs * distances.element_width,
        index < runs,
    ensures
        distance as nat == element(
            distances.bytes@,
            distances.element_width as nat,
            index as int,
        ),
{
    proof {
        lemma_element_inside(index as nat, runs as nat, distances.element_width as nat);
        lemma_element_bound(distances.bytes@, distances.element_width as nat, index as int);
        assert(distances.bytes@.len() == distances.bytes.len());
    }
    read_le(distances.bytes, index * distances.element_width, distances.element_width) as usize
}

/// Decodes a sparse_num node.
#[verifier::spinoff_prover]
#[verifier::rlimit(40)]
pub fn decode_sparse_num_node(
    inputs: &[StreamInput<'_>],
    header: &[u8],
    limits: Limits,
) -> (result: Result<OwnedStream, Error>)
    ensures
        outcome(result) == sparse_num_node(stream_views(inputs@), header@, limits),
        result is Ok ==> !result->Ok_0.recyclable,
{
    if inputs.len() != 2 {
        return Err(
            fail(ErrorKind::InvalidGraph, "sparse_num input count does not match node shape"),
        );
    }
    let distances = inputs[0];
    let values = inputs[1];
    let width: usize = values.element_width;
    if !(distances.element_width == 1 || distances.element_width == 2 || distances.element_width
        == 4) {
        return Err(fail(ErrorKind::InvalidType, "sparse_num distance width is unsupported"));
    }
    if !(width == 1 || width == 2 || width == 4 || width == 8) {
        return Err(fail(ErrorKind::InvalidType, "sparse_num value width is unsupported"));
    }
    if header.len() > width {
        return Err(fail(ErrorKind::Malformed, "sparse_num header exceeds value width"));
    }
    let runs: usize = numeric_element_count(distances.bytes, distances.element_width)?;
    let count: usize = numeric_element_count(values.bytes, width)?;
    if runs != count && (runs == 0 || runs - 1 != count) {
        return Err(
            fail(
                ErrorKind::Malformed,
                "sparse_num distance count does not match literal count",
            ),
        );
    }
    let dominant: u64 = read_le(header, 0, header.len());
    let ghost views = stream_views(inputs@);
    proof {
        assert(header@.subrange(0, header@.len() as int) =~= header@);
        assert(distance_sum(distances@, count as nat, runs as nat) * width >= distance_sum(
            distances@,
            count as nat,
            runs as nat,
        )) by (nonlinear_arith)
            requires
                width >= 1,
        ;
    }
    let elements: usize = count_elements(&distances, runs, count)?;
    let output_len: usize = match elements.checked_mul(width) {
        Some(output_len) => output_len,
        None => {
            return Err(Error::new(ErrorKind::IntegerOverflow));
        },
    };
    check_output_limit(output_len, limits)?;
    let mut output: Vec<u8> = Vec::new();
    let mut index: usize = 0;
    while index < count
        invariant
            index <= count <= runs,
            distances@ == views[0],
            values@ == views[1],
            width == values.element_width,
            numeric_width(width as int),
            1 <= distances.element_width <= 4,
            numeric_width(distances.element_width as int),
            distances.bytes@.len() == runs * distances.element_width,
            values.bytes@.len() == count * width,
            output@ == packed(
                sparse_values(distances@, values@, dominant, index as nat),
                width as nat,
            ),
        decreases count - index,
    {
        let ghost body = sparse_values(distances@, values@, dominant, index as nat);
        let distance: usize = read_distance(&distances, runs, index);
        append_run(&mut output, dominant, distance, width, Ghost(body));
        proof {
            lemma_element_inside(index as nat, count as nat, width as nat);
            assert(values.bytes@.len() == values.bytes.len());
        }
        let value: u64 = read_le(values.bytes, index * width, width);
        push_element(
            &mut output,
            value,
            width,
            Ghost(body + run(dominant, distance as nat)),
        );
        index = index + 1;
    }
    if runs != count {
        let distance: usize = read_distance(&distances, runs, count);
        append_run(
            &mut output,
            dominant,
            distance,
            width,
            Ghost(sparse_values(distances@, values@, dominant, count as nat)),
        );
    }
    Ok(OwnedStream::typed(output, width))
}

} // verus!
