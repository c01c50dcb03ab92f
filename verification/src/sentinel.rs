//! Narrow values with a sentinel for those that stand in a wider stream.

use vstd::prelude::*;

use crate::bytes::{read_var_u64, var_u64};
use crate::error::{detailed, fail, outcome, plain, plain_outcome, Error, ErrorKind, ErrorView};
use crate::limits::{check_output_limit, output_limit_error, Limits};
use crate::stream::{
    element, element_count, lemma_element_inside, max_numeric, max_numeric_value,
    numeric_element_count, numeric_width_error, packed, push_element, read_numeric_element,
    stream_views, typed_stream, validate_numeric_stream_width, OwnedStream, StreamInput, StreamView,
};

verus! {

/// The value that stands for "look among the exceptions".
pub open spec fn sentinel_value(header: Seq<u8>, max_value: u64) -> Result<u64, ErrorView> {
    if header.len() == 0 {
        Ok(max_value)
    } else {
        match var_u64(header, 0) {
            Err(error) => Err(error),
            Ok((value, end)) => if end != header.len() {
                Err(detailed(ErrorKind::Malformed, "sentinel header has trailing bytes"@))
            } else if value > max_value {
                Err(detailed(ErrorKind::Malformed, "sentinel value exceeds values width"@))
            } else {
                Ok(value)
            },
        }
    }
}

/// Resolves the values from `index` on, where `used` exceptions were taken.
pub open spec fn sentinel_from(
    values: StreamView,
    exceptions: StreamView,
    sentinel: u64,
    index: nat,
    used: nat,
    resolved: Seq<u64>,
) -> Result<Seq<u64>, ErrorView>
    decreases values.bytes.len() / values.element_width - index,
{
    let count = values.bytes.len() / values.element_width;
    let exception_count = exceptions.bytes.len() / exceptions.element_width;
    if index >= count {
        if used != exception_count {
            Err(
                detailed(
                    ErrorKind::Malformed,
                    "sentinel exception stream was not fully consumed"@,
                ),
            )
        } else {
            Ok(resolved)
        }
    } else {
        let value = element(values.bytes, values.element_width, index as int);
        if value != sentinel {
            sentinel_from(
                values,
                exceptions,
                sentinel,
                index + 1,
                used,
                resolved.push(value as u64),
            )
        } else if used >= exception_count {
            Err(detailed(ErrorKind::Malformed, "sentinel exception stream is exhausted"@))
        } else {
            sentinel_from(
                values,
                exceptions,
                sentinel,
                index + 1,
                used + 1,
                resolved.push(
                    element(exceptions.bytes, exceptions.element_width, used as int) as u64,
                ),
            )
        }
    }
}

/// What a sentinel node produces.
pub open spec fn sentinel_node(inputs: Seq<StreamView>, header: Seq<u8>, limits: Limits) -> Result<
    StreamView,
    ErrorView,
> {
    if inputs.len() != 2 {
        Err(detailed(ErrorKind::InvalidGraph, "sentinel input count does not match node shape"@))
    } else {
        let values = inputs[0];
        let exceptions = inputs[1];
        let width = exceptions.element_width;
        if let Some(error) = numeric_width_error(values.element_width as int, "sentinel values"@) {
            Err(error)
        } else if let Some(error) = numeric_width_error(width as int, "sentinel exceptions"@) {
            Err(error)
        } else if values.element_width > width {
            Err(detailed(ErrorKind::Malformed, "sentinel values width exceeds output width"@))
        } else {
            match sentinel_value(header, max_numeric(values.element_width as int)) {
                Err(error) => Err(error),
                Ok(sentinel) => match element_count(values.bytes.len(), values.element_width) {
                    Err(error) => Err(error),
                    Ok(count) => match element_count(exceptions.bytes.len(), width) {
                        Err(error) => Err(error),
                        Ok(_) => if count * width > usize::MAX {
                            Err(plain(ErrorKind::IntegerOverflow))
                        } else if !limits.admits(count * width) {
                            Err(output_limit_error())
                        } else {
                            match sentinel_from(values, exceptions, sentinel, 0, 0, Seq::empty()) {
                                Err(error) => Err(error),
                                Ok(resolved) => Ok(typed_stream(packed(resolved, width), width)),
                            }
                        },
                    },
                },
            }
        }
    }
}

/// Every value comes out: one that is not the sentinel as itself, at its place.
pub proof fn law_sentinel_keeps_plain_values(
    inputs: Seq<StreamView>,
    header: Seq<u8>,
    limits: Limits,
    index: nat,
)
    requires
        sentinel_node(inputs, header, limits) is Ok,
        index < inputs[0].bytes.len() / inputs[0].element_width,
        element(inputs[0].bytes, inputs[0].element_width, index as int) != sentinel_value(
            header,
            max_numeric(inputs[0].element_width as int),
        )->Ok_0,
    ensures
        element(
            sentinel_node(inputs, header, limits)->Ok_0.bytes,
            inputs[1].element_width,
            index as int,
        ) == element(inputs[0].bytes, inputs[0].element_width, index as int),
{
    let values = inputs[0];
    let exceptions = inputs[1];
    let sentinel = sentinel_value(header, max_numeric(values.element_width as int))->Ok_0;
    let resolved = sentinel_from(values, exceptions, sentinel, 0, 0, Seq::empty())->Ok_0;
    lemma_sentinel_keeps(values, exceptions, sentinel, 0, 0, Seq::empty(), index);
    crate::stream::lemma_whole_elements(values.bytes.len(), values.element_width);
    lemma_element_inside(
        index,
        values.bytes.len() / values.element_width,
        values.element_width,
    );
    crate::stream::lemma_element_bound(values.bytes, values.element_width, index as int);
    crate::bytes::lemma_byte_range_values();
    crate::bytes::lemma_byte_range_monotone(values.element_width, exceptions.element_width);
    crate::stream::law_packed_element(resolved, exceptions.element_width, index as int);
}

proof fn lemma_sentinel_keeps(
    values: StreamView,
    exceptions: StreamView,
    sentinel: u64,
    index: nat,
    used: nat,
    resolved: Seq<u64>,
    place: nat,
)
    requires
        sentinel_from(values, exceptions, sentinel, index, used, resolved) is Ok,
        resolved.len() == index <= values.bytes.len() / values.element_width,
        values.element_width > 0,
    ensures
        ({
            let done = sentinel_from(values, exceptions, sentinel, index, used, resolved)->Ok_0;
            &&& done.len() == values.bytes.len() / values.element_width
            &&& forall|i: int| 0 <= i < index ==> done[i] == resolved[i]
            &&& index <= place < values.bytes.len() / values.element_width && element(
                values.bytes,
                values.element_width,
                place as int,
            ) != sentinel ==> done[place as int] == element(
                values.bytes,
                values.element_width,
                place as int,
            ) as u64
        }),
    decreases values.bytes.len() / values.element_width - index,
{
    if index < values.bytes.len() / values.element_width {
        let value = element(values.bytes, values.element_width, index as int);
        if value != sentinel {
            let longer = resolved.push(value as u64);
            lemma_sentinel_keeps(
                values,
                exceptions,
                sentinel,
                index + 1,
                used,
                longer,
                place,
            );
            assert(forall|i: int| 0 <= i < index ==> longer[i] == resolved[i]);
            assert(longer[index as int] == value as u64);
        } else {
            let longer = resolved.push(
                element(exceptions.bytes, exceptions.element_width, used as int) as u64,
            );
            lemma_sentinel_keeps(
                values,
                exceptions,
                sentinel,
                index + 1,
                used + 1,
                longer,
                place,
            );
            assert(forall|i: int| 0 <= i < index ==> longer[i] == resolved[i]);
        }
    }
}

fn read_sentinel(header: &[u8], max_value: u64) -> (result: Result<u64, Error>)
    ensures
        plain_outcome(result) == sentinel_value(header@, max_value),
{
    if header.len() == 0 {
        return Ok(max_value);
    }
    let mut offset: usize = 0;
    let value: u64 = read_var_u64(header, &mut offset)?;
    if offset != header.len() {
        return Err(fail(ErrorKind::Malformed, "sentinel header has trailing bytes"));
    }
    if value > max_value {
        return Err(fail(ErrorKind::Malformed, "sentinel value exceeds values width"));
    }
    Ok(value)
}

/// Decodes a sentinel node.
pub fn decode_sentinel_node(inputs: &[StreamInput<'_>], header: &[u8], limits: Limits) -> (result:
    Result<OwnedStream, Error>)
    ensures
        outcome(result) == sentinel_node(stream_views(inputs@), header@, limits),
        result is Ok ==> !result->Ok_0.recyclable,
{
    if inputs.len() != 2 {
        return Err(
            fail(ErrorKind::InvalidGraph, "sentinel input count does not match node shape"),
        );
    }
    let values = inputs[0];
    let exceptions = inputs[1];
    let width: usize = exceptions.element_width;
    validate_numeric_stream_width(values.element_width, "sentinel values")?;
    validate_numeric_stream_width(width, "sentinel exceptions")?;
    if values.element_width > width {
        return Err(fail(ErrorKind::Malformed, "sentinel values width exceeds output width"));
    }
    let max_value: u64 = max_numeric_value(values.element_width)?;
    let sentinel: u64 = read_sentinel(header, max_value)?;
    let value_count: usize = numeric_element_count(values.bytes, values.element_width)?;
    let exception_count: usize = numeric_element_count(exceptions.bytes, width)?;
    let output_len: usize = match value_count.checked_mul(width) {
        Some(output_len) => output_len,
        None => {
            return Err(Error::new(ErrorKind::IntegerOverflow));
        },
    };
    check_output_limit(output_len, limits)?;
    let mut output: Vec<u8> = Vec::new();
    let ghost mut resolved: Seq<u64> = Seq::empty();
    let mut exception_index: usize = 0;
    let mut value_index: usize = 0;
    let ghost total = sentinel_from(values@, exceptions@, sentinel, 0, 0, Seq::empty());
    let ghost views = stream_views(inputs@);
    while value_index < value_count
        invariant
            value_index <= value_count,
            exception_index <= exception_count,
            values@ == views[0],
            exceptions@ == views[1],
            views == stream_views(inputs@),
            inputs.len() == 2,
            width == exceptions.element_width,
            0 < values.element_width <= width <= 8,
            values.bytes@.len() == value_count * values.element_width,
            value_count == values.bytes@.len() / (values.element_width as nat),
            exceptions.bytes@.len() == exception_count * width,
            exception_count == exceptions.bytes@.len() / (width as nat),
            output@ == packed(resolved, width as nat),
            total == sentinel_from(
                values@,
                exceptions@,
                sentinel,
                value_index as nat,
                exception_index as nat,
                resolved,
            ),
            sentinel_node(views, header@, limits) == (match total {
                Err(error) => Err::<StreamView, ErrorView>(error),
                Ok(done) => Ok(typed_stream(packed(done, width as nat), width as nat)),
            }),
        decreases value_count - value_index,
    {
        proof {
            lemma_element_inside(
                value_index as nat,
                value_count as nat,
                values.element_width as nat,
            );
            assert(values.bytes@.len() == values.bytes.len());
        }
        let value: u64 = read_numeric_element(values.bytes, values.element_width, value_index)?;
        if value == sentinel {
            if exception_index >= exception_count {
                return Err(fail(ErrorKind::Malformed, "sentinel exception stream is exhausted"));
            }
            proof {
                lemma_element_inside(exception_index as nat, exception_count as nat, width as nat);
                assert(exceptions.bytes@.len() == exceptions.bytes.len());
            }
            let exception: u64 = read_numeric_element(exceptions.bytes, width, exception_index)?;
            push_element(&mut output, exception, width, Ghost(resolved));
            proof {
                resolved = resolved.push(exception);
            }
            exception_index = exception_index + 1;
        } else {
            push_element(&mut output, value, width, Ghost(resolved));
            proof {
                resolved = resolved.push(value);
            }
        }
        value_index = value_index + 1;
    }
    if exception_index != exception_count {
        return Err(
            fail(ErrorKind::Malformed, "sentinel exception stream was not fully consumed"),
        );
    }
    Ok(OwnedStream::typed(output, width))
}

} // verus!
