//! Streams that were joined before encoding are taken apart again.

use vstd::prelude::*;
use vstd::slice::slice_subrange;

use crate::bytes::copy_bytes;
use crate::error::{detailed, fail, plain, Error, ErrorKind, ErrorView};
use crate::limits::{check_output_limit, output_limit_error, Limits};
use crate::stream::{
    element_count, lemma_whole_elements, numeric_element_count, outputs_outcome, owned_views,
    read_usize_numeric_element, stream_views, typed_stream, usize_element, OwnedStream, StreamInput,
    StreamView,
};

verus! {

/// Takes the outputs from `index` on off the joined bytes, behind `used` elements.
pub open spec fn concat_from(
    sizes: Seq<u8>,
    joined: StreamView,
    limits: Limits,
    index: nat,
    used: nat,
    outputs: Seq<StreamView>,
) -> Result<Seq<StreamView>, ErrorView>
    decreases sizes.len() / 4 - index,
{
    let width = joined.element_width;
    if index >= sizes.len() / 4 {
        if used != joined.bytes.len() / width {
            Err(detailed(ErrorKind::Malformed, "concat sizes do not consume input"@))
        } else {
            Ok(outputs)
        }
    } else {
        match usize_element(sizes, 4, index as int) {
            Err(error) => Err(error),
            Ok(elements) => {
                let next = used + elements as nat;
                if elements * width > usize::MAX {
                    Err(plain(ErrorKind::IntegerOverflow))
                } else if !limits.admits(elements * width) {
                    Err(output_limit_error())
                } else if next > usize::MAX || next * width > usize::MAX {
                    Err(plain(ErrorKind::IntegerOverflow))
                } else if next * width > joined.bytes.len() {
                    Err(detailed(ErrorKind::Malformed, "concat size exceeds input"@))
                } else {
                    concat_from(
                        sizes,
                        joined,
                        limits,
                        index + 1,
                        next,
                        outputs.push(
                            typed_stream(
                                joined.bytes.subrange((used * width) as int, (next * width) as int),
                                width,
                            ),
                        ),
                    )
                }
            },
        }
    }
}

/// What a concat node produces.
pub open spec fn concat_node(inputs: Seq<StreamView>, header: Seq<u8>, limits: Limits) -> Result<
    Seq<StreamView>,
    ErrorView,
> {
    if header.len() != 0 {
        Err(detailed(ErrorKind::Unsupported, "concat transform headers are unsupported"@))
    } else if inputs.len() != 2 {
        Err(detailed(ErrorKind::InvalidGraph, "concat input count does not match node shape"@))
    } else {
        let sizes = inputs[0];
        let joined = inputs[1];
        if sizes.element_width != 1 && sizes.element_width != 4 {
            Err(detailed(ErrorKind::InvalidType, "concat sizes width is unsupported"@))
        } else {
            match element_count(sizes.bytes.len(), 4) {
                Err(error) => Err(error),
                Ok(_) => if joined.element_width == 0 {
                    Err(detailed(ErrorKind::InvalidType, "concat element width is zero"@))
                } else if joined.bytes.len() % joined.element_width != 0 {
                    Err(detailed(ErrorKind::Malformed, "concat input has partial element"@))
                } else if sizes.bytes.len() / 4 == 0 {
                    Err(detailed(ErrorKind::Malformed, "concat size table is empty"@))
                } else {
                    concat_from(sizes.bytes, joined, limits, 0, 0, Seq::empty())
                },
            }
        }
    }
}

/// The bytes of a list of streams, one after the other.
pub open spec fn joined_bytes(streams: Seq<StreamView>) -> Seq<u8>
    decreases streams.len(),
{
    if streams.len() == 0 {
        Seq::empty()
    } else {
        joined_bytes(streams.drop_last()) + streams.last().bytes
    }
}

/// The outputs of a concat node, one after the other, are its joined input, and
/// all have its element width.
pub proof fn law_concat_outputs_partition_input(
    inputs: Seq<StreamView>,
    header: Seq<u8>,
    limits: Limits,
)
    requires
        concat_node(inputs, header, limits) is Ok,
    ensures
        joined_bytes(concat_node(inputs, header, limits)->Ok_0) == inputs[1].bytes,
        forall|i: int|
            0 <= i < concat_node(inputs, header, limits)->Ok_0.len() ==> (
            #[trigger] concat_node(inputs, header, limits)->Ok_0[i]).element_width
                == inputs[1].element_width,
{
    assert(inputs[1].bytes.take(0) =~= Seq::empty());
    lemma_concat_partition(inputs[0].bytes, inputs[1], limits, 0, 0, Seq::empty());
}

proof fn lemma_concat_partition(
    sizes: Seq<u8>,
    joined: StreamView,
    limits: Limits,
    index: nat,
    used: nat,
    outputs: Seq<StreamView>,
)
    requires
        joined.element_width > 0,
        joined.bytes.len() % joined.element_width == 0,
        used * joined.element_width <= joined.bytes.len(),
        joined_bytes(outputs) == joined.bytes.take((used * joined.element_width) as int),
        forall|i: int|
            0 <= i < outputs.len() ==> (#[trigger] outputs[i]).element_width
                == joined.element_width,
        concat_from(sizes, joined, limits, index, used, outputs) is Ok,
    ensures
        ({
            let done = concat_from(sizes, joined, limits, index, used, outputs)->Ok_0;
            &&& joined_bytes(done) == joined.bytes
            &&& forall|i: int|
                0 <= i < done.len() ==> (#[trigger] done[i]).element_width == joined.element_width
        }),
    decreases sizes.len() / 4 - index,
{
    let width = joined.element_width;
    if index >= sizes.len() / 4 {
        lemma_whole_elements(joined.bytes.len(), width);
        assert(joined.bytes.take(joined.bytes.len() as int) =~= joined.bytes);
    } else {
        let elements = usize_element(sizes, 4, index as int)->Ok_0;
        let next = used + elements as nat;
        assert(used * width <= next * width) by (nonlinear_arith)
            requires
                used <= next,
        ;
        let part = typed_stream(
            joined.bytes.subrange((used * width) as int, (next * width) as int),
            width,
        );
        let longer = outputs.push(part);
        assert(longer.drop_last() =~= outputs);
        assert(joined_bytes(longer) =~= joined.bytes.take((next * width) as int));
        lemma_concat_partition(sizes, joined, limits, index + 1, next, longer);
    }
}

/// Decodes a concat node into the streams that were joined.
pub fn decode_concat_node(
    inputs: &[StreamInput<'_>],
    header: &[u8],
    limits: Limits,
) -> (result: Result<Vec<OwnedStream>, Error>)
    ensures
        outputs_outcome(result) == concat_node(stream_views(inputs@), header@, limits),
{
    if header.len() != 0 {
        return Err(fail(ErrorKind::Unsupported, "concat transform headers are unsupported"));
    }
    if inputs.len() != 2 {
        return Err(fail(ErrorKind::InvalidGraph, "concat input count does not match node shape"));
    }
    let sizes = inputs[0];
    let joined = inputs[1];
    if sizes.element_width != 1 && sizes.element_width != 4 {
        return Err(fail(ErrorKind::InvalidType, "concat sizes width is unsupported"));
    }
    let output_count: usize = numeric_element_count(sizes.bytes, 4)?;
    let width: usize = joined.element_width;
    if width == 0 {
        return Err(fail(ErrorKind::InvalidType, "concat element width is zero"));
    }
    if joined.bytes.len() % width != 0 {
        return Err(fail(ErrorKind::Malformed, "concat input has partial element"));
    }
    if output_count == 0 {
        return Err(fail(ErrorKind::Malformed, "concat size table is empty"));
    }
    let total_elements: usize = joined.bytes.len() / width;
    let mut consumed_elements: usize = 0;
    let mut consumed_bytes: usize = 0;
    let mut outputs: Vec<OwnedStream> = Vec::new();
    let mut index: usize = 0;
    proof {
        assert(owned_views(outputs@) =~= Seq::empty());
    }
    while index < output_count
        invariant
            index <= output_count,
            output_count == sizes.bytes@.len() / 4,
            width == joined.element_width,
            width > 0,
            total_elements == joined.bytes@.len() / (width as nat),
            consumed_bytes == consumed_elements * width,
            consumed_bytes <= joined.bytes.len(),
            concat_node(stream_views(inputs@), header@, limits) == concat_from(
                sizes.bytes@,
                joined@,
                limits,
                index as nat,
                consumed_elements as nat,
                owned_views(outputs@),
            ),
        decreases output_count - index,
    {
        let output_elements: usize = read_usize_numeric_element(sizes.bytes, 4, index)?;
        let output_bytes: usize = match output_elements.checked_mul(width) {
            Some(output_bytes) => output_bytes,
            None => {
                return Err(Error::new(ErrorKind::IntegerOverflow));
            },
        };
        check_output_limit(output_bytes, limits)?;
        proof {
            assert((consumed_elements + output_elements) * width == consumed_elements * width
                + output_elements * width) by (nonlinear_arith);
        }
        if output_elements > usize::MAX - consumed_elements || output_bytes > usize::MAX
            - consumed_bytes {
            return Err(Error::new(ErrorKind::IntegerOverflow));
        }
        let next_elements: usize = consumed_elements + output_elements;
        let next_bytes: usize = consumed_bytes + output_bytes;
        if next_bytes > joined.bytes.len() {
            return Err(fail(ErrorKind::Malformed, "concat size exceeds input"));
        }
        let part = slice_subrange(joined.bytes, consumed_bytes, next_bytes);
        let ghost before = outputs@;
        outputs.push(OwnedStream::typed(copy_bytes(part), width));
        proof {
            assert(owned_views(outputs@) =~= owned_views(before).push(
                typed_stream(
                    joined.bytes@.subrange(consumed_bytes as int, next_bytes as int),
                    width as nat,
                ),
            ));
        }
        consumed_elements = next_elements;
        consumed_bytes = next_bytes;
        index = index + 1;
    }
    if consumed_elements != total_elements {
        return Err(fail(ErrorKind::Malformed, "concat sizes do not consume input"));
    }
    Ok(outputs)
}

} // verus!
