//! Elements that stand as indices into an alphabet.

use vstd::prelude::*;
use vstd::slice::slice_subrange;

use crate::bytes::append_bytes;
use crate::error::{detailed, fail, outcome, plain, Error, ErrorKind, ErrorView};
use crate::limits::{check_output_limit, output_limit_error, Limits};
use crate::stream::{
    element_count, lemma_element_inside, lemma_whole_elements, numeric_element_count,
    numeric_width_error, read_usize_numeric_element, stream_views, typed_stream, usize_element,
    validate_numeric_stream_width, OwnedStream, StreamInput, StreamView,
};

verus! {

/// The element of the alphabet that an index stands for.
pub open spec fn token(alphabet: StreamView, index: int) -> Seq<u8> {
    alphabet.bytes.subrange(
        index * alphabet.element_width,
        index * alphabet.element_width + alphabet.element_width,
    )
}

/// Looks up the indices from `place` on, behind the bytes of those before.
pub open spec fn tokens_from(
    alphabet: StreamView,
    indices: StreamView,
    place: nat,
    decoded: Seq<u8>,
) -> Result<Seq<u8>, ErrorView>
    decreases indices.bytes.len() / indices.element_width - place,
{
    if place >= indices.bytes.len() / indices.element_width {
        Ok(decoded)
    } else {
        match usize_element(indices.bytes, indices.element_width, place as int) {
            Err(error) => Err(error),
            Ok(index) => if index >= alphabet.bytes.len() / alphabet.element_width {
                Err(detailed(ErrorKind::Malformed, "tokenize_fixed index is out of bounds"@))
            } else {
                tokens_from(alphabet, indices, place + 1, decoded + token(alphabet, index as int))
            },
        }
    }
}

/// What a tokenize_fixed node produces.
pub open spec fn tokenize_fixed_node(
    inputs: Seq<StreamView>,
    header: Seq<u8>,
    limits: Limits,
) -> Result<StreamView, ErrorView> {
    if header.len() != 0 {
        Err(detailed(ErrorKind::Unsupported, "tokenize_fixed headers are unsupported"@))
    } else if inputs.len() != 2 {
        Err(
            detailed(
                ErrorKind::InvalidGraph,
                "tokenize_fixed input count does not match node shape"@,
            ),
        )
    } else {
        let alphabet = inputs[0];
        let indices = inputs[1];
        let width = alphabet.element_width;
        if width == 0 || alphabet.bytes.len() % width != 0 {
            Err(detailed(ErrorKind::Malformed, "tokenize_fixed alphabet has partial element"@))
        } else if let Some(error) = numeric_width_error(
            indices.element_width as int,
            "tokenize_fixed indices"@,
        ) {
            Err(error)
        } else {
            match element_count(indices.bytes.len(), indices.element_width) {
                Err(error) => Err(error),
                Ok(count) => if count * width > usize::MAX {
                    Err(plain(ErrorKind::IntegerOverflow))
                } else if !limits.admits(count * width) {
                    Err(output_limit_error())
                } else if alphabet.bytes.len() / width == 0 && count != 0 {
                    Err(detailed(ErrorKind::Malformed, "tokenize_fixed alphabet is empty"@))
                } else {
                    match tokens_from(alphabet, indices, 0, Seq::empty()) {
                        Err(error) => Err(error),
                        Ok(decoded) => Ok(typed_stream(decoded, width)),
                    }
                },
            }
        }
    }
}

proof fn lemma_tokens(alphabet: StreamView, indices: StreamView, place: nat, decoded: Seq<u8>)
    requires
        alphabet.element_width > 0,
        alphabet.bytes.len() % alphabet.element_width == 0,
        indices.element_width > 0,
        tokens_from(alphabet, indices, place, decoded) is Ok,
        place <= indices.bytes.len() / indices.element_width,
        decoded.len() == place * alphabet.element_width,
    ensures
        ({
            let done = tokens_from(alphabet, indices, place, decoded)->Ok_0;
            let count = indices.bytes.len() / indices.element_width;
            &&& done.len() == count * alphabet.element_width
            &&& done.take(decoded.len() as int) == decoded
            &&& forall|i: int|
                place <= i < count ==> #[trigger] token(
                    typed_stream(done, alphabet.element_width),
                    i,
                ) == token(
                    alphabet,
                    usize_element(indices.bytes, indices.element_width, i)->Ok_0 as int,
                )
        }),
    decreases indices.bytes.len() / indices.element_width - place,
{
    let count = indices.bytes.len() / indices.element_width;
    let width = alphabet.element_width;
    if place < count {
        let index = usize_element(indices.bytes, indices.element_width, place as int)->Ok_0;
        lemma_whole_elements(alphabet.bytes.len(), width);
        lemma_element_inside(index as nat, alphabet.bytes.len() / width, width);
        lemma_element_inside(place, count, width);
        let part = token(alphabet, index as int);
        let longer = decoded + part;
        lemma_tokens(alphabet, indices, place + 1, longer);
        let done = tokens_from(alphabet, indices, place, decoded)->Ok_0;
        assert(done.take(longer.len() as int) == longer);
        assert(done.take(decoded.len() as int) =~= longer.take(decoded.len() as int));
        assert(longer.take(decoded.len() as int) =~= decoded);
        assert(done.subrange(decoded.len() as int, longer.len() as int) =~= longer.subrange(
            decoded.len() as int,
            longer.len() as int,
        ));
        assert(longer.subrange(decoded.len() as int, longer.len() as int) =~= part);
        assert(token(typed_stream(done, width), place as int) == part);
    } else {
        assert(decoded.take(decoded.len() as int) =~= decoded);
    }
}

/// Every element that comes out is the letter that its index stands for.
pub proof fn law_tokenize_looks_up_every_index(
    inputs: Seq<StreamView>,
    header: Seq<u8>,
    limits: Limits,
    place: nat,
)
    requires
        tokenize_fixed_node(inputs, header, limits) is Ok,
        place < inputs[1].bytes.len() / inputs[1].element_width,
    ensures
        ({
            let output = tokenize_fixed_node(inputs, header, limits)->Ok_0;
            &&& output.bytes.len() == inputs[1].bytes.len() / inputs[1].element_width
                * inputs[0].element_width
            &&& token(output, place as int) == token(
                inputs[0],
                usize_element(inputs[1].bytes, inputs[1].element_width, place as int)->Ok_0 as int,
            )
        }),
{
    lemma_tokens(inputs[0], inputs[1], 0, Seq::empty());
    let output = tokenize_fixed_node(inputs, header, limits)->Ok_0;
    assert(output == typed_stream(output.bytes, inputs[0].element_width));
}

/// Decodes a tokenize_fixed node.
pub fn decode_tokenize_fixed_node(
    inputs: &[StreamInput<'_>],
    header: &[u8],
    limits: Limits,
) -> (result: Result<OwnedStream, Error>)
    ensures
        outcome(result) == tokenize_fixed_node(stream_views(inputs@), header@, limits),
        result is Ok ==> !result->Ok_0.recyclable,
{
    if header.len() != 0 {
        return Err(fail(ErrorKind::Unsupported, "tokenize_fixed headers are unsupported"));
    }
    if inputs.len() != 2 {
        return Err(
            fail(ErrorKind::InvalidGraph, "tokenize_fixed input count does not match node shape"),
        );
    }
    let alphabet = inputs[0];
    let indices = inputs[1];
    let width: usize = alphabet.element_width;
    if width == 0 || alphabet.bytes.len() % width != 0 {
        return Err(fail(ErrorKind::Malformed, "tokenize_fixed alphabet has partial element"));
    }
    validate_numeric_stream_width(indices.element_width, "tokenize_fixed indices")?;
    let alphabet_size: usize = alphabet.bytes.len() / width;
    let count: usize = numeric_element_count(indices.bytes, indices.element_width)?;
    let output_len: usize = match count.checked_mul(width) {
        Some(output_len) => output_len,
        None => {
            return Err(Error::new(ErrorKind::IntegerOverflow));
        },
    };
    check_output_limit(output_len, limits)?;
    if alphabet_size == 0 && count != 0 {
        return Err(fail(ErrorKind::Malformed, "tokenize_fixed alphabet is empty"));
    }
    let mut output: Vec<u8> = Vec::new();
    let ghost views = stream_views(inputs@);
    let ghost total = tokens_from(alphabet@, indices@, 0, Seq::empty());
    let mut place: usize = 0;
    proof {
        assert(output@ =~= Seq::empty());
        lemma_whole_elements(alphabet.bytes@.len(), width as nat);
    }
    while place < count
        invariant
            place <= count,
            views == stream_views(inputs@),
            width == alphabet.element_width,
            width > 0,
            alphabet_size == alphabet.bytes@.len() / (width as nat),
            alphabet.bytes@.len() == alphabet_size * width,
            count == indices.bytes@.len() / (indices.element_width as nat),
            total == tokens_from(alphabet@, indices@, place as nat, output@),
            tokenize_fixed_node(views, header@, limits) == (match total {
                Err(error) => Err::<StreamView, ErrorView>(error),
                Ok(decoded) => Ok(typed_stream(decoded, width as nat)),
            }),
        decreases count - place,
    {
        let index: usize = read_usize_numeric_element(
            indices.bytes,
            indices.element_width,
            place,
        )?;
        if index >= alphabet_size {
            return Err(fail(ErrorKind::Malformed, "tokenize_fixed index is out of bounds"));
        }
        proof {
            lemma_element_inside(index as nat, alphabet_size as nat, width as nat);
            assert(alphabet.bytes@.len() == alphabet.bytes.len());
        }
        let start: usize = index * width;
        append_bytes(&mut output, slice_subrange(alphabet.bytes, start, start + width));
        place = place + 1;
    }
    Ok(OwnedStream::typed(output, width))
}

} // verus!
