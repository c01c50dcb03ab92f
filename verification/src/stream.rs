//! Typed byte streams, and the fixed-width integers that they hold.

use vstd::prelude::*;

use crate::bytes::{
    byte_range, law_le_round_trip, le_bytes, lemma_byte_range_values, lemma_le_bytes_len,
    lemma_le_value_bound, le_value, push_le, read_le,
};
use crate::error::{detailed, fail, plain, plain_outcome, Error, ErrorKind, ErrorView};

verus! {

/// The mathematical content of a stream.
#[verifier::ext_equal]
pub struct StreamView {
    pub bytes: Seq<u8>,
    pub element_width: nat,
    pub string_lengths: Option<Seq<u32>>,
}

/// A stream that a transform reads.
#[derive(Clone, Copy)]
pub struct StreamInput<'a> {
    pub bytes: &'a [u8],
    pub element_width: usize,
    pub string_lengths: Option<&'a [u32]>,
}

impl<'a> View for StreamInput<'a> {
    type V = StreamView;

    open spec fn view(&self) -> StreamView {
        StreamView {
            bytes: self.bytes@,
            element_width: self.element_width as nat,
            string_lengths: match self.string_lengths {
                Some(lengths) => Some(lengths@),
                None => None,
            },
        }
    }
}

/// A stream that a transform has produced.
#[derive(Debug)]
pub struct OwnedStream {
    pub bytes: Vec<u8>,
    pub element_width: usize,
    pub string_lengths: Option<Vec<u32>>,
    /// Whether the byte buffer goes back to the scratch pool once consumed.
    pub recyclable: bool,
}

impl View for OwnedStream {
    type V = StreamView;

    open spec fn view(&self) -> StreamView {
        StreamView {
            bytes: self.bytes@,
            element_width: self.element_width as nat,
            string_lengths: match self.string_lengths {
                Some(lengths) => Some(lengths@),
                None => None,
            },
        }
    }
}

/// A stream without string lengths.
pub open spec fn typed_stream(bytes: Seq<u8>, element_width: nat) -> StreamView {
    StreamView { bytes, element_width, string_lengths: None }
}

impl OwnedStream {
    /// A stream of bytes.
    pub fn serial(bytes: Vec<u8>) -> (stream: Self)
        ensures
            stream@ == typed_stream(bytes@, 1),
            !stream.recyclable,
    {
        OwnedStream { bytes, element_width: 1, string_lengths: None, recyclable: false }
    }

    /// A stream of fixed-width elements.
    pub fn typed(bytes: Vec<u8>, element_width: usize) -> (stream: Self)
        ensures
            stream@ == typed_stream(bytes@, element_width as nat),
            !stream.recyclable,
    {
        OwnedStream { bytes, element_width, string_lengths: None, recyclable: false }
    }

    /// A stream of fixed-width elements whose buffer came from the scratch pool.
    pub fn pooled(bytes: Vec<u8>, element_width: usize) -> (stream: Self)
        ensures
            stream@ == typed_stream(bytes@, element_width as nat),
            stream.recyclable,
    {
        OwnedStream { bytes, element_width, string_lengths: None, recyclable: true }
    }

    /// The stream as a transform reads it.
    pub fn as_input(&self) -> (input: StreamInput<'_>)
        ensures
            input@ == self@,
    {
        StreamInput {
            bytes: self.bytes.as_slice(),
            element_width: self.element_width,
            string_lengths: match &self.string_lengths {
                Some(lengths) => Some(lengths.as_slice()),
                None => None,
            },
        }
    }
}

/// The contents of a list of inputs.
pub open spec fn stream_views(inputs: Seq<StreamInput<'_>>) -> Seq<StreamView> {
    Seq::new(inputs.len(), |i: int| inputs[i]@)
}

/// The contents of a list of outputs.
pub open spec fn owned_views(outputs: Seq<OwnedStream>) -> Seq<StreamView> {
    Seq::new(outputs.len(), |i: int| outputs[i]@)
}

/// The view of a fallible list of outputs.
pub open spec fn outputs_outcome(result: Result<Vec<OwnedStream>, Error>) -> Result<
    Seq<StreamView>,
    ErrorView,
> {
    match result {
        Ok(outputs) => Ok(owned_views(outputs@)),
        Err(error) => Err(error@),
    }
}

/// Whether integers of `width` bytes are supported.
pub open spec fn numeric_width(width: int) -> bool {
    width == 1 || width == 2 || width == 4 || width == 8
}

/// The error, if any, of an integer width that is not supported.
pub open spec fn numeric_width_error(width: int, name: Seq<char>) -> Option<ErrorView> {
    if numeric_width(width) {
        None
    } else {
        Some(detailed(ErrorKind::InvalidType, name + " width is unsupported"@))
    }
}

/// Concatenates two pieces of text, by `format!`.
#[verifier::external_body]
pub(crate) fn join_text(first: &str, second: &str) -> (text: String)
    ensures
        text@ == first@ + second@,
{
    format!("{first}{second}")
}

/// Checks that integers of `element_width` bytes are supported.
pub fn validate_numeric_stream_width(element_width: usize, name: &str) -> (result: Result<
    (),
    Error,
>)
    ensures
        match result {
            Ok(_) => numeric_width_error(element_width as int, name@) is None,
            Err(error) => numeric_width_error(element_width as int, name@) == Some(error@),
        },
{
    if element_width == 1 || element_width == 2 || element_width == 4 || element_width == 8 {
        Ok(())
    } else {
        let text = join_text(name, " width is unsupported");
        Err(fail(ErrorKind::InvalidType, text.as_str()))
    }
}

/// How many elements of `width` bytes a buffer of `len` bytes holds.
pub open spec fn element_count(len: nat, width: nat) -> Result<usize, ErrorView> {
    if len % width != 0 {
        Err(detailed(ErrorKind::Malformed, "numeric stream has partial element"@))
    } else {
        Ok((len / width) as usize)
    }
}

/// Counts the elements of `element_width` bytes in `bytes`.
pub fn numeric_element_count(bytes: &[u8], element_width: usize) -> (result: Result<usize, Error>)
    requires
        element_width > 0,
    ensures
        plain_outcome(result) == element_count(bytes@.len(), element_width as nat),
        match result {
            Ok(count) => bytes@.len() == count * element_width && count == bytes@.len() / (
            element_width as nat),
            Err(_) => true,
        },
{
    if bytes.len() % element_width != 0 {
        return Err(fail(ErrorKind::Malformed, "numeric stream has partial element"));
    }
    proof {
        lemma_whole_elements(bytes@.len(), element_width as nat);
    }
    Ok(bytes.len() / element_width)
}

/// Checks that a stream holds whole elements of an expected width.
pub(crate) fn require_numeric_width(
    stream: &StreamInput<'_>,
    expected: usize,
    name: &str,
) -> (result: Result<(), Error>)
    requires
        expected > 0,
    ensures
        match result {
            Ok(_) => required_width_error(stream@, expected as nat, name@) is None,
            Err(error) => required_width_error(stream@, expected as nat, name@) == Some(error@),
        },
{
    if stream.element_width != expected {
        let text = join_text(name, " width is unsupported");
        return Err(fail(ErrorKind::InvalidType, text.as_str()));
    }
    numeric_element_count(stream.bytes, expected)?;
    Ok(())
}

/// The error, if any, of a stream that should hold elements of a given width.
pub open spec fn required_width_error(
    stream: StreamView,
    expected: nat,
    name: Seq<char>,
) -> Option<ErrorView> {
    if stream.element_width != expected {
        Some(detailed(ErrorKind::InvalidType, name + " width is unsupported"@))
    } else {
        match element_count(stream.bytes.len(), expected) {
            Ok(_) => None,
            Err(error) => Some(error),
        }
    }
}

pub proof fn lemma_whole_elements(len: nat, width: nat)
    requires
        width > 0,
        len % width == 0,
    ensures
        len == (len / width) * width,
        len / width <= len,
{
    vstd::arithmetic::div_mod::lemma_fundamental_div_mod(len as int, width as int);
    vstd::arithmetic::mul::lemma_mul_is_commutative(width as int, (len / width) as int);
    vstd::arithmetic::div_mod::lemma_div_is_ordered_by_denominator(len as int, 1, width as int);
}

/// Element `index` of a buffer of `count` elements lies inside it.
pub proof fn lemma_element_inside(index: nat, count: nat, width: nat)
    requires
        index < count,
    ensures
        index * width + width <= count * width,
        (index + 1) * width == index * width + width,
{
    assert((index + 1) * width == index * width + width) by (nonlinear_arith);
    assert((index + 1) * width <= count * width) by (nonlinear_arith)
        requires
            index + 1 <= count,
    ;
}

/// The integer at `index` in a buffer of `width`-byte integers.
pub open spec fn element(bytes: Seq<u8>, width: nat, index: int) -> nat {
    le_value(bytes.subrange(index * width, index * width + width))
}

/// The integer at `index`, or the error of reading past the end.
pub open spec fn numeric_element(bytes: Seq<u8>, width: nat, index: int) -> Result<
    u64,
    ErrorView,
> {
    if index * width > usize::MAX {
        Err(plain(ErrorKind::IntegerOverflow))
    } else if index * width + width > bytes.len() {
        Err(detailed(ErrorKind::Malformed, "numeric stream is truncated"@))
    } else {
        Ok(element(bytes, width, index) as u64)
    }
}

/// Reads the integer at `index` in a buffer of `element_width`-byte integers.
pub fn read_numeric_element(bytes: &[u8], element_width: usize, index: usize) -> (result: Result<
    u64,
    Error,
>)
    requires
        element_width <= 8,
    ensures
        plain_outcome(result) == numeric_element(bytes@, element_width as nat, index as int),
        match result {
            Ok(value) => value as nat == element(bytes@, element_width as nat, index as int),
            Err(_) => true,
        },
{
    let start: usize = match index.checked_mul(element_width) {
        Some(start) => start,
        None => {
            return Err(Error::new(ErrorKind::IntegerOverflow));
        },
    };
    if start > bytes.len() || bytes.len() - start < element_width {
        return Err(fail(ErrorKind::Malformed, "numeric stream is truncated"));
    }
    Ok(read_le(bytes, start, element_width))
}

/// The integer at `index` as a size, or the error of not having one.
pub open spec fn usize_element(bytes: Seq<u8>, width: nat, index: int) -> Result<
    usize,
    ErrorView,
> {
    if index * width > usize::MAX {
        Err(plain(ErrorKind::IntegerOverflow))
    } else if !numeric_width(width as int) {
        Err(detailed(ErrorKind::InvalidType, "numeric width is unsupported"@))
    } else if index * width + width > bytes.len() {
        Err(detailed(ErrorKind::Malformed, "numeric stream is truncated"@))
    } else if element(bytes, width, index) > usize::MAX {
        Err(detailed(ErrorKind::LimitExceeded, "numeric value is too large"@))
    } else {
        Ok(element(bytes, width, index) as usize)
    }
}

/// Reads the integer at `index` as a size.
pub fn read_usize_numeric_element(bytes: &[u8], element_width: usize, index: usize) -> (result:
    Result<usize, Error>)
    ensures
        plain_outcome(result) == usize_element(bytes@, element_width as nat, index as int),
{
    let start: usize = match index.checked_mul(element_width) {
        Some(start) => start,
        None => {
            return Err(Error::new(ErrorKind::IntegerOverflow));
        },
    };
    if !(element_width == 1 || element_width == 2 || element_width == 4 || element_width == 8) {
        return Err(fail(ErrorKind::InvalidType, "numeric width is unsupported"));
    }
    if start > bytes.len() || bytes.len() - start < element_width {
        return Err(fail(ErrorKind::Malformed, "numeric stream is truncated"));
    }
    let value: u64 = read_le(bytes, start, element_width);
    if value > usize::MAX as u64 {
        return Err(fail(ErrorKind::LimitExceeded, "numeric value is too large"));
    }
    Ok(value as usize)
}

/// The largest integer of a supported width.
pub open spec fn max_numeric(width: int) -> u64 {
    if width == 1 {
        0xff
    } else if width == 2 {
        0xffff
    } else if width == 4 {
        0xffff_ffff
    } else {
        0xffff_ffff_ffff_ffff
    }
}

/// Returns the largest integer of `element_width` bytes.
pub fn max_numeric_value(element_width: usize) -> (result: Result<u64, Error>)
    ensures
        plain_outcome(result) == (if numeric_width(element_width as int) {
            Ok(max_numeric(element_width as int))
        } else {
            Err(detailed(ErrorKind::InvalidType, "numeric width is unsupported"@))
        }),
{
    match element_width {
        1 => Ok(0xff),
        2 => Ok(0xffff),
        4 => Ok(0xffff_ffff),
        8 => Ok(0xffff_ffff_ffff_ffff),
        _ => Err(fail(ErrorKind::InvalidType, "numeric width is unsupported")),
    }
}

/// An integer of a supported width is at most the largest of that width.
pub proof fn lemma_element_bound(bytes: Seq<u8>, width: nat, index: int)
    requires
        numeric_width(width as int),
        0 <= index,
        index * width + width <= bytes.len(),
    ensures
        element(bytes, width, index) <= max_numeric(width as int),
{
    let part = bytes.subrange(index * width, index * width + width);
    lemma_le_value_bound(part);
    lemma_byte_range_values();
    assert(0 <= index * width) by (nonlinear_arith)
        requires
            0 <= index,
    ;
}

/// Integers laid out one after the other in `width` bytes each.
pub open spec fn packed(values: Seq<u64>, width: nat) -> Seq<u8>
    decreases values.len(),
{
    if values.len() == 0 {
        Seq::empty()
    } else {
        packed(values.drop_last(), width) + le_bytes(values.last() as nat, width)
    }
}

/// Laying out one more integer adds its bytes at the end.
pub proof fn lemma_packed_push(values: Seq<u64>, value: u64, width: nat)
    ensures
        packed(values.push(value), width) == packed(values, width) + le_bytes(value as nat, width),
{
    assert(values.push(value).drop_last() =~= values);
}

pub proof fn lemma_packed_len(values: Seq<u64>, width: nat)
    ensures
        packed(values, width).len() == values.len() * width,
    decreases values.len(),
{
    if values.len() == 0 {
        assert(values.len() * width == 0) by (nonlinear_arith)
            requires
                values.len() == 0,
        ;
    } else {
        lemma_packed_len(values.drop_last(), width);
        lemma_le_bytes_len(values.last() as nat, width);
        assert((values.len() - 1) * width + width == values.len() * width) by (nonlinear_arith);
    }
}

/// An integer that was laid out reads back, where it fits the width.
pub proof fn law_packed_element(values: Seq<u64>, width: nat, index: int)
    requires
        0 <= index < values.len(),
        (values[index] as nat) < byte_range(width),
    ensures
        packed(values, width).len() == values.len() * width,
        element(packed(values, width), width, index) == values[index] as nat,
    decreases values.len(),
{
    let count = values.len();
    let last = count - 1;
    let shorter = values.drop_last();
    let bytes = packed(values, width);
    lemma_packed_len(values, width);
    lemma_packed_len(shorter, width);
    lemma_le_bytes_len(values.last() as nat, width);
    lemma_element_inside(index as nat, count, width);
    assert(0 <= index * width) by (nonlinear_arith)
        requires
            0 <= index,
    ;
    if index == last {
        assert(bytes.subrange(index * width, index * width + width) =~= le_bytes(
            values.last() as nat,
            width,
        ));
        law_le_round_trip(values.last() as nat, width);
    } else {
        lemma_element_inside(index as nat, last as nat, width);
        assert(bytes.subrange(index * width, index * width + width) =~= packed(
            shorter,
            width,
        ).subrange(index * width, index * width + width));
        law_packed_element(shorter, width, index);
    }
}

/// Appends an integer in `width` bytes.
pub(crate) fn push_element(
    output: &mut Vec<u8>,
    value: u64,
    width: usize,
    Ghost(values): Ghost<Seq<u64>>,
)
    requires
        old(output)@ == packed(values, width as nat),
    ensures
        final(output)@ == packed(values.push(value), width as nat),
{
    push_le(output, value, width);
    proof {
        lemma_packed_push(values, value, width as nat);
    }
}

/// The sum of the first `count` lengths.
pub open spec fn sum_lengths(lengths: Seq<u32>) -> nat
    decreases lengths.len(),
{
    if lengths.len() == 0 {
        0
    } else {
        sum_lengths(lengths.drop_last()) + lengths.last() as nat
    }
}

pub proof fn lemma_sum_lengths_monotone(lengths: Seq<u32>, count: int)
    requires
        0 <= count <= lengths.len(),
    ensures
        sum_lengths(lengths.take(count)) <= sum_lengths(lengths),
    decreases lengths.len(),
{
    if count < lengths.len() {
        lemma_sum_lengths_monotone(lengths.drop_last(), count);
        assert(lengths.drop_last().take(count) =~= lengths.take(count));
    } else {
        assert(lengths.take(count) =~= lengths);
    }
}

/// Adds lengths up, or fails where the sum is too large for a size.
pub fn checked_sum_u32(values: &[u32]) -> (result: Result<usize, Error>)
    ensures
        plain_outcome(result) == (if sum_lengths(values@) <= usize::MAX {
            Ok(sum_lengths(values@) as usize)
        } else {
            Err(plain(ErrorKind::IntegerOverflow))
        }),
{
    let mut total: usize = 0;
    let mut index: usize = 0;
    while index < values.len()
        invariant
            index <= values.len(),
            total == sum_lengths(values@.take(index as int)),
        decreases values.len() - index,
    {
        proof {
            assert(values@.take(index + 1).drop_last() =~= values@.take(index as int));
            lemma_sum_lengths_monotone(values@, index + 1);
        }
        total = match total.checked_add(values[index] as usize) {
            Some(total) => total,
            None => {
                return Err(Error::new(ErrorKind::IntegerOverflow));
            },
        };
        index = index + 1;
    }
    proof {
        assert(values@.take(index as int) =~= values@);
    }
    Ok(total)
}

} // verus!
