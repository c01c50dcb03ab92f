//! Bit streams that are read from their last bit back to their first.

use vstd::prelude::*;
use zrip_core::bitstream::reader_reverse::ReverseBitReader;

use crate::bits::{bit_at, bit_length, bit_range};
use crate::error::{detailed, fail, Error, ErrorKind, ErrorView};

verus! {

/// The reverse bit reader of `zrip_core`.
#[verifier::external_type_specification]
#[verifier::external_body]
pub struct ExReverseBitReader<'a>(ReverseBitReader<'a>);

/// The bits that a reverse reader has not handed out yet, next one first.
pub uninterp spec fn unread_bits(reader: ReverseBitReader<'_>) -> Seq<bool>;

/// The bits of a buffer below its highest set one, from the top down.
pub open spec fn marked_bits(data: Seq<u8>) -> Seq<bool> {
    let top = 8 * (data.len() - 1) + bit_length(data.last() as nat) - 1;
    Seq::new(top as nat, |i: int| bit_at(data, top - 1 - i))
}

/// The integer that bits stand for, most significant bit first.
pub open spec fn be_bits(bits: Seq<bool>) -> nat
    decreases bits.len(),
{
    if bits.len() == 0 {
        0
    } else {
        2 * be_bits(bits.drop_last()) + (if bits.last() {
            1nat
        } else {
            0nat
        })
    }
}

pub proof fn lemma_be_bits_bound(bits: Seq<bool>)
    ensures
        be_bits(bits) < bit_range(bits.len()),
    decreases bits.len(),
{
    if bits.len() > 0 {
        lemma_be_bits_bound(bits.drop_last());
    }
}

/// The error of opening a reverse bit stream, if any.
pub open spec fn reverse_open_error(data: Seq<u8>) -> Option<Seq<char>> {
    if data.len() == 0 {
        Some("unexpected end of input"@)
    } else if data.last() == 0 {
        Some("corrupt sequences section"@)
    } else {
        None
    }
}

/// Opens a reverse bit stream, by `ReverseBitReader::new`: an empty buffer and one
/// that ends in a zero byte are refused with the text of the crate's error, any
/// other hands out its bits below the highest set one, from the top down.
#[verifier::external_body]
fn open_reader<'a>(data: &'a [u8]) -> (result: Result<ReverseBitReader<'a>, String>)
    ensures
        match result {
            Ok(reader) => reverse_open_error(data@) is None && unread_bits(reader) == marked_bits(
                data@,
            ),
            Err(text) => reverse_open_error(data@) == Some(text@),
        },
{
    ReverseBitReader::new(data).map_err(|err| format!("{err}"))
}

/// Reads up to 32 bits, by `ReverseBitReader::read_bits`: the next `count` bits,
/// most significant first, or the text of the crate's error where fewer are left,
/// in which case none is taken.
#[verifier::external_body]
fn take_bits<'a>(reader: &mut ReverseBitReader<'a>, count: u8) -> (result: Result<u32, String>)
    requires
        count <= 32,
    ensures
        match result {
            Ok(value) => count <= unread_bits(*old(reader)).len() && value as nat == be_bits(
                unread_bits(*old(reader)).take(count as int),
            ) && unread_bits(*final(reader)) == unread_bits(*old(reader)).skip(count as int),
            Err(text) => count > unread_bits(*old(reader)).len() && text@
                == "unexpected end of input"@ && unread_bits(*final(reader)) == unread_bits(
                *old(reader),
            ),
        },
{
    reader.read_bits(count).map_err(|err| format!("{err}"))
}

/// Counts the bits that are left, by `ReverseBitReader::bits_remaining`. The count
/// must fit a `usize`, in which the crate computes it.
#[verifier::external_body]
pub(crate) fn bits_left(reader: &ReverseBitReader<'_>) -> (count: usize)
    requires
        unread_bits(*reader).len() <= usize::MAX,
    ensures
        count == unread_bits(*reader).len(),
{
    reader.bits_remaining()
}

/// Looks at up to 32 bits, by `ReverseBitReader::peek_bits`, for which
/// `ReverseBitReader::refill` makes them available: the next `count` bits, most
/// significant first. None is taken.
#[verifier::external_body]
pub(crate) fn peek_next(reader: &mut ReverseBitReader<'_>, count: u8) -> (value: u32)
    requires
        count <= 32,
        count <= unread_bits(*old(reader)).len(),
    ensures
        value as nat == be_bits(unread_bits(*old(reader)).take(count as int)),
        unread_bits(*final(reader)) == unread_bits(*old(reader)),
{
    reader.refill();
    reader.peek_bits(count)
}

/// Drops up to 32 bits, by `ReverseBitReader::consume_bits`, for which
/// `ReverseBitReader::refill` makes them available.
#[verifier::external_body]
pub(crate) fn drop_bits(reader: &mut ReverseBitReader<'_>, count: u8)
    requires
        count <= 32,
        count <= unread_bits(*old(reader)).len(),
    ensures
        unread_bits(*final(reader)) == unread_bits(*old(reader)).skip(count as int),
{
    reader.refill();
    reader.consume_bits(count);
}

/// Opens a reverse bit stream.
pub(crate) fn open_reverse<'a>(data: &'a [u8]) -> (result: Result<ReverseBitReader<'a>, Error>)
    ensures
        match result {
            Ok(reader) => reverse_open_error(data@) is None && unread_bits(reader) == marked_bits(
                data@,
            ),
            Err(error) => match reverse_open_error(data@) {
                Some(text) => error@ == detailed(ErrorKind::Malformed, text),
                None => false,
            },
        },
{
    match open_reader(data) {
        Ok(reader) => Ok(reader),
        Err(text) => Err(fail(ErrorKind::Malformed, text.as_str())),
    }
}

/// What reading `count` bits off the front of `unread` gives.
pub open spec fn reverse_read(unread: Seq<bool>, count: nat) -> Result<
    (nat, Seq<bool>),
    ErrorView,
> {
    if count > unread.len() {
        Err(detailed(ErrorKind::Malformed, "unexpected end of input"@))
    } else {
        Ok((be_bits(unread.take(count as int)), unread.skip(count as int)))
    }
}

/// Reads up to 32 bits.
pub(crate) fn read_reverse<'a>(reader: &mut ReverseBitReader<'a>, count: u8) -> (result: Result<
    u32,
    Error,
>)
    requires
        count <= 32,
    ensures
        match result {
            Ok(value) => reverse_read(unread_bits(*old(reader)), count as nat) == Ok::<
                (nat, Seq<bool>),
                ErrorView,
            >((value as nat, unread_bits(*final(reader)))),
            Err(error) => reverse_read(unread_bits(*old(reader)), count as nat) == Err::<
                (nat, Seq<bool>),
                ErrorView,
            >(error@),
        },
        unread_bits(*final(reader)).len() <= unread_bits(*old(reader)).len(),
{
    match take_bits(reader, count) {
        Ok(value) => Ok(value),
        Err(text) => Err(fail(ErrorKind::Malformed, text.as_str())),
    }
}

} // verus!
