//! What the deprecated LZ transforms share: a size prefix, and byte lists that are
//! stored raw or as one repeated value.

use vstd::prelude::*;
use vstd::slice::slice_subrange;

use crate::bytes::{
    append_bytes, le_value, lemma_byte_range_values, lemma_le_value_bound, read_le, read_var_u64,
    var_u64,
};
use crate::error::{detailed, fail, plain, Error, ErrorKind, ErrorView};
use crate::limits::{check_output_limit, output_limit_error, Limits};
use crate::stream::{join_text, StreamInput, StreamView};

verus! {

/// The decoded size in front of a payload, or why the stream is refused.
pub open spec fn size_prefix(source: StreamView, limits: Limits, name: Seq<char>) -> Result<
    nat,
    ErrorView,
> {
    let size = le_value(source.bytes.subrange(0, 4));
    if source.element_width != 1 {
        Err(detailed(ErrorKind::InvalidType, name + " input must be serial"@))
    } else if source.bytes.len() < 4 {
        Err(detailed(ErrorKind::Truncated, "deprecated lz stream is missing size prefix"@))
    } else if !limits.admits(size as int) {
        Err(output_limit_error())
    } else {
        Ok(size)
    }
}

/// Splits a stream into its decoded size and its payload.
pub(crate) fn parse_deprecated_lz_stored_stream<'a>(
    source: StreamInput<'a>,
    limits: Limits,
    name: &str,
) -> (result: Result<(usize, &'a [u8]), Error>)
    ensures
        match result {
            Ok((size, payload)) => size_prefix(source@, limits, name@) == Ok::<nat, ErrorView>(
                size as nat,
            ) && payload@ == source.bytes@.subrange(4, source.bytes@.len() as int),
            Err(error) => size_prefix(source@, limits, name@) == Err::<nat, ErrorView>(error@),
        },
{
    if source.element_width != 1 {
        let text = join_text(name, " input must be serial");
        return Err(fail(ErrorKind::InvalidType, text.as_str()));
    }
    if source.bytes.len() < 4 {
        return Err(fail(ErrorKind::Truncated, "deprecated lz stream is missing size prefix"));
    }
    proof {
        lemma_le_value_bound(source.bytes@.subrange(0, 4));
        lemma_byte_range_values();
    }
    let size: usize = read_le(source.bytes, 0, 4) as usize;
    check_output_limit(size, limits)?;
    Ok((size, slice_subrange(source.bytes, 4, source.bytes.len())))
}

/// The mode and the element count at `offset`, and the offset behind them.
pub open spec fn entropy_header(source: Seq<u8>, offset: nat, name: Seq<char>) -> Result<
    (nat, nat, nat),
    ErrorView,
> {
    if offset >= source.len() {
        Err(detailed(ErrorKind::Truncated, name + " entropy header is truncated"@))
    } else {
        let header = source[offset as int] as nat;
        if header < 128 {
            Ok((header % 8, header / 8, offset + 1))
        } else {
            match var_u64(source, offset as int + 1) {
                Err(error) => Err(error),
                Ok((high, end)) => {
                    let count = header / 8 % 16 + high * 16;
                    if high > 0xfff_ffff_ffff_ffff {
                        Err(plain(ErrorKind::IntegerOverflow))
                    } else if count > usize::MAX {
                        Err(detailed(ErrorKind::LimitExceeded, name + " output size is too large"@))
                    } else {
                        Ok((header % 8, count as nat, end as nat))
                    }
                },
            }
        }
    }
}

/// Reads the mode and the element count at `*offset`.
fn read_legacy_entropy_header(source: &[u8], offset: &mut usize, name: &str) -> (result: Result<
    (u8, usize),
    Error,
>)
    requires
        *old(offset) <= source@.len(),
    ensures
        *old(offset) <= *final(offset) <= source@.len(),
        match result {
            Ok((mode, count)) => entropy_header(source@, *old(offset) as nat, name@) == Ok::<
                (nat, nat, nat),
                ErrorView,
            >((mode as nat, count as nat, *final(offset) as nat)),
            Err(error) => entropy_header(source@, *old(offset) as nat, name@) == Err::<
                (nat, nat, nat),
                ErrorView,
            >(error@),
        },
{
    if *offset >= source.len() {
        let text = join_text(name, " entropy header is truncated");
        return Err(fail(ErrorKind::Truncated, text.as_str()));
    }
    let header: u8 = source[*offset];
    *offset = *offset + 1;
    if header < 128 {
        return Ok((header % 8, (header / 8) as usize));
    }
    let high: u64 = read_var_u64(source, offset)?;
    if high > 0xfff_ffff_ffff_ffff {
        return Err(Error::new(ErrorKind::IntegerOverflow));
    }
    let count: u64 = (header / 8 % 16) as u64 + high * 16;
    if count > usize::MAX as u64 {
        let text = join_text(name, " output size is too large");
        return Err(fail(ErrorKind::LimitExceeded, text.as_str()));
    }
    Ok((header % 8, count as usize))
}

/// The error of a mode that is not read here.
pub open spec fn entropy_mode_error(mode: nat, name: Seq<char>) -> ErrorView {
    if mode == 6 || mode == 7 {
        detailed(ErrorKind::Malformed, name + " entropy mode is reserved"@)
    } else {
        detailed(ErrorKind::Unsupported, name + " entropy mode is unsupported"@)
    }
}

fn refuse_entropy_mode(mode: u8, name: &str) -> (error: Error)
    ensures
        error@ == entropy_mode_error(mode as nat, name@),
{
    if mode == 6 || mode == 7 {
        let text = join_text(name, " entropy mode is reserved");
        fail(ErrorKind::Malformed, text.as_str())
    } else {
        let text = join_text(name, " entropy mode is unsupported");
        fail(ErrorKind::Unsupported, text.as_str())
    }
}

/// `len` bytes at `offset`, and the offset behind them.
pub open spec fn raw_bytes(source: Seq<u8>, offset: nat, len: nat) -> Result<
    (Seq<u8>, nat),
    ErrorView,
> {
    if len > usize::MAX || offset + len > usize::MAX {
        Err(plain(ErrorKind::IntegerOverflow))
    } else if offset + len > source.len() {
        Err(plain(ErrorKind::Truncated))
    } else {
        Ok((source.subrange(offset as int, (offset + len) as int), offset + len))
    }
}

/// The byte list at `offset`, and the offset behind it.
pub open spec fn literal_payload(source: Seq<u8>, offset: nat, name: Seq<char>) -> Result<
    (Seq<u8>, nat),
    ErrorView,
> {
    match entropy_header(source, offset, name) {
        Err(error) => Err(error),
        Ok((mode, count, offset)) => if mode == 2 {
            if offset >= source.len() {
                Err(plain(ErrorKind::Truncated))
            } else {
                Ok((Seq::new(count, |i: int| source[offset as int]), offset + 1))
            }
        } else if mode == 3 {
            raw_bytes(source, offset, count)
        } else {
            Err(entropy_mode_error(mode, name))
        },
    }
}

/// The raw list of `width`-byte elements at `offset`, and the offset behind it.
pub open spec fn raw_payload(source: Seq<u8>, offset: nat, width: nat, name: Seq<char>) -> Result<
    (Seq<u8>, nat),
    ErrorView,
> {
    match entropy_header(source, offset, name) {
        Err(error) => Err(error),
        Ok((mode, count, offset)) => if mode == 3 {
            raw_bytes(source, offset, count * width)
        } else {
            Err(entropy_mode_error(mode, name))
        },
    }
}

/// A list of bytes: as it stands, or one value over and over.
#[derive(Clone, Copy)]
pub enum LiteralPayload<'a> {
    Raw(&'a [u8]),
    Constant { value: u8, count: usize },
}

impl<'a> LiteralPayload<'a> {
    /// The bytes of the list.
    pub open spec fn content(self) -> Seq<u8> {
        match self {
            LiteralPayload::Raw(bytes) => bytes@,
            LiteralPayload::Constant { value, count } => Seq::new(count as nat, |i: int| value),
        }
    }

    /// The number of bytes of the list.
    pub fn byte_len(&self) -> (len: usize)
        ensures
            len == self.content().len(),
    {
        match self {
            LiteralPayload::Raw(bytes) => bytes.len(),
            LiteralPayload::Constant { value: _, count } => *count,
        }
    }

    /// Byte `index` of the list.
    pub fn byte_at(&self, index: usize) -> (byte: u8)
        requires
            index < self.content().len(),
        ensures
            byte == self.content()[index as int],
    {
        match self {
            LiteralPayload::Raw(bytes) => bytes[index],
            LiteralPayload::Constant { value, count: _ } => *value,
        }
    }

    /// Appends the bytes from `start` to `end`.
    pub fn append_range(&self, start: usize, end: usize, output: &mut Vec<u8>)
        requires
            start <= end <= self.content().len(),
        ensures
            final(output)@ == old(output)@ + self.content().subrange(start as int, end as int),
    {
        match self {
            LiteralPayload::Raw(bytes) => {
                append_bytes(output, slice_subrange(bytes, start, end));
            },
            LiteralPayload::Constant { value, count } => {
                let ghost before = output@;
                let mut index: usize = start;
                while index < end
                    invariant
                        start <= index <= end <= *count,
                        output@ =~= before + Seq::new(
                            (index - start) as nat,
                            |i: int| *value,
                        ),
                    decreases end - index,
                {
                    output.push(*value);
                    index = index + 1;
                }
                proof {
                    assert(output@ =~= before + self.content().subrange(start as int, end as int));
                }
            },
        }
    }
}

/// Takes `len` bytes at `*offset`.
fn take_raw_bytes<'a>(source: &'a [u8], offset: &mut usize, len: usize) -> (result: Result<
    &'a [u8],
    Error,
>)
    requires
        *old(offset) <= source@.len(),
    ensures
        *old(offset) <= *final(offset) <= source@.len(),
        match result {
            Ok(bytes) => raw_bytes(source@, *old(offset) as nat, len as nat) == Ok::<
                (Seq<u8>, nat),
                ErrorView,
            >((bytes@, *final(offset) as nat)),
            Err(error) => raw_bytes(source@, *old(offset) as nat, len as nat) == Err::<
                (Seq<u8>, nat),
                ErrorView,
            >(error@),
        },
{
    let end: usize = match offset.checked_add(len) {
        Some(end) => end,
        None => {
            return Err(Error::new(ErrorKind::IntegerOverflow));
        },
    };
    if end > source.len() {
        return Err(Error::new(ErrorKind::Truncated));
    }
    let bytes = slice_subrange(source, *offset, end);
    *offset = end;
    Ok(bytes)
}

/// Reads the byte list at `*offset`.
pub(crate) fn parse_legacy_literal_entropy_payload<'a>(
    source: &'a [u8],
    offset: &mut usize,
    name: &str,
) -> (result: Result<LiteralPayload<'a>, Error>)
    requires
        *old(offset) <= source@.len(),
    ensures
        *old(offset) <= *final(offset) <= source@.len(),
        match result {
            Ok(payload) => literal_payload(source@, *old(offset) as nat, name@) == Ok::<
                (Seq<u8>, nat),
                ErrorView,
            >((payload.content(), *final(offset) as nat)),
            Err(error) => literal_payload(source@, *old(offset) as nat, name@) == Err::<
                (Seq<u8>, nat),
                ErrorView,
            >(error@),
        },
{
    let (mode, count) = read_legacy_entropy_header(source, offset, name)?;
    if mode == 2 {
        if *offset >= source.len() {
            return Err(Error::new(ErrorKind::Truncated));
        }
        let value: u8 = source[*offset];
        *offset = *offset + 1;
        return Ok(LiteralPayload::Constant { value, count });
    }
    if mode == 3 {
        let bytes = take_raw_bytes(source, offset, count)?;
        return Ok(LiteralPayload::Raw(bytes));
    }
    Err(refuse_entropy_mode(mode, name))
}

/// Reads the raw list of `width`-byte elements at `*offset`.
pub(crate) fn parse_legacy_raw_entropy_slice<'a>(
    source: &'a [u8],
    offset: &mut usize,
    width: usize,
    name: &str,
) -> (result: Result<&'a [u8], Error>)
    requires
        *old(offset) <= source@.len(),
    ensures
        *old(offset) <= *final(offset) <= source@.len(),
        match result {
            Ok(bytes) => raw_payload(source@, *old(offset) as nat, width as nat, name@) == Ok::<
                (Seq<u8>, nat),
                ErrorView,
            >((bytes@, *final(offset) as nat)),
            Err(error) => raw_payload(source@, *old(offset) as nat, width as nat, name@) == Err::<
                (Seq<u8>, nat),
                ErrorView,
            >(error@),
        },
{
    let (mode, count) = read_legacy_entropy_header(source, offset, name)?;
    if mode != 3 {
        return Err(refuse_entropy_mode(mode, name));
    }
    let len: usize = match count.checked_mul(width) {
        Some(len) => len,
        None => {
            return Err(Error::new(ErrorKind::IntegerOverflow));
        },
    };
    take_raw_bytes(source, offset, len)
}

/// The slice at `offset` that its size precedes, and the offset behind it.
pub open spec fn sized_slice(source: Seq<u8>, offset: nat, name: Seq<char>) -> Result<
    (Seq<u8>, nat),
    ErrorView,
> {
    match var_u64(source, offset as int) {
        Err(error) => Err(error),
        Ok((size, start)) => if size > usize::MAX {
            Err(detailed(ErrorKind::LimitExceeded, name + " stream is too large"@))
        } else if start + size > usize::MAX {
            Err(plain(ErrorKind::IntegerOverflow))
        } else if start + size > source.len() {
            Err(detailed(ErrorKind::Truncated, name + " stream is truncated"@))
        } else {
            Ok((source.subrange(start, start + size), (start + size) as nat))
        },
    }
}

/// Reads the slice at `*offset` that its size precedes.
pub(crate) fn read_deprecated_lz_sized_slice<'a>(
    source: &'a [u8],
    offset: &mut usize,
    name: &str,
) -> (result: Result<&'a [u8], Error>)
    requires
        *old(offset) <= source@.len(),
    ensures
        *old(offset) <= *final(offset) <= source@.len(),
        match result {
            Ok(bytes) => sized_slice(source@, *old(offset) as nat, name@) == Ok::<
                (Seq<u8>, nat),
                ErrorView,
            >((bytes@, *final(offset) as nat)),
            Err(error) => sized_slice(source@, *old(offset) as nat, name@) == Err::<
                (Seq<u8>, nat),
                ErrorView,
            >(error@),
        },
{
    let size: u64 = read_var_u64(source, offset)?;
    if size > usize::MAX as u64 {
        let text = join_text(name, " stream is too large");
        return Err(fail(ErrorKind::LimitExceeded, text.as_str()));
    }
    let end: usize = match offset.checked_add(size as usize) {
        Some(end) => end,
        None => {
            return Err(Error::new(ErrorKind::IntegerOverflow));
        },
    };
    if end > source.len() {
        let text = join_text(name, " stream is truncated");
        return Err(fail(ErrorKind::Truncated, text.as_str()));
    }
    let bytes = slice_subrange(source, *offset, end);
    *offset = end;
    Ok(bytes)
}

/// The 32-bit integer at `offset`.
pub open spec fn le_u32_at(source: Seq<u8>, offset: nat, name: Seq<char>) -> Result<
    nat,
    ErrorView,
> {
    if offset + 4 > source.len() {
        Err(detailed(ErrorKind::Truncated, name + " is truncated"@))
    } else {
        Ok(le_value(source.subrange(offset as int, offset as int + 4)))
    }
}

/// Reads the 32-bit integer at `offset`.
pub(crate) fn read_deprecated_lz_le_u32(source: &[u8], offset: usize, name: &str) -> (result: Result<
    usize,
    Error,
>)
    requires
        offset <= source@.len(),
    ensures
        match result {
            Ok(value) => le_u32_at(source@, offset as nat, name@) == Ok::<nat, ErrorView>(
                value as nat,
            ) && offset + 4 <= source@.len(),
            Err(error) => le_u32_at(source@, offset as nat, name@) == Err::<nat, ErrorView>(error@),
        },
{
    if source.len() - offset < 4 {
        let text = join_text(name, " is truncated");
        return Err(fail(ErrorKind::Truncated, text.as_str()));
    }
    proof {
        lemma_le_value_bound(source@.subrange(offset as int, offset + 4));
        lemma_byte_range_values();
    }
    Ok(read_le(source, offset, 4) as usize)
}

/// The byte list at `offset`, which must have `expected` bytes, and the offset behind it.
pub open spec fn entropy_list(
    source: Seq<u8>,
    offset: nat,
    expected: nat,
    limits: Limits,
    name: Seq<char>,
) -> Result<(Seq<u8>, nat), ErrorView> {
    match literal_payload(source, offset, name) {
        Err(error) => Err(error),
        Ok((bytes, end)) => if bytes.len() != expected {
            Err(detailed(ErrorKind::Malformed, name + " count is invalid"@))
        } else if expected > limits.max_buffer_bytes {
            Err(detailed(ErrorKind::LimitExceeded, name + " exceeds buffer limit"@))
        } else {
            Ok((bytes, end))
        },
    }
}

/// Reads the byte list at `*offset`, which must have `expected` bytes.
pub(crate) fn decode_deprecated_lz_entropy_payload_to_vec(
    source: &[u8],
    offset: &mut usize,
    expected: usize,
    limits: Limits,
    name: &str,
) -> (result: Result<Vec<u8>, Error>)
    requires
        *old(offset) <= source@.len(),
    ensures
        *old(offset) <= *final(offset) <= source@.len(),
        match result {
            Ok(bytes) => entropy_list(
                source@,
                *old(offset) as nat,
                expected as nat,
                limits,
                name@,
            ) == Ok::<(Seq<u8>, nat), ErrorView>((bytes@, *final(offset) as nat)),
            Err(error) => entropy_list(
                source@,
                *old(offset) as nat,
                expected as nat,
                limits,
                name@,
            ) == Err::<(Seq<u8>, nat), ErrorView>(error@),
        },
{
    let payload = parse_legacy_literal_entropy_payload(source, offset, name)?;
    let len: usize = payload.byte_len();
    if len != expected {
        let text = join_text(name, " count is invalid");
        return Err(fail(ErrorKind::Malformed, text.as_str()));
    }
    if expected > limits.max_buffer_bytes {
        let text = join_text(name, " exceeds buffer limit");
        return Err(fail(ErrorKind::LimitExceeded, text.as_str()));
    }
    let mut output: Vec<u8> = Vec::new();
    payload.append_range(0, len, &mut output);
    proof {
        assert(output@ =~= payload.content());
    }
    Ok(output)
}

/// The error of a literal list that ends too early.
pub open spec fn literals_short_error() -> ErrorView {
    detailed(ErrorKind::Malformed, "fastlz_deprecated literal stream is too short"@)
}

/// What taking `len` literals at `position` appends.
pub open spec fn literal_range(content: Seq<u8>, position: nat, len: nat) -> Result<
    Seq<u8>,
    ErrorView,
> {
    if position + len > usize::MAX {
        Err(plain(ErrorKind::IntegerOverflow))
    } else if position + len > content.len() {
        Err(literals_short_error())
    } else {
        Ok(content.subrange(position as int, (position + len) as int))
    }
}

/// Takes literals off the front of a list.
pub struct LiteralCursor<'a> {
    payload: LiteralPayload<'a>,
    offset: usize,
}

impl<'a> LiteralCursor<'a> {
    /// The bytes of the whole list.
    pub closed spec fn content(self) -> Seq<u8> {
        self.payload.content()
    }

    /// How many bytes were taken.
    pub closed spec fn position(self) -> nat {
        self.offset as nat
    }

    /// No more was taken than there is.
    pub closed spec fn well_formed(self) -> bool {
        self.offset <= self.payload.content().len()
    }

    pub fn new(payload: LiteralPayload<'a>) -> (cursor: Self)
        ensures
            cursor.content() == payload.content(),
            cursor.position() == 0,
            cursor.well_formed(),
    {
        LiteralCursor { payload, offset: 0 }
    }

    /// Counts the bytes that are left.
    pub fn remaining_len(&self) -> (len: usize)
        requires
            self.well_formed(),
        ensures
            len == self.content().len() - self.position(),
            len + self.position() <= usize::MAX,
    {
        self.payload.byte_len() - self.offset
    }

    /// Appends the next `len` bytes.
    pub fn extend_next(&mut self, len: usize, output: &mut Vec<u8>) -> (result: Result<(), Error>)
        requires
            old(self).well_formed(),
        ensures
            final(self).well_formed(),
            final(self).content() == old(self).content(),
            match literal_range(old(self).content(), old(self).position(), len as nat) {
                Ok(bytes) => result is Ok && final(output)@ == old(output)@ + bytes
                    && final(self).position() == old(self).position() + len,
                Err(error) => result is Err && result->Err_0@ == error && final(output)@ == old(output)@
                    && final(self).position() == old(self).position(),
            },
    {
        let end: usize = match self.offset.checked_add(len) {
            Some(end) => end,
            None => {
                return Err(Error::new(ErrorKind::IntegerOverflow));
            },
        };
        if end > self.payload.byte_len() {
            return Err(
                fail(ErrorKind::Malformed, "fastlz_deprecated literal stream is too short"),
            );
        }
        self.payload.append_range(self.offset, end, output);
        self.offset = end;
        Ok(())
    }
}

} // verus!
