//! The frame grammar.

use vstd::prelude::*;
use vstd::slice::slice_subrange;

use crate::bits::{
    bit_at, bit_field, bit_length, bit_range, count_bits, lemma_bit_field_bound,
    lemma_bit_length_bound, lemma_bit_range_monotone, lemma_bit_range_values, read_bit_field,
};
use crate::bytes::{
    copy_bytes, le_value, lemma_byte_range_values, lemma_le_value_bound, read_le, read_var_u64,
    var_u64,
};
use crate::codecs::{hash_bytes, xxh3_hash};
use crate::dict::same_bytes;
use crate::error::{detailed, fail, located, located_detailed, outcome, Error, ErrorKind, ErrorView};
use crate::frame_plan::{
    chunk_views, node_views, ByteRange, ChunkPlan, ChunkView, FrameInfo, FrameInfoView, FramePlan,
    FrameValueType, FrameView, NodePlan, NodeView,
};
use crate::limits::Limits;
use crate::standard::{transform_id_error, validate_transform_id};

verus! {

/// What the magic number of a frame is, less its format version.
pub const MAGIC_BASE: u32 = 0xd7b1_a5c0;

/// The oldest format version with this grammar.
pub const MIN_VERSION: u32 = 21;

/// The newest format version with this grammar.
pub const MAX_VERSION: u32 = 27;

/// The first format version whose transform identifiers take seven bits.
pub const WIDE_ID_VERSION: u32 = 24;

/// How many fields of up to 32 bits can be counted bit by bit.
pub const MAX_GRAPH_ITEMS: usize = usize::MAX / 32;

/// The magic number of a frame that states its version as an integer.
pub open spec fn tagged_magic() -> Seq<u8> {
    seq![0x28u8, 0x5a, 0x4c, 0x29]
}

/// The error of a frame that is over a limit.
pub open spec fn limit_error() -> ErrorView {
    detailed(ErrorKind::LimitExceeded, "configured limit exceeded"@)
}

/// Holds a value to a limit.
pub fn check_limit(value: usize, limit: usize) -> (result: Result<(), Error>)
    ensures
        match result {
            Ok(_) => value <= limit,
            Err(error) => value > limit && error@ == limit_error(),
        },
{
    if value > limit {
        return Err(fail(ErrorKind::LimitExceeded, "configured limit exceeded"));
    }
    Ok(())
}

/// The smaller of a limit and what the grammar can count: a stream is found by a distance
/// of 32 bits at most, and each transform regenerates a stream.
pub open spec fn graph_limit(limit: usize) -> nat {
    if limit <= MAX_GRAPH_ITEMS && limit <= u32::MAX {
        limit as nat
    } else if MAX_GRAPH_ITEMS <= u32::MAX {
        MAX_GRAPH_ITEMS as nat
    } else {
        u32::MAX as nat
    }
}

fn bounded_limit(limit: usize) -> (bounded: usize)
    ensures
        bounded as nat == graph_limit(limit),
{
    let addressed: u64 = u32::MAX as u64;
    if limit <= MAX_GRAPH_ITEMS && limit as u64 <= addressed {
        limit
    } else if MAX_GRAPH_ITEMS as u64 <= addressed {
        MAX_GRAPH_ITEMS
    } else {
        addressed as usize
    }
}

/// The byte at `offset`, and the offset behind it.
pub open spec fn byte_at(input: Seq<u8>, offset: nat) -> Result<(u8, nat), ErrorView> {
    if offset >= input.len() {
        Err(located(ErrorKind::Truncated, offset as int))
    } else {
        Ok((input[offset as int], offset + 1))
    }
}

/// `len` bytes at `offset`, and the offset behind them.
pub open spec fn slice_at(input: Seq<u8>, offset: nat, len: nat) -> Result<
    (Seq<u8>, nat),
    ErrorView,
> {
    if offset + len > input.len() {
        Err(located(ErrorKind::Truncated, offset as int))
    } else {
        Ok((input.subrange(offset as int, (offset + len) as int), offset + len))
    }
}

/// The weight of group `index` of a 32-bit variable-length integer.
pub open spec fn group_unit(index: nat) -> nat {
    if index == 0 {
        1
    } else if index == 1 {
        0x80
    } else if index == 2 {
        0x4000
    } else if index == 3 {
        0x20_0000
    } else {
        0x1000_0000
    }
}

/// The 32-bit variable-length integer at `start`, of which `index` bytes with the
/// value `value` were read. Bits beyond the 32nd are dropped.
pub open spec fn var_u32_from(input: Seq<u8>, start: nat, index: nat, value: nat) -> Result<
    (u32, nat),
    ErrorView,
>
    decreases 5 - index,
{
    let position = start + index;
    if index >= 5 {
        Err(located_detailed(ErrorKind::Malformed, start as int, "u32 varint is too long"@))
    } else if position >= input.len() {
        Err(located(ErrorKind::Truncated, position as int))
    } else {
        let payload = input[position as int] as nat % 128;
        let next = value + payload * group_unit(index) % 0x1_0000_0000;
        if input[position as int] < 128 {
            Ok((next as u32, position + 1))
        } else {
            var_u32_from(input, start, index + 1, next)
        }
    }
}

/// Reads the parts of a frame one after the other.
pub struct Reader<'a> {
    bytes: &'a [u8],
    offset: usize,
}

impl<'a> Reader<'a> {
    /// All bytes.
    pub closed spec fn source(self) -> Seq<u8> {
        self.bytes@
    }

    /// How many bytes were read.
    pub closed spec fn position(self) -> nat {
        self.offset as nat
    }

    /// No more was read than there is.
    pub closed spec fn well_formed(self) -> bool {
        self.offset <= self.bytes@.len()
    }

    pub fn new(bytes: &'a [u8]) -> (reader: Self)
        ensures
            reader.source() == bytes@,
            reader.position() == 0,
            reader.well_formed(),
    {
        Reader { bytes, offset: 0 }
    }

    /// How many bytes were read.
    pub fn offset(&self) -> (offset: usize)
        requires
            self.well_formed(),
        ensures
            offset == self.position(),
            offset <= self.source().len() <= usize::MAX,
    {
        proof {
            assert(self.bytes@.len() == self.bytes.len());
        }
        self.offset
    }

    /// Reads a byte.
    pub fn read_byte(&mut self) -> (result: Result<u8, Error>)
        requires
            old(self).well_formed(),
        ensures
            final(self).well_formed(),
            final(self).source() == old(self).source(),
            old(self).position() <= final(self).position(),
            match byte_at(old(self).source(), old(self).position()) {
                Ok((byte, end)) => result is Ok && result->Ok_0 == byte && final(self).position()
                    == end,
                Err(error) => result is Err && result->Err_0@ == error,
            },
    {
        if self.offset >= self.bytes.len() {
            return Err(Error::at(ErrorKind::Truncated, self.offset));
        }
        let byte: u8 = self.bytes[self.offset];
        self.offset = self.offset + 1;
        Ok(byte)
    }

    /// Reads `len` bytes.
    pub fn read_slice(&mut self, len: usize) -> (result: Result<&'a [u8], Error>)
        requires
            old(self).well_formed(),
        ensures
            final(self).well_formed(),
            final(self).source() == old(self).source(),
            old(self).position() <= final(self).position(),
            match slice_at(old(self).source(), old(self).position(), len as nat) {
                Ok((slice, end)) => result is Ok && result->Ok_0@ == slice
                    && final(self).position() == end,
                Err(error) => result is Err && result->Err_0@ == error,
            },
    {
        if self.bytes.len() - self.offset < len {
            return Err(Error::at(ErrorKind::Truncated, self.offset));
        }
        let end: usize = self.offset + len;
        let slice = slice_subrange(self.bytes, self.offset, end);
        self.offset = end;
        Ok(slice)
    }

    /// The bytes that were read from `start` on.
    pub fn read_since(&self, start: usize) -> (bytes: &'a [u8])
        requires
            self.well_formed(),
            start <= self.position(),
        ensures
            bytes@ == self.source().subrange(start as int, self.position() as int),
    {
        slice_subrange(self.bytes, start, self.offset)
    }

    /// Reads a 32-bit integer.
    pub fn read_u32_le(&mut self) -> (result: Result<u32, Error>)
        requires
            old(self).well_formed(),
        ensures
            final(self).well_formed(),
            final(self).source() == old(self).source(),
            old(self).position() <= final(self).position(),
            match slice_at(old(self).source(), old(self).position(), 4) {
                Ok((slice, end)) => result is Ok && result->Ok_0 as nat == le_value(slice)
                    && final(self).position() == end,
                Err(error) => result is Err && result->Err_0@ == error,
            },
    {
        let slice = self.read_slice(4)?;
        proof {
            assert(slice@.subrange(0, 4) =~= slice@);
            lemma_le_value_bound(slice@);
            lemma_byte_range_values();
        }
        Ok(read_le(slice, 0, 4) as u32)
    }

    /// Reads a variable-length integer.
    pub fn read_var_u64(&mut self) -> (result: Result<u64, Error>)
        requires
            old(self).well_formed(),
        ensures
            final(self).well_formed(),
            final(self).source() == old(self).source(),
            old(self).position() <= final(self).position(),
            match var_u64(old(self).source(), old(self).position() as int) {
                Ok((value, end)) => result is Ok && result->Ok_0 == value && final(self).position()
                    == end,
                Err(error) => result is Err && result->Err_0@ == error,
            },
    {
        let mut offset: usize = self.offset;
        let value: u64 = read_var_u64(self.bytes, &mut offset)?;
        self.offset = offset;
        Ok(value)
    }

    /// Reads a 32-bit variable-length integer.
    pub fn read_var_u32(&mut self) -> (result: Result<u32, Error>)
        requires
            old(self).well_formed(),
        ensures
            final(self).well_formed(),
            final(self).source() == old(self).source(),
            old(self).position() <= final(self).position(),
            match var_u32_from(old(self).source(), old(self).position(), 0, 0) {
                Ok((value, end)) => result is Ok && result->Ok_0 == value && final(self).position()
                    == end,
                Err(error) => result is Err && result->Err_0@ == error,
            },
    {
        let start: usize = self.offset;
        let mut value: u32 = 0;
        let mut unit: u64 = 1;
        let mut index: usize = 0;
        let ghost total = var_u32_from(self.source(), start as nat, 0, 0);
        while index < 5
            invariant
                index <= 5,
                self.well_formed(),
                self.source() == old(self).source(),
                start == old(self).position(),
                self.position() == start + index,
                index < 5 ==> unit as nat == group_unit(index as nat),
                index < 5 ==> (value as nat) < group_unit(index as nat),
                total == var_u32_from(old(self).source(), old(self).position(), 0, 0),
                total == var_u32_from(self.source(), start as nat, index as nat, value as nat),
            decreases 5 - index,
        {
            let byte: u8 = self.read_byte()?;
            let shifted: u64 = (byte % 128) as u64 * unit % 0x1_0000_0000;
            value = value + shifted as u32;
            if byte < 128 {
                return Ok(value);
            }
            unit = unit * 128;
            index = index + 1;
        }
        Err(Error::at(ErrorKind::Malformed, start).with_detail("u32 varint is too long"))
    }
}

/// What the start of a frame says.
#[verifier::ext_equal]
pub struct HeaderView {
    pub version: u32,
    pub decoded_checksum: bool,
    pub encoded_checksum: bool,
    pub bundle_id: Option<Seq<u8>>,
    pub decoded_size: Option<u64>,
}

/// The identifier of the dictionary bundle at `offset`, where there is one, and the
/// offset behind it.
pub open spec fn bundle_id_at(input: Seq<u8>, offset: nat, present: bool) -> Result<
    (Option<Seq<u8>>, nat),
    ErrorView,
> {
    if !present {
        Ok((None, offset))
    } else {
        match byte_at(input, offset) {
            Err(error) => Err(error),
            Ok((len, offset)) => match slice_at(input, offset, len as nat) {
                Err(error) => Err(error),
                Ok((id, offset)) => Ok((Some(id), offset)),
            },
        }
    }
}

/// The type and the size of the output at `offset`, and the offset behind them. The
/// size is stated one too large; zero leaves it open.
pub open spec fn output_at(input: Seq<u8>, offset: nat) -> Result<(Option<u64>, nat), ErrorView> {
    match byte_at(input, offset) {
        Err(error) => Err(error),
        Ok((kind, next)) => if kind != 1 {
            Err(
                located_detailed(
                    ErrorKind::Unsupported,
                    offset as int,
                    "only single serial output frames are implemented"@,
                ),
            )
        } else {
            match var_u64(input, next as int) {
                Err(error) => Err(error),
                Ok((size, next)) => if size == 0 {
                    Ok((None, next as nat))
                } else if size - 1 > usize::MAX {
                    Err(
                        detailed(
                            ErrorKind::LimitExceeded,
                            "decoded output size is too large"@,
                        ),
                    )
                } else {
                    Ok((Some((size - 1) as u64), next as nat))
                },
            }
        },
    }
}

/// The offset behind the checksum of the header, where there is one: it is the low
/// byte of the hash of all bytes in front of it.
pub open spec fn header_checksum_at(input: Seq<u8>, offset: nat, present: bool) -> Result<
    nat,
    ErrorView,
> {
    if !present {
        Ok(offset)
    } else {
        match byte_at(input, offset) {
            Err(error) => Err(error),
            Ok((checksum, next)) => if xxh3_hash(input.subrange(0, offset as int)) % 256
                != checksum {
                Err(detailed(ErrorKind::ChecksumMismatch, "frame header checksum mismatch"@))
            } else {
                Ok(next)
            },
        }
    }
}

/// What follows the flags at offset four, and the offset behind it.
pub open spec fn flagged_header(input: Seq<u8>, version: u32, flags: u8) -> Result<
    (HeaderView, nat),
    ErrorView,
> {
    if flags >= 16 {
        Err(located_detailed(ErrorKind::Malformed, 4, "reserved frame flags are set"@))
    } else if flags / 4 % 2 == 1 {
        Err(located_detailed(ErrorKind::Unsupported, 4, "frame comments are unsupported"@))
    } else {
        match bundle_id_at(input, 5, flags / 8 % 2 == 1) {
            Err(error) => Err(error),
            Ok((bundle_id, offset)) => match output_at(input, offset) {
                Err(error) => Err(error),
                Ok((decoded_size, offset)) => match header_checksum_at(
                    input,
                    offset,
                    flags / 2 % 2 == 1,
                ) {
                    Err(error) => Err(error),
                    Ok(offset) => Ok(
                        (
                            HeaderView {
                                version,
                                decoded_checksum: flags % 2 == 1,
                                encoded_checksum: flags / 2 % 2 == 1,
                                bundle_id,
                                decoded_size,
                            },
                            offset,
                        ),
                    ),
                },
            },
        }
    }
}

/// What the start of a frame says, and the offset behind it.
pub open spec fn header_at(input: Seq<u8>) -> Result<(HeaderView, nat), ErrorView> {
    match slice_at(input, 0, 4) {
        Err(error) => Err(error),
        Ok((magic, offset)) => {
            let value = le_value(magic);
            if value <= MAGIC_BASE || value > MAGIC_BASE + 255 {
                Err(
                    located_detailed(ErrorKind::Unsupported, 0, "unrecognized OpenZL frame magic"@),
                )
            } else {
                let version = (value - MAGIC_BASE) as u32;
                if version < MIN_VERSION || version > MAX_VERSION {
                    Err(
                        located_detailed(
                            ErrorKind::Unsupported,
                            4,
                            "unsupported OpenZL format version"@,
                        ),
                    )
                } else {
                    match byte_at(input, 4) {
                        Err(error) => Err(error),
                        Ok((flags, offset)) => flagged_header(input, version, flags),
                    }
                }
            }
        },
    }
}

/// The bytes that hold `count` bits.
pub open spec fn bytes_for(count: nat) -> nat {
    (count + 7) / 8
}

/// Reads an integer, below `limit`, for each flag of a bitmap that is set, from
/// `index` on.
pub open spec fn flagged_from(
    input: Seq<u8>,
    flags: Seq<u8>,
    offset: nat,
    index: nat,
    count: nat,
    limit: nat,
    values: Seq<Option<u64>>,
) -> Result<(Seq<Option<u64>>, nat), ErrorView>
    decreases count - index,
{
    if index >= count {
        Ok((values, offset))
    } else if !bit_at(flags, index as int) {
        flagged_from(input, flags, offset, index + 1, count, limit, values.push(None))
    } else {
        match var_u64(input, offset as int) {
            Err(error) => Err(error),
            Ok((value, end)) => if value >= limit {
                Err(limit_error())
            } else {
                flagged_from(
                    input,
                    flags,
                    end as nat,
                    index + 1,
                    count,
                    limit,
                    values.push(Some(value)),
                )
            },
        }
    }
}

/// A bitmap of `count` flags at `offset` and an integer, below `limit`, for each one
/// that is set, and the offset behind them.
pub open spec fn flagged_at(input: Seq<u8>, offset: nat, count: nat, limit: nat) -> Result<
    (Seq<Option<u64>>, nat),
    ErrorView,
> {
    match slice_at(input, offset, bytes_for(count)) {
        Err(error) => Err(error),
        Ok((flags, offset)) => flagged_from(input, flags, offset, 0, count, limit, Seq::empty()),
    }
}

/// Reads a bitmap of `count` flags and an integer for each one that is set.
fn read_flagged(reader: &mut Reader<'_>, count: usize, limit: u64) -> (result: Result<
    Vec<Option<u64>>,
    Error,
>)
    requires
        old(reader).well_formed(),
        count <= MAX_GRAPH_ITEMS,
    ensures
        final(reader).well_formed(),
        final(reader).source() == old(reader).source(),
        old(reader).position() <= final(reader).position(),
        match flagged_at(old(reader).source(), old(reader).position(), count as nat, limit as nat) {
            Ok((values, end)) => result is Ok && result->Ok_0@ == values
                && final(reader).position() == end && values.len() == count,
            Err(error) => result is Err && result->Err_0@ == error,
        },
{
    let flags = reader.read_slice((count + 7) / 8)?;
    let mut values: Vec<Option<u64>> = Vec::new();
    let mut index: usize = 0;
    let ghost total = flagged_from(
        reader.source(),
        flags@,
        reader.position(),
        0,
        count as nat,
        limit as nat,
        Seq::empty(),
    );
    proof {
        assert(values@ =~= Seq::empty());
    }
    while index < count
        invariant
            index <= count <= MAX_GRAPH_ITEMS,
            values@.len() == index,
            flags@.len() == bytes_for(count as nat),
            reader.well_formed(),
            reader.source() == old(reader).source(),
            old(reader).position() <= reader.position(),
            total == flagged_at(
                old(reader).source(),
                old(reader).position(),
                count as nat,
                limit as nat,
            ),
            total == flagged_from(
                reader.source(),
                flags@,
                reader.position(),
                index as nat,
                count as nat,
                limit as nat,
                values@,
            ),
        decreases count - index,
    {
        let byte: u8 = flags[index / 8];
        if (byte >> ((index % 8) as u8)) & 1 == 1 {
            let value: u64 = reader.read_var_u64()?;
            if value >= limit {
                return Err(fail(ErrorKind::LimitExceeded, "configured limit exceeded"));
            }
            values.push(Some(value));
        } else {
            values.push(None);
        }
        index = index + 1;
    }
    Ok(values)
}

/// How many bits a transform identifier takes.
pub open spec fn id_bits(version: u32) -> nat {
    if version < WIDE_ID_VERSION {
        6
    } else {
        7
    }
}

/// Transform identifier `index` of a packed list.
pub open spec fn packed_id(ids: Seq<u8>, bits: nat, index: int) -> u32 {
    bit_field(ids, index * bits, bits) as u32
}

/// The error of the first identifier, from `index` on, that a format version does
/// not define, if any.
pub open spec fn ids_error(ids: Seq<u8>, version: u32, index: nat, count: nat) -> Option<ErrorView>
    decreases count - index,
{
    if index >= count {
        None
    } else {
        match transform_id_error(packed_id(ids, id_bits(version), index as int), version) {
            Some(error) => Some(error),
            None => ids_error(ids, version, index + 1, count),
        }
    }
}

/// Whether one of the first `count` flags is set.
pub open spec fn some_flag(flags: Seq<u8>, count: nat) -> bool {
    exists|i: int| 0 <= i < count && #[trigger] bit_at(flags, i)
}

/// The size of a transform header.
pub open spec fn header_size(stated: Option<u64>) -> nat {
    match stated {
        None => 0,
        Some(value) => value as nat + 1,
    }
}

/// How many inputs a transform has beyond its fixed ones.
pub open spec fn variable_count(stated: Option<u64>) -> nat {
    match stated {
        None => 0,
        Some(value) => value as nat + 1,
    }
}

/// How many streams a transform regenerates.
pub open spec fn regen_count(stated: Option<u64>) -> nat {
    match stated {
        None => 1,
        Some(value) => value as nat + 2,
    }
}

/// The size of the first `count` transform headers.
pub open spec fn header_total(stated: Seq<Option<u64>>, count: nat) -> nat
    decreases count,
{
    if count == 0 {
        0
    } else {
        header_total(stated, (count - 1) as nat) + header_size(stated[count - 1])
    }
}

/// How many streams the first `count` transforms regenerate.
pub open spec fn regen_total(stated: Seq<Option<u64>>, count: nat) -> nat
    decreases count,
{
    if count == 0 {
        0
    } else {
        regen_total(stated, (count - 1) as nat) + regen_count(stated[count - 1])
    }
}

proof fn lemma_header_total_monotone(stated: Seq<Option<u64>>, small: nat, large: nat)
    requires
        small <= large,
    ensures
        header_total(stated, small) <= header_total(stated, large),
    decreases large,
{
    if small < large {
        lemma_header_total_monotone(stated, small, (large - 1) as nat);
    }
}

proof fn lemma_regen_total_monotone(stated: Seq<Option<u64>>, small: nat, large: nat)
    requires
        small <= large,
    ensures
        regen_total(stated, small) + (large - small) <= regen_total(stated, large),
    decreases large,
{
    if small < large {
        lemma_regen_total_monotone(stated, small, (large - 1) as nat);
    }
}

/// What is stated of the transforms of a chunk.
#[verifier::ext_equal]
pub struct GraphParts {
    pub ids: Seq<u8>,
    pub headers: Seq<Option<u64>>,
    pub variables: Seq<Option<u64>>,
    pub regens: Seq<Option<u64>>,
    pub dicts: Seq<Option<u64>>,
}

/// The dictionaries of `count` transforms at `offset`, which are stated only where
/// the frame names a bundle, and the offset behind them.
pub open spec fn dicts_at(input: Seq<u8>, offset: nat, count: nat, present: bool) -> Result<
    (Seq<Option<u64>>, nat),
    ErrorView,
> {
    if present {
        flagged_at(input, offset, count, 0x1_0000_0000)
    } else {
        Ok((Seq::new(count, |i: int| None), offset))
    }
}

/// The kinds and identifiers of `count` transforms at `offset`, and the offset behind
/// them.
pub open spec fn ids_at(input: Seq<u8>, offset: nat, count: nat, version: u32) -> Result<
    (Seq<u8>, nat),
    ErrorView,
> {
    match slice_at(input, offset, bytes_for(count)) {
        Err(error) => Err(error),
        Ok((custom, next)) => if some_flag(custom, count) {
            Err(
                located_detailed(
                    ErrorKind::Unsupported,
                    offset as int,
                    "custom graph execution is unsupported"@,
                ),
            )
        } else {
            match slice_at(input, next, bytes_for(count * id_bits(version))) {
                Err(error) => Err(error),
                Ok((ids, next)) => match ids_error(ids, version, 0, count) {
                    Some(error) => Err(error),
                    None => Ok((ids, next)),
                },
            }
        },
    }
}

/// What is stated of `count` transforms at `offset`, and the offset behind it.
pub open spec fn graph_parts_at(
    input: Seq<u8>,
    offset: nat,
    count: nat,
    header: HeaderView,
    limits: Limits,
) -> Result<(GraphParts, nat), ErrorView> {
    let streams = graph_limit(limits.max_streams);
    match ids_at(input, offset, count, header.version) {
        Err(error) => Err(error),
        Ok((ids, offset)) => match flagged_at(
            input,
            offset,
            count,
            limits.max_transform_header_bytes as nat,
        ) {
            Err(error) => Err(error),
            Ok((headers, offset)) => match flagged_at(input, offset, count, streams) {
                Err(error) => Err(error),
                Ok((variables, offset)) => match flagged_at(input, offset, count, streams) {
                    Err(error) => Err(error),
                    Ok((regens, offset)) => match dicts_at(
                        input,
                        offset,
                        count,
                        header.bundle_id is Some,
                    ) {
                        Err(error) => Err(error),
                        Ok((dicts, offset)) => Ok(
                            (GraphParts { ids, headers, variables, regens, dicts }, offset),
                        ),
                    },
                },
            },
        },
    }
}

/// How many bits a distance takes, where a chunk has `streams` streams.
pub open spec fn distance_bits(streams: nat) -> nat {
    bit_length((streams - 1) as nat)
}

/// A transform, as its parts and the packed distances state it.
pub open spec fn stated_node(
    parts: GraphParts,
    version: u32,
    distances: Seq<u8>,
    width: nat,
    index: int,
) -> NodeView {
    NodeView {
        standard_id: Some(packed_id(parts.ids, id_bits(version), index)),
        variable_outputs: variable_count(parts.variables[index]) as u32,
        regen_distances: Seq::new(
            regen_count(parts.regens[index]),
            |k: int|
                bit_field(
                    distances,
                    (regen_total(parts.regens, index as nat) + k) * width,
                    width,
                ) as u32,
        ),
        dict_index: match parts.dicts[index] {
            None => None,
            Some(value) => Some(value as u32),
        },
        header_start: header_total(parts.headers, index as nat) as usize,
        header_size: header_size(parts.headers[index]) as usize,
    }
}

/// The transforms of a chunk, how many streams they regenerate, and the size of
/// their headers.
#[verifier::ext_equal]
pub struct GraphView {
    pub nodes: Seq<NodeView>,
    pub regenerated: nat,
    pub header_bytes: nat,
}

/// `count` transforms at `offset`, over `stored` stored streams, and the offset behind
/// them. The frame has `used` streams in front of them.
pub open spec fn graph_at(
    input: Seq<u8>,
    offset: nat,
    count: nat,
    stored: nat,
    used: nat,
    header: HeaderView,
    limits: Limits,
) -> Result<(GraphView, nat), ErrorView> {
    if count == 0 {
        Ok((GraphView { nodes: Seq::empty(), regenerated: 0, header_bytes: 0 }, offset))
    } else {
        match graph_parts_at(input, offset, count, header, limits) {
            Err(error) => Err(error),
            Ok((parts, offset)) => {
                let regenerated = regen_total(parts.regens, count);
                let header_bytes = header_total(parts.headers, count);
                let width = distance_bits(stored + regenerated);
                if used + stored + regenerated > graph_limit(limits.max_streams) {
                    Err(limit_error())
                } else if header_bytes > limits.max_transform_header_bytes {
                    Err(limit_error())
                } else {
                    match slice_at(input, offset, bytes_for(regenerated * width)) {
                        Err(error) => Err(error),
                        Ok((distances, offset)) => Ok(
                            (
                                GraphView {
                                    nodes: Seq::new(
                                        count,
                                        |i: int|
                                            stated_node(parts, header.version, distances, width, i),
                                    ),
                                    regenerated,
                                    header_bytes,
                                },
                                offset,
                            ),
                        ),
                    }
                }
            },
        }
    }
}

/// What the start of a frame says.
pub struct FrameHeader {
    version: u32,
    decoded_checksum: bool,
    encoded_checksum: bool,
    bundle_id: Option<Vec<u8>>,
    decoded_size: Option<u64>,
}

impl View for FrameHeader {
    type V = HeaderView;

    closed spec fn view(&self) -> HeaderView {
        HeaderView {
            version: self.version,
            decoded_checksum: self.decoded_checksum,
            encoded_checksum: self.encoded_checksum,
            bundle_id: match self.bundle_id {
                Some(id) => Some(id@),
                None => None,
            },
            decoded_size: self.decoded_size,
        }
    }
}

/// Reads the identifier of the dictionary bundle, where there is one.
fn read_bundle_id(reader: &mut Reader<'_>, present: bool) -> (result: Result<
    Option<Vec<u8>>,
    Error,
>)
    requires
        old(reader).well_formed(),
    ensures
        final(reader).well_formed(),
        final(reader).source() == old(reader).source(),
        old(reader).position() <= final(reader).position(),
        match bundle_id_at(old(reader).source(), old(reader).position(), present) {
            Ok((id, end)) => result is Ok && id == (match result->Ok_0 {
                Some(bytes) => Some(bytes@),
                None => None,
            }) && final(reader).position() == end,
            Err(error) => result is Err && result->Err_0@ == error,
        },
{
    if !present {
        return Ok(None);
    }
    let len: u8 = reader.read_byte()?;
    let id = reader.read_slice(len as usize)?;
    Ok(Some(copy_bytes(id)))
}

/// Reads the type and the size of the output.
fn read_output(reader: &mut Reader<'_>) -> (result: Result<Option<u64>, Error>)
    requires
        old(reader).well_formed(),
    ensures
        final(reader).well_formed(),
        final(reader).source() == old(reader).source(),
        old(reader).position() <= final(reader).position(),
        match output_at(old(reader).source(), old(reader).position()) {
            Ok((size, end)) => result is Ok && result->Ok_0 == size && final(reader).position()
                == end,
            Err(error) => result is Err && result->Err_0@ == error,
        },
{
    let start: usize = reader.offset();
    let kind: u8 = reader.read_byte()?;
    if kind != 1 {
        return Err(
            Error::at(ErrorKind::Unsupported, start).with_detail(
                "only single serial output frames are implemented",
            ),
        );
    }
    let size: u64 = reader.read_var_u64()?;
    if size == 0 {
        return Ok(None);
    }
    if size - 1 > usize::MAX as u64 {
        return Err(fail(ErrorKind::LimitExceeded, "decoded output size is too large"));
    }
    Ok(Some(size - 1))
}

/// Reads and verifies the checksum of the header, where there is one.
fn read_header_checksum(reader: &mut Reader<'_>, present: bool) -> (result: Result<(), Error>)
    requires
        old(reader).well_formed(),
    ensures
        final(reader).well_formed(),
        final(reader).source() == old(reader).source(),
        old(reader).position() <= final(reader).position(),
        match header_checksum_at(old(reader).source(), old(reader).position(), present) {
            Ok(end) => result is Ok && final(reader).position() == end,
            Err(error) => result is Err && result->Err_0@ == error,
        },
{
    if !present {
        return Ok(());
    }
    let hash: u64 = hash_bytes(reader.read_since(0));
    let checksum: u8 = reader.read_byte()?;
    if hash % 256 != checksum as u64 {
        return Err(fail(ErrorKind::ChecksumMismatch, "frame header checksum mismatch"));
    }
    Ok(())
}

/// Reads what the start of a frame says.
pub fn parse_header(reader: &mut Reader<'_>) -> (result: Result<FrameHeader, Error>)
    requires
        old(reader).well_formed(),
        old(reader).position() == 0,
    ensures
        final(reader).well_formed(),
        final(reader).source() == old(reader).source(),
        old(reader).position() <= final(reader).position(),
        match header_at(old(reader).source()) {
            Ok((header, end)) => result is Ok && result->Ok_0@ == header
                && final(reader).position() == end,
            Err(error) => result is Err && result->Err_0@ == error,
        },
{
    let magic: u32 = reader.read_u32_le()?;
    if magic <= MAGIC_BASE || magic > MAGIC_BASE + 255 {
        return Err(
            Error::at(ErrorKind::Unsupported, 0).with_detail("unrecognized OpenZL frame magic"),
        );
    }
    let version: u32 = magic - MAGIC_BASE;
    if version < MIN_VERSION || version > MAX_VERSION {
        return Err(
            Error::at(ErrorKind::Unsupported, 4).with_detail("unsupported OpenZL format version"),
        );
    }
    let flags: u8 = reader.read_byte()?;
    if flags >= 16 {
        return Err(
            Error::at(ErrorKind::Malformed, 4).with_detail("reserved frame flags are set"),
        );
    }
    if flags / 4 % 2 == 1 {
        return Err(
            Error::at(ErrorKind::Unsupported, 4).with_detail("frame comments are unsupported"),
        );
    }
    let bundle_id = read_bundle_id(reader, flags / 8 % 2 == 1)?;
    let decoded_size: Option<u64> = read_output(reader)?;
    read_header_checksum(reader, flags / 2 % 2 == 1)?;
    Ok(
        FrameHeader {
            version,
            decoded_checksum: flags % 2 == 1,
            encoded_checksum: flags / 2 % 2 == 1,
            bundle_id,
            decoded_size,
        },
    )
}

/// Tells whether one of the first `count` flags is set.
fn any_flag(flags: &[u8], count: usize) -> (any: bool)
    requires
        count <= MAX_GRAPH_ITEMS,
        flags@.len() == bytes_for(count as nat),
    ensures
        any == some_flag(flags@, count as nat),
{
    let mut index: usize = 0;
    while index < count
        invariant
            index <= count <= MAX_GRAPH_ITEMS,
            flags@.len() == bytes_for(count as nat),
            forall|i: int| 0 <= i < index ==> !#[trigger] bit_at(flags@, i),
        decreases count - index,
    {
        let byte: u8 = flags[index / 8];
        if (byte >> ((index % 8) as u8)) & 1 == 1 {
            proof {
                assert(bit_at(flags@, index as int));
            }
            return true;
        }
        proof {
            assert(!bit_at(flags@, index as int));
        }
        index = index + 1;
    }
    false
}

/// Reads the kinds and the packed identifiers of `count` transforms.
fn read_ids<'a>(reader: &mut Reader<'a>, count: usize, version: u32) -> (result: Result<
    &'a [u8],
    Error,
>)
    requires
        old(reader).well_formed(),
        count <= MAX_GRAPH_ITEMS,
    ensures
        final(reader).well_formed(),
        final(reader).source() == old(reader).source(),
        old(reader).position() <= final(reader).position(),
        match ids_at(old(reader).source(), old(reader).position(), count as nat, version) {
            Ok((ids, end)) => result is Ok && result->Ok_0@ == ids && final(reader).position()
                == end && ids.len() == bytes_for(count as nat * id_bits(version)),
            Err(error) => result is Err && result->Err_0@ == error,
        },
{
    let start: usize = reader.offset();
    let custom = reader.read_slice((count + 7) / 8)?;
    if any_flag(custom, count) {
        return Err(
            Error::at(ErrorKind::Unsupported, start).with_detail(
                "custom graph execution is unsupported",
            ),
        );
    }
    let bits: usize = if version < WIDE_ID_VERSION {
        6
    } else {
        7
    };
    proof {
        assert(count * bits <= 7 * MAX_GRAPH_ITEMS) by (nonlinear_arith)
            requires
                count <= MAX_GRAPH_ITEMS,
                bits <= 7,
        ;
    }
    let ids = reader.read_slice((count * bits + 7) / 8)?;
    let ghost total = ids_error(ids@, version, 0, count as nat);
    let mut index: usize = 0;
    while index < count
        invariant
            index <= count <= MAX_GRAPH_ITEMS,
            bits as nat == id_bits(version),
            count * bits <= 7 * MAX_GRAPH_ITEMS,
            ids@.len() == bytes_for(count as nat * id_bits(version)),
            total == ids_error(ids@, version, 0, count as nat),
            total == ids_error(ids@, version, index as nat, count as nat),
            total is Some ==> ids_at(
                old(reader).source(),
                old(reader).position(),
                count as nat,
                version,
            ) == Err::<(Seq<u8>, nat), ErrorView>(total->Some_0),
            reader.well_formed(),
            reader.source() == old(reader).source(),
            old(reader).position() <= reader.position(),
        decreases count - index,
    {
        let id: u32 = read_packed_id(ids, count, bits, index);
        match validate_transform_id(id, version) {
            Ok(_) => {},
            Err(error) => {
                return Err(error);
            },
        }
        index = index + 1;
    }
    Ok(ids)
}

/// Reads identifier `index` of a packed list.
fn read_packed_id(ids: &[u8], count: usize, bits: usize, index: usize) -> (id: u32)
    requires
        index < count <= MAX_GRAPH_ITEMS,
        bits <= 7,
        ids@.len() == bytes_for(count as nat * bits as nat),
    ensures
        id == packed_id(ids@, bits as nat, index as int),
{
    proof {
        assert(index * bits + bits <= count * bits <= 7 * MAX_GRAPH_ITEMS) by (nonlinear_arith)
            requires
                index < count <= MAX_GRAPH_ITEMS,
                bits <= 7,
        ;
        lemma_bit_field_bound(ids@, index * bits, bits as nat);
        lemma_bit_range_monotone(bits as nat, 7);
        lemma_bit_range_values();
    }
    read_bit_field(ids, index * bits, bits) as u32
}

/// What is stated of the transforms of a chunk.
struct StatedGraph<'a> {
    ids: &'a [u8],
    headers: Vec<Option<u64>>,
    variables: Vec<Option<u64>>,
    regens: Vec<Option<u64>>,
    dicts: Vec<Option<u64>>,
}

impl<'a> StatedGraph<'a> {
    spec fn parts(self) -> GraphParts {
        GraphParts {
            ids: self.ids@,
            headers: self.headers@,
            variables: self.variables@,
            regens: self.regens@,
            dicts: self.dicts@,
        }
    }
}

/// Every list has an entry for each of `count` transforms, within the limits.
pub open spec fn parts_fit(parts: GraphParts, count: nat, version: u32, limits: Limits) -> bool {
    &&& parts.ids.len() == bytes_for(count * id_bits(version))
    &&& parts.headers.len() == count
    &&& parts.variables.len() == count
    &&& parts.regens.len() == count
    &&& parts.dicts.len() == count
    &&& values_below(parts.headers, limits.max_transform_header_bytes as nat)
    &&& values_below(parts.variables, graph_limit(limits.max_streams))
    &&& values_below(parts.regens, graph_limit(limits.max_streams))
    &&& values_below(parts.dicts, 0x1_0000_0000)
}

/// Every stated value is below a limit.
pub open spec fn values_below(values: Seq<Option<u64>>, limit: nat) -> bool {
    forall|i: int|
        0 <= i < values.len() ==> match #[trigger] values[i] {
            Some(value) => value < limit,
            None => true,
        }
}

proof fn lemma_flagged_below(
    input: Seq<u8>,
    flags: Seq<u8>,
    offset: nat,
    index: nat,
    count: nat,
    limit: nat,
    values: Seq<Option<u64>>,
)
    requires
        values_below(values, limit),
        flagged_from(input, flags, offset, index, count, limit, values) is Ok,
    ensures
        values_below(
            flagged_from(input, flags, offset, index, count, limit, values)->Ok_0.0,
            limit,
        ),
    decreases count - index,
{
    if index < count {
        if !bit_at(flags, index as int) {
            lemma_flagged_below(
                input,
                flags,
                offset,
                index + 1,
                count,
                limit,
                values.push(None),
            );
        } else {
            let (value, end) = var_u64(input, offset as int)->Ok_0;
            lemma_flagged_below(
                input,
                flags,
                end as nat,
                index + 1,
                count,
                limit,
                values.push(Some(value)),
            );
        }
    }
}

proof fn lemma_flagged_at_below(input: Seq<u8>, offset: nat, count: nat, limit: nat)
    requires
        flagged_at(input, offset, count, limit) is Ok,
    ensures
        values_below(flagged_at(input, offset, count, limit)->Ok_0.0, limit),
{
    let (flags, next) = slice_at(input, offset, bytes_for(count))->Ok_0;
    lemma_flagged_below(input, flags, next, 0, count, limit, Seq::empty());
}

/// Reads what is stated of `count` transforms.
fn read_graph_parts<'a>(
    reader: &mut Reader<'a>,
    count: usize,
    header: &FrameHeader,
    limits: Limits,
) -> (result: Result<StatedGraph<'a>, Error>)
    requires
        old(reader).well_formed(),
        count <= MAX_GRAPH_ITEMS,
    ensures
        final(reader).well_formed(),
        final(reader).source() == old(reader).source(),
        old(reader).position() <= final(reader).position(),
        match graph_parts_at(
            old(reader).source(),
            old(reader).position(),
            count as nat,
            header@,
            limits,
        ) {
            Ok((parts, end)) => result is Ok && result->Ok_0.parts() == parts
                && final(reader).position() == end && parts_fit(
                parts,
                count as nat,
                header@.version,
                limits,
            ),
            Err(error) => result is Err && result->Err_0@ == error,
        },
{
    let streams: u64 = bounded_limit(limits.max_streams) as u64;
    let header_limit: u64 = limits.max_transform_header_bytes as u64;
    let ghost input = reader.source();
    let ids = read_ids(reader, count, header.version)?;
    let ghost first = reader.position();
    let headers = read_flagged(reader, count, header_limit)?;
    let ghost second = reader.position();
    let variables = read_flagged(reader, count, streams)?;
    let ghost third = reader.position();
    let regens = read_flagged(reader, count, streams)?;
    let ghost fourth = reader.position();
    let dicts = if header.bundle_id.is_some() {
        read_flagged(reader, count, 0x1_0000_0000)?
    } else {
        no_dicts(count)
    };
    proof {
        lemma_flagged_at_below(input, first, count as nat, header_limit as nat);
        lemma_flagged_at_below(input, second, count as nat, streams as nat);
        lemma_flagged_at_below(input, third, count as nat, streams as nat);
        if header.bundle_id is Some {
            lemma_flagged_at_below(input, fourth, count as nat, 0x1_0000_0000);
        }
    }
    Ok(StatedGraph { ids, headers, variables, regens, dicts })
}

/// A list that states no dictionary.
fn no_dicts(count: usize) -> (dicts: Vec<Option<u64>>)
    ensures
        dicts@ == Seq::new(count as nat, |i: int| None::<u64>),
{
    let mut dicts: Vec<Option<u64>> = Vec::new();
    while dicts.len() < count
        invariant
            dicts@.len() <= count,
            forall|i: int| 0 <= i < dicts@.len() ==> #[trigger] dicts@[i] is None,
        decreases count - dicts@.len(),
    {
        dicts.push(None);
    }
    proof {
        assert(dicts@ =~= Seq::new(count as nat, |i: int| None::<u64>));
    }
    dicts
}

/// Counts the streams that are regenerated, up to `room`.
fn sum_regens(regens: &Vec<Option<u64>>, room: usize, Ghost(limit): Ghost<nat>) -> (result: Result<
    usize,
    Error,
>)
    requires
        values_below(regens@, limit),
        limit <= MAX_GRAPH_ITEMS,
        room <= MAX_GRAPH_ITEMS,
    ensures
        match result {
            Ok(total) => total == regen_total(regens@, regens@.len()) && total <= room,
            Err(error) => regen_total(regens@, regens@.len()) > room && error@ == limit_error(),
        },
{
    let mut total: usize = 0;
    let mut index: usize = 0;
    while index < regens.len()
        invariant
            index <= regens@.len(),
            values_below(regens@, limit),
            limit <= MAX_GRAPH_ITEMS,
            total <= room <= MAX_GRAPH_ITEMS,
            total == regen_total(regens@, index as nat),
        decreases regens@.len() - index,
    {
        let count: usize = match regens[index] {
            None => 1,
            Some(value) => value as usize + 2,
        };
        proof {
            lemma_regen_total_monotone(regens@, (index + 1) as nat, regens@.len());
        }
        if count > room - total {
            return Err(fail(ErrorKind::LimitExceeded, "configured limit exceeded"));
        }
        total = total + count;
        index = index + 1;
    }
    Ok(total)
}

/// Adds up the sizes of the transform headers, up to `room`.
fn sum_headers(headers: &Vec<Option<u64>>, room: usize) -> (result: Result<usize, Error>)
    requires
        values_below(headers@, room as nat),
    ensures
        match result {
            Ok(total) => total == header_total(headers@, headers@.len()) && total <= room,
            Err(error) => header_total(headers@, headers@.len()) > room && error@ == limit_error(),
        },
{
    let mut total: usize = 0;
    let mut index: usize = 0;
    while index < headers.len()
        invariant
            index <= headers@.len(),
            values_below(headers@, room as nat),
            total <= room,
            total == header_total(headers@, index as nat),
        decreases headers@.len() - index,
    {
        let size: usize = match headers[index] {
            None => 0,
            Some(value) => value as usize + 1,
        };
        proof {
            lemma_header_total_monotone(headers@, (index + 1) as nat, headers@.len());
        }
        if size > room - total {
            return Err(fail(ErrorKind::LimitExceeded, "configured limit exceeded"));
        }
        total = total + size;
        index = index + 1;
    }
    Ok(total)
}

/// Reads `count` distances from distance `start` on.
fn read_distances(distances: &[u8], start: usize, count: usize, total: usize, width: usize) -> (values:
    Vec<u32>)
    requires
        start + count <= total <= MAX_GRAPH_ITEMS,
        width <= 32,
        distances@.len() == bytes_for(total as nat * width as nat),
    ensures
        values@ == Seq::new(
            count as nat,
            |k: int| bit_field(distances@, (start + k) * width, width as nat) as u32,
        ),
{
    let mut values: Vec<u32> = Vec::new();
    while values.len() < count
        invariant
            values@.len() <= count,
            start + count <= total <= MAX_GRAPH_ITEMS,
            width <= 32,
            distances@.len() == bytes_for(total as nat * width as nat),
            forall|k: int|
                0 <= k < values@.len() ==> #[trigger] values@[k] == bit_field(
                    distances@,
                    (start + k) * width,
                    width as nat,
                ) as u32,
        decreases count - values@.len(),
    {
        let index: usize = start + values.len();
        proof {
            assert(index * width + width <= total * width <= 32 * MAX_GRAPH_ITEMS)
                by (nonlinear_arith)
                requires
                    index < total <= MAX_GRAPH_ITEMS,
                    width <= 32,
            ;
            lemma_bit_field_bound(distances@, index * width, width as nat);
            lemma_bit_range_monotone(width as nat, 32);
            lemma_bit_range_values();
        }
        let value: u64 = read_bit_field(distances, index * width, width);
        values.push(value as u32);
    }
    proof {
        assert(values@ =~= Seq::new(
            count as nat,
            |k: int| bit_field(distances@, (start + k) * width, width as nat) as u32,
        ));
    }
    values
}

/// The transforms of a chunk.
struct ChunkGraph {
    nodes: Vec<NodePlan>,
    regenerated: usize,
    header_bytes: usize,
}

impl ChunkGraph {
    spec fn graph(self) -> GraphView {
        GraphView {
            nodes: node_views(self.nodes@),
            regenerated: self.regenerated as nat,
            header_bytes: self.header_bytes as nat,
        }
    }
}

/// Puts the transforms of a chunk together.
fn assemble_nodes(
    stated: &StatedGraph<'_>,
    count: usize,
    version: u32,
    distances: &[u8],
    regenerated: usize,
    width: usize,
    limits: Limits,
) -> (nodes: Vec<NodePlan>)
    requires
        count <= MAX_GRAPH_ITEMS,
        parts_fit(stated.parts(), count as nat, version, limits),
        regenerated == regen_total(stated.regens@, count as nat),
        regenerated <= MAX_GRAPH_ITEMS,
        header_total(stated.headers@, count as nat) <= limits.max_transform_header_bytes,
        width <= 32,
        distances@.len() == bytes_for(regenerated as nat * width as nat),
    ensures
        node_views(nodes@) == Seq::new(
            count as nat,
            |i: int| stated_node(stated.parts(), version, distances@, width as nat, i),
        ),
{
    let bits: usize = if version < WIDE_ID_VERSION {
        6
    } else {
        7
    };
    let ghost parts = stated.parts();
    let mut nodes: Vec<NodePlan> = Vec::new();
    let mut header_start: usize = 0;
    let mut regen_start: usize = 0;
    let mut index: usize = 0;
    while index < count
        invariant
            index <= count <= MAX_GRAPH_ITEMS,
            nodes@.len() == index,
            parts == stated.parts(),
            parts_fit(parts, count as nat, version, limits),
            bits as nat == id_bits(version),
            regenerated == regen_total(stated.regens@, count as nat),
            regenerated <= MAX_GRAPH_ITEMS,
            header_total(stated.headers@, count as nat) <= limits.max_transform_header_bytes,
            width <= 32,
            distances@.len() == bytes_for(regenerated as nat * width as nat),
            header_start == header_total(stated.headers@, index as nat),
            regen_start == regen_total(stated.regens@, index as nat),
            forall|i: int|
                0 <= i < index ==> (#[trigger] nodes@[i])@ == stated_node(
                    parts,
                    version,
                    distances@,
                    width as nat,
                    i,
                ),
        decreases count - index,
    {
        proof {
            lemma_header_total_monotone(stated.headers@, (index + 1) as nat, count as nat);
            lemma_regen_total_monotone(stated.regens@, (index + 1) as nat, count as nat);
        }
        let header_len: usize = match stated.headers[index] {
            None => 0,
            Some(value) => value as usize + 1,
        };
        let variable: u32 = match stated.variables[index] {
            None => 0,
            Some(value) => value as u32 + 1,
        };
        let regens: usize = match stated.regens[index] {
            None => 1,
            Some(value) => value as usize + 2,
        };
        let dict_index: Option<u32> = match stated.dicts[index] {
            None => None,
            Some(value) => Some(value as u32),
        };
        let id: u32 = read_packed_id(stated.ids, count, bits, index);
        let regen_distances = read_distances(distances, regen_start, regens, regenerated, width);
        let node = NodePlan {
            standard_id: Some(id),
            variable_outputs: variable,
            regen_distances,
            dict_index,
            transform_header_start: header_start,
            transform_header_size: header_len,
        };
        proof {
            assert(node@ =~= stated_node(parts, version, distances@, width as nat, index as int));
        }
        nodes.push(node);
        header_start = header_start + header_len;
        regen_start = regen_start + regens;
        index = index + 1;
    }
    proof {
        assert(node_views(nodes@) =~= Seq::new(
            count as nat,
            |i: int| stated_node(stated.parts(), version, distances@, width as nat, i),
        ));
    }
    nodes
}

/// Reads `count` transforms over `stored` stored streams.
fn read_graph(
    reader: &mut Reader<'_>,
    count: usize,
    stored: usize,
    used: usize,
    header: &FrameHeader,
    limits: Limits,
) -> (result: Result<ChunkGraph, Error>)
    requires
        old(reader).well_formed(),
        count <= MAX_GRAPH_ITEMS,
        used + stored <= graph_limit(limits.max_streams),
    ensures
        final(reader).well_formed(),
        final(reader).source() == old(reader).source(),
        old(reader).position() <= final(reader).position(),
        match graph_at(
            old(reader).source(),
            old(reader).position(),
            count as nat,
            stored as nat,
            used as nat,
            header@,
            limits,
        ) {
            Ok((graph, end)) => result is Ok && result->Ok_0.graph() == graph
                && final(reader).position() == end && graph.nodes.len() == count && used + stored
                + graph.regenerated <= graph_limit(limits.max_streams),
            Err(error) => result is Err && result->Err_0@ == error,
        },
{
    if count == 0 {
        let nodes: Vec<NodePlan> = Vec::new();
        proof {
            assert(node_views(nodes@) =~= Seq::empty());
        }
        return Ok(ChunkGraph { nodes, regenerated: 0, header_bytes: 0 });
    }
    let stated = read_graph_parts(reader, count, header, limits)?;
    let room: usize = bounded_limit(limits.max_streams) - used - stored;
    let regenerated: usize = sum_regens(
        &stated.regens,
        room,
        Ghost(graph_limit(limits.max_streams)),
    )?;
    let header_bytes: usize = sum_headers(&stated.headers, limits.max_transform_header_bytes)?;
    proof {
        lemma_regen_total_monotone(stated.regens@, 0, count as nat);
    }
    let width: usize = count_bits((stored + regenerated - 1) as u64);
    proof {
        lemma_bit_range_values();
        lemma_bit_length_bound((stored + regenerated - 1) as nat, 32);
        assert(regenerated * width <= 32 * MAX_GRAPH_ITEMS) by (nonlinear_arith)
            requires
                regenerated <= MAX_GRAPH_ITEMS,
                width <= 32,
        ;
    }
    let distances = reader.read_slice((regenerated * width + 7) / 8)?;
    let nodes = assemble_nodes(
        &stated,
        count,
        header.version,
        distances,
        regenerated,
        width,
        limits,
    );
    Ok(ChunkGraph { nodes, regenerated, header_bytes })
}

/// The sizes of `left` stored streams at `offset`, behind `sizes`, and the offset
/// behind them.
pub open spec fn sizes_from(
    input: Seq<u8>,
    offset: nat,
    left: nat,
    limit: usize,
    sizes: Seq<usize>,
) -> Result<(Seq<usize>, nat), ErrorView>
    decreases left,
{
    if left == 0 {
        Ok((sizes, offset))
    } else {
        match var_u64(input, offset as int) {
            Err(error) => Err(error),
            Ok((size, end)) => if size > limit {
                Err(limit_error())
            } else {
                sizes_from(input, end as nat, (left - 1) as nat, limit, sizes.push(size as usize))
            },
        }
    }
}

/// Where streams of the given sizes, from `index` on, lie from `offset` on, and the
/// offset behind them.
pub open spec fn ranges_from(
    input: Seq<u8>,
    sizes: Seq<usize>,
    index: nat,
    offset: nat,
    ranges: Seq<ByteRange>,
) -> Result<(Seq<ByteRange>, nat), ErrorView>
    decreases sizes.len() - index,
{
    if index >= sizes.len() {
        Ok((ranges, offset))
    } else {
        match slice_at(input, offset, sizes[index as int] as nat) {
            Err(error) => Err(error),
            Ok((bytes, end)) => ranges_from(
                input,
                sizes,
                index + 1,
                end,
                ranges.push(ByteRange { start: offset as usize, end: end as usize }),
            ),
        }
    }
}

/// The checksum of the decoded chunk at `offset`, where there is one, and the offset
/// behind the checksums. The checksum of the encoded chunk, where there is one, is the
/// low half of the hash of its bytes from `start` on.
pub open spec fn checksums_at(input: Seq<u8>, start: nat, offset: nat, header: HeaderView) -> Result<
    (Option<u32>, nat),
    ErrorView,
> {
    match (if header.decoded_checksum {
        match slice_at(input, offset, 4) {
            Err(error) => Err(error),
            Ok((bytes, end)) => Ok((Some(le_value(bytes) as u32), end)),
        }
    } else {
        Ok((None, offset))
    }) {
        Err(error) => Err(error),
        Ok((decoded, offset)) => if !header.encoded_checksum {
            Ok((decoded, offset))
        } else {
            match slice_at(input, offset, 4) {
                Err(error) => Err(error),
                Ok((bytes, end)) => if xxh3_hash(input.subrange(start as int, offset as int))
                    % 0x1_0000_0000 != le_value(bytes) {
                    Err(
                        detailed(
                            ErrorKind::ChecksumMismatch,
                            "compressed chunk checksum mismatch"@,
                        ),
                    )
                } else {
                    Ok((decoded, end))
                },
            }
        },
    }
}

/// What lies behind the transforms of a chunk, from `offset` on, and the offset behind
/// it.
pub open spec fn chunk_data_at(
    input: Seq<u8>,
    start: nat,
    offset: nat,
    stored: nat,
    graph: GraphView,
    header: HeaderView,
    limits: Limits,
) -> Result<(ChunkView, nat), ErrorView> {
    match sizes_from(input, offset, stored, limits.max_stored_stream_bytes, Seq::empty()) {
        Err(error) => Err(error),
        Ok((sizes, first)) => match slice_at(input, first, graph.header_bytes) {
            Err(error) => Err(error),
            Ok((headers, last)) => match ranges_from(input, sizes, 0, last, Seq::empty()) {
                Err(error) => Err(error),
                Ok((ranges, offset)) => match checksums_at(input, start, offset, header) {
                    Err(error) => Err(error),
                    Ok((decoded_checksum, end)) => Ok(
                        (
                            ChunkView {
                                nodes: graph.nodes,
                                stored: ranges,
                                regenerated: graph.regenerated as usize,
                                headers: ByteRange { start: first as usize, end: last as usize },
                                decoded_checksum,
                            },
                            end,
                        ),
                    ),
                },
            },
        },
    }
}

/// The chunk that starts at `start` and whose transform count ends at `offset`, and
/// the offset behind it.
#[verifier::opaque]
pub open spec fn chunk_at(
    input: Seq<u8>,
    start: nat,
    offset: nat,
    count: nat,
    used: nat,
    header: HeaderView,
    limits: Limits,
) -> Result<(ChunkView, nat), ErrorView> {
    match var_u64(input, offset as int) {
        Err(error) => Err(error),
        Ok((stored, offset)) => if used + stored > graph_limit(limits.max_streams) {
            Err(limit_error())
        } else {
            match graph_at(
                input,
                offset as nat,
                count,
                stored as nat,
                used,
                header,
                limits,
            ) {
                Err(error) => Err(error),
                Ok((graph, offset)) => chunk_data_at(
                    input,
                    start,
                    offset,
                    stored as nat,
                    graph,
                    header,
                    limits,
                ),
            }
        },
    }
}

/// What some chunks hold together.
#[verifier::ext_equal]
pub struct FrameTotals {
    pub transforms: nat,
    pub stored: nat,
    pub regenerated: nat,
}

/// The chunks from `offset` on, behind `chunks`, and what all of them hold together.
pub open spec fn chunks_from(
    input: Seq<u8>,
    header: HeaderView,
    limits: Limits,
    offset: nat,
    totals: FrameTotals,
    chunks: Seq<ChunkView>,
) -> Result<(Seq<ChunkView>, FrameTotals), ErrorView>
    decreases limits.max_chunks - chunks.len(),
{
    match var_u64(input, offset as int) {
        Err(error) => Err(error),
        Ok((stated, next)) => if stated == 0 {
            if next != input.len() {
                Err(located_detailed(ErrorKind::Malformed, next, "trailing bytes after frame"@))
            } else {
                Ok((chunks, totals))
            }
        } else if chunks.len() >= limits.max_chunks {
            Err(limit_error())
        } else if totals.transforms + stated - 1 > graph_limit(limits.max_nodes) {
            Err(limit_error())
        } else {
            match chunk_at(
                input,
                offset,
                next as nat,
                (stated - 1) as nat,
                totals.stored + totals.regenerated,
                header,
                limits,
            ) {
                Err(error) => Err(error),
                Ok((chunk, end)) => chunks_from(
                    input,
                    header,
                    limits,
                    end,
                    FrameTotals {
                        transforms: (totals.transforms + stated - 1) as nat,
                        stored: totals.stored + chunk.stored.len(),
                        regenerated: totals.regenerated + chunk.regenerated as nat,
                    },
                    chunks.push(chunk),
                ),
            }
        },
    }
}

/// What a frame says of itself.
pub open spec fn frame_info(
    input: Seq<u8>,
    header: HeaderView,
    header_bytes: nat,
    chunks: nat,
    totals: FrameTotals,
) -> FrameInfoView {
    FrameInfoView {
        format_version: header.version,
        frame_bytes: input.len() as usize,
        header_bytes: header_bytes as usize,
        decoded_bytes: match header.decoded_size {
            Some(size) => Some(size as usize),
            None => None,
        },
        chunks: chunks as usize,
        inputs: 1,
        output_types: seq![FrameValueType::Serial],
        output_sizes: seq![header.decoded_size],
        output_elements: seq![header.decoded_size],
        transforms: totals.transforms as usize,
        stored_streams: totals.stored as usize,
        regenerated_streams: totals.regenerated as usize,
        has_decoded_checksum: header.decoded_checksum,
        has_encoded_checksum: header.encoded_checksum,
        has_comment: false,
        dictionary_bundle_id: header.bundle_id,
    }
}

/// What a frame parses to.
pub open spec fn frame_plan(input: Seq<u8>, limits: Limits) -> Result<FrameView, ErrorView> {
    if input.len() > limits.max_frame_bytes {
        Err(limit_error())
    } else {
        match header_at(input) {
            Err(error) => Err(error),
            Ok((header, offset)) => match chunks_from(
                input,
                header,
                limits,
                offset,
                FrameTotals { transforms: 0, stored: 0, regenerated: 0 },
                Seq::empty(),
            ) {
                Err(error) => Err(error),
                Ok((chunks, totals)) => Ok(
                    FrameView {
                        info: frame_info(input, header, offset, chunks.len(), totals),
                        chunks,
                    },
                ),
            },
        }
    }
}

/// Reads the sizes of `count` stored streams.
fn read_sizes(reader: &mut Reader<'_>, count: usize, limit: usize) -> (result: Result<
    Vec<usize>,
    Error,
>)
    requires
        old(reader).well_formed(),
    ensures
        final(reader).well_formed(),
        final(reader).source() == old(reader).source(),
        old(reader).position() <= final(reader).position(),
        match sizes_from(
            old(reader).source(),
            old(reader).position(),
            count as nat,
            limit,
            Seq::empty(),
        ) {
            Ok((sizes, end)) => result is Ok && result->Ok_0@ == sizes && final(reader).position()
                == end && sizes.len() == count,
            Err(error) => result is Err && result->Err_0@ == error,
        },
{
    let mut sizes: Vec<usize> = Vec::new();
    let ghost total = sizes_from(
        reader.source(),
        reader.position(),
        count as nat,
        limit,
        Seq::empty(),
    );
    proof {
        assert(sizes@ =~= Seq::empty());
    }
    while sizes.len() < count
        invariant
            sizes@.len() <= count,
            reader.well_formed(),
            reader.source() == old(reader).source(),
            old(reader).position() <= reader.position(),
            total == sizes_from(
                old(reader).source(),
                old(reader).position(),
                count as nat,
                limit,
                Seq::empty(),
            ),
            total == sizes_from(
                reader.source(),
                reader.position(),
                (count - sizes@.len()) as nat,
                limit,
                sizes@,
            ),
        decreases count - sizes@.len(),
    {
        let size: u64 = reader.read_var_u64()?;
        if size > limit as u64 {
            return Err(fail(ErrorKind::LimitExceeded, "configured limit exceeded"));
        }
        sizes.push(size as usize);
    }
    Ok(sizes)
}

/// Finds where stored streams of the given sizes lie.
fn read_ranges(reader: &mut Reader<'_>, sizes: &Vec<usize>) -> (result: Result<
    Vec<ByteRange>,
    Error,
>)
    requires
        old(reader).well_formed(),
    ensures
        final(reader).well_formed(),
        final(reader).source() == old(reader).source(),
        old(reader).position() <= final(reader).position(),
        match ranges_from(
            old(reader).source(),
            sizes@,
            0,
            old(reader).position(),
            Seq::empty(),
        ) {
            Ok((ranges, end)) => result is Ok && result->Ok_0@ == ranges
                && final(reader).position() == end && ranges.len() == sizes@.len(),
            Err(error) => result is Err && result->Err_0@ == error,
        },
{
    let mut ranges: Vec<ByteRange> = Vec::new();
    let mut index: usize = 0;
    let ghost total = ranges_from(reader.source(), sizes@, 0, reader.position(), Seq::empty());
    proof {
        assert(ranges@ =~= Seq::empty());
    }
    while index < sizes.len()
        invariant
            index <= sizes@.len(),
            ranges@.len() == index,
            reader.well_formed(),
            reader.source() == old(reader).source(),
            old(reader).position() <= reader.position(),
            total == ranges_from(
                old(reader).source(),
                sizes@,
                0,
                old(reader).position(),
                Seq::empty(),
            ),
            total == ranges_from(
                reader.source(),
                sizes@,
                index as nat,
                reader.position(),
                ranges@,
            ),
        decreases sizes@.len() - index,
    {
        let start: usize = reader.offset();
        reader.read_slice(sizes[index])?;
        let end: usize = reader.offset();
        ranges.push(ByteRange { start, end });
        index = index + 1;
    }
    Ok(ranges)
}

/// Reads the checksums of a chunk, and verifies the one of its encoded bytes.
fn read_checksums(reader: &mut Reader<'_>, start: usize, header: &FrameHeader) -> (result: Result<
    Option<u32>,
    Error,
>)
    requires
        old(reader).well_formed(),
        start <= old(reader).position(),
    ensures
        final(reader).well_formed(),
        final(reader).source() == old(reader).source(),
        old(reader).position() <= final(reader).position(),
        match checksums_at(
            old(reader).source(),
            start as nat,
            old(reader).position(),
            header@,
        ) {
            Ok((decoded, end)) => result is Ok && result->Ok_0 == decoded
                && final(reader).position() == end,
            Err(error) => result is Err && result->Err_0@ == error,
        },
{
    let decoded: Option<u32> = if header.decoded_checksum {
        Some(reader.read_u32_le()?)
    } else {
        None
    };
    if header.encoded_checksum {
        let hash: u64 = hash_bytes(reader.read_since(start));
        let stated: u32 = reader.read_u32_le()?;
        if hash % 0x1_0000_0000 != stated as u64 {
            return Err(fail(ErrorKind::ChecksumMismatch, "compressed chunk checksum mismatch"));
        }
    }
    Ok(decoded)
}

/// Reads a chunk behind its transform count.
fn read_chunk(
    reader: &mut Reader<'_>,
    start: usize,
    count: usize,
    used: usize,
    header: &FrameHeader,
    limits: Limits,
) -> (result: Result<ChunkPlan, Error>)
    requires
        old(reader).well_formed(),
        start <= old(reader).position(),
        count <= MAX_GRAPH_ITEMS,
        used <= graph_limit(limits.max_streams),
    ensures
        final(reader).well_formed(),
        final(reader).source() == old(reader).source(),
        old(reader).position() <= final(reader).position(),
        match chunk_at(
            old(reader).source(),
            start as nat,
            old(reader).position(),
            count as nat,
            used as nat,
            header@,
            limits,
        ) {
            Ok((chunk, end)) => result is Ok && result->Ok_0@ == chunk && final(reader).position()
                == end && used + chunk.stored.len() + chunk.regenerated <= graph_limit(
                limits.max_streams,
            ),
            Err(error) => result is Err && result->Err_0@ == error,
        },
{
    proof {
        reveal(chunk_at);
    }
    let stored: u64 = reader.read_var_u64()?;
    let room: usize = bounded_limit(limits.max_streams) - used;
    if stored > room as u64 {
        return Err(fail(ErrorKind::LimitExceeded, "configured limit exceeded"));
    }
    let graph = read_graph(reader, count, stored as usize, used, header, limits)?;
    let sizes = read_sizes(reader, stored as usize, limits.max_stored_stream_bytes)?;
    let first: usize = reader.offset();
    reader.read_slice(graph.header_bytes)?;
    let last: usize = reader.offset();
    let ranges = read_ranges(reader, &sizes)?;
    let decoded_checksum: Option<u32> = read_checksums(reader, start, header)?;
    Ok(
        ChunkPlan {
            nodes: graph.nodes,
            stored: ranges,
            regenerated: graph.regenerated,
            headers: ByteRange { start: first, end: last },
            decoded_checksum,
        },
    )
}

/// Reads the chunks of a frame, and counts what they hold together.
fn read_chunks(reader: &mut Reader<'_>, header: &FrameHeader, limits: Limits) -> (result: Result<
    (Vec<ChunkPlan>, usize, usize, usize),
    Error,
>)
    requires
        old(reader).well_formed(),
    ensures
        final(reader).well_formed(),
        final(reader).source() == old(reader).source(),
        match chunks_from(
            old(reader).source(),
            header@,
            limits,
            old(reader).position(),
            FrameTotals { transforms: 0, stored: 0, regenerated: 0 },
            Seq::empty(),
        ) {
            Ok((chunks, totals)) => result is Ok && chunk_views(result->Ok_0.0@) == chunks && (
            FrameTotals {
                transforms: result->Ok_0.1 as nat,
                stored: result->Ok_0.2 as nat,
                regenerated: result->Ok_0.3 as nat,
            }) == totals,
            Err(error) => result is Err && result->Err_0@ == error,
        },
{
    let mut chunks: Vec<ChunkPlan> = Vec::new();
    let mut transforms: usize = 0;
    let mut stored: usize = 0;
    let mut regenerated: usize = 0;
    let ghost total = chunks_from(
        reader.source(),
        header@,
        limits,
        reader.position(),
        FrameTotals { transforms: 0, stored: 0, regenerated: 0 },
        Seq::empty(),
    );
    let node_limit: usize = bounded_limit(limits.max_nodes);
    proof {
        assert(chunk_views(chunks@) =~= Seq::empty());
    }
    loop
        invariant
            reader.well_formed(),
            reader.source() == old(reader).source(),
            node_limit as nat == graph_limit(limits.max_nodes),
            transforms <= node_limit,
            stored + regenerated <= graph_limit(limits.max_streams),
            chunks@.len() <= limits.max_chunks,
            total == chunks_from(
                old(reader).source(),
                header@,
                limits,
                old(reader).position(),
                FrameTotals { transforms: 0, stored: 0, regenerated: 0 },
                Seq::empty(),
            ),
            total == chunks_from(
                reader.source(),
                header@,
                limits,
                reader.position(),
                FrameTotals {
                    transforms: transforms as nat,
                    stored: stored as nat,
                    regenerated: regenerated as nat,
                },
                chunk_views(chunks@),
            ),
        decreases limits.max_chunks - chunks@.len(),
    {
        let start: usize = reader.offset();
        let stated: u64 = reader.read_var_u64()?;
        if stated == 0 {
            let end: usize = reader.offset();
            if end != reader.bytes.len() {
                return Err(
                    Error::at(ErrorKind::Malformed, end).with_detail("trailing bytes after frame"),
                );
            }
            return Ok((chunks, transforms, stored, regenerated));
        }
        if chunks.len() >= limits.max_chunks || stated - 1 > (node_limit - transforms) as u64 {
            return Err(fail(ErrorKind::LimitExceeded, "configured limit exceeded"));
        }
        let count: usize = (stated - 1) as usize;
        let chunk = read_chunk(reader, start, count, stored + regenerated, header, limits)?;
        transforms = transforms + count;
        stored = stored + chunk.stored.len();
        regenerated = regenerated + chunk.regenerated;
        proof {
            assert(chunk_views(chunks@.push(chunk)) =~= chunk_views(chunks@).push(chunk@));
        }
        chunks.push(chunk);
    }
}

/// Parses a frame.
pub fn parse_frame_plan(input: &[u8], limits: Limits) -> (result: Result<FramePlan, Error>)
    ensures
        outcome(result) == frame_plan(input@, limits),
{
    check_limit(input.len(), limits.max_frame_bytes)?;
    let mut reader = Reader::new(input);
    let header = parse_header(&mut reader)?;
    let header_bytes: usize = reader.offset();
    let (chunks, transforms, stored_streams, regenerated_streams) = read_chunks(
        &mut reader,
        &header,
        limits,
    )?;
    let decoded_bytes: Option<usize> = match header.decoded_size {
        Some(size) => Some(size as usize),
        None => None,
    };
    let info = FrameInfo {
        format_version: header.version,
        frame_bytes: input.len(),
        header_bytes,
        decoded_bytes,
        chunks: chunks.len(),
        inputs: 1,
        output_types: vec![FrameValueType::Serial],
        output_sizes: vec![header.decoded_size],
        output_elements: vec![header.decoded_size],
        transforms,
        stored_streams,
        regenerated_streams,
        has_decoded_checksum: header.decoded_checksum,
        has_encoded_checksum: header.encoded_checksum,
        has_comment: false,
        dictionary_bundle_id: header.bundle_id,
    };
    proof {
        assert(info.output_types@ =~= seq![FrameValueType::Serial]);
        assert(info.output_sizes@ =~= seq![header.decoded_size]);
        assert(info.output_elements@ =~= seq![header.decoded_size]);
    }
    Ok(FramePlan { info, chunks })
}

/// The error of a format version that no release or development build has, if any.
pub open spec fn version_error(version: u32, offset: int) -> Option<ErrorView> {
    if 1 <= version <= 255 {
        None
    } else {
        Some(
            located_detailed(
                ErrorKind::Unsupported,
                offset,
                "unsupported OpenZL format version"@,
            ),
        )
    }
}

/// Checks a format version.
pub fn validate_format_version(version: u32, offset: usize) -> (result: Result<(), Error>)
    ensures
        match result {
            Ok(_) => version_error(version, offset as int) is None,
            Err(error) => version_error(version, offset as int) == Some(error@),
        },
{
    if version < 1 || version > 255 {
        return Err(
            Error::at(ErrorKind::Unsupported, offset).with_detail(
                "unsupported OpenZL format version",
            ),
        );
    }
    Ok(())
}

/// What the version of a frame with the tagged magic number, of which four bytes were
/// read, comes to: such frames are not read any further.
pub open spec fn tagged_frame_error(input: Seq<u8>) -> ErrorView {
    match var_u32_from(input, 4, 0, 0) {
        Err(error) => error,
        Ok((version, end)) => match version_error(version, end as int) {
            Some(error) => error,
            None => located_detailed(
                ErrorKind::Unsupported,
                end as int,
                "OpenZL frame header parsing is not implemented yet"@,
            ),
        },
    }
}

/// What inspecting a frame gives.
pub open spec fn frame_inspection(input: Seq<u8>, limits: Limits) -> Result<
    FrameInfoView,
    ErrorView,
> {
    if input.len() > limits.max_frame_bytes {
        Err(limit_error())
    } else if input.len() >= 4 && input.subrange(0, 4) == tagged_magic() {
        Err(tagged_frame_error(input))
    } else {
        match frame_plan(input, limits) {
            Err(error) => Err(error),
            Ok(plan) => Ok(plan.info),
        }
    }
}

/// Parses a frame for what it says of itself.
pub fn inspect_frame(input: &[u8], limits: Limits) -> (result: Result<FrameInfo, Error>)
    ensures
        outcome(result) == frame_inspection(input@, limits),
{
    check_limit(input.len(), limits.max_frame_bytes)?;
    let mut reader = Reader::new(input);
    let magic = reader.read_slice(4)?;
    let tagged: [u8; 4] = [0x28, 0x5a, 0x4c, 0x29];
    proof {
        assert(tagged@ =~= tagged_magic());
    }
    if same_bytes(magic, &tagged) {
        let version: u32 = reader.read_var_u32()?;
        let offset: usize = reader.offset();
        validate_format_version(version, offset)?;
        return Err(
            Error::at(ErrorKind::Unsupported, offset).with_detail(
                "OpenZL frame header parsing is not implemented yet",
            ),
        );
    }
    let plan = parse_frame_plan(input, limits)?;
    Ok(plan.info)
}

/// Every range lies in the input and is no longer than `limit`.
pub open spec fn ranges_inside(ranges: Seq<ByteRange>, input: Seq<u8>, limit: nat) -> bool {
    forall|i: int|
        0 <= i < ranges.len() ==> (#[trigger] ranges[i]).start <= ranges[i].end <= input.len()
            && ranges[i].end - ranges[i].start <= limit
}

/// A chunk has as many transforms as it states, and its stored streams lie in the frame.
pub open spec fn chunk_inside(chunk: ChunkView, input: Seq<u8>, limits: Limits) -> bool {
    &&& ranges_inside(chunk.stored, input, limits.max_stored_stream_bytes as nat)
    &&& chunk.headers.start <= chunk.headers.end <= input.len()
    &&& chunk.headers.end - chunk.headers.start <= limits.max_transform_header_bytes
}

/// The transforms of the first `count` chunks.
pub open spec fn transform_total(chunks: Seq<ChunkView>, count: nat) -> nat
    decreases count,
{
    if count == 0 {
        0
    } else {
        transform_total(chunks, (count - 1) as nat) + chunks[count - 1].nodes.len()
    }
}

proof fn lemma_transform_total_push(chunks: Seq<ChunkView>, chunk: ChunkView, count: nat)
    requires
        count <= chunks.len(),
    ensures
        transform_total(chunks.push(chunk), count) == transform_total(chunks, count),
    decreases count,
{
    if count > 0 {
        lemma_transform_total_push(chunks, chunk, (count - 1) as nat);
    }
}

proof fn lemma_sizes(input: Seq<u8>, offset: nat, left: nat, limit: usize, sizes: Seq<usize>)
    requires
        sizes_from(input, offset, left, limit, sizes) is Ok,
        forall|i: int| 0 <= i < sizes.len() ==> #[trigger] sizes[i] <= limit,
    ensures
        ({
            let all = sizes_from(input, offset, left, limit, sizes)->Ok_0.0;
            &&& all.len() == sizes.len() + left
            &&& forall|i: int| 0 <= i < all.len() ==> #[trigger] all[i] <= limit
        }),
    decreases left,
{
    if left > 0 {
        let (size, end) = var_u64(input, offset as int)->Ok_0;
        lemma_sizes(input, end as nat, (left - 1) as nat, limit, sizes.push(size as usize));
    }
}

proof fn lemma_ranges(
    input: Seq<u8>,
    sizes: Seq<usize>,
    index: nat,
    offset: nat,
    ranges: Seq<ByteRange>,
    limit: nat,
)
    requires
        input.len() <= usize::MAX,
        index <= sizes.len(),
        ranges.len() == index,
        ranges_inside(ranges, input, limit),
        forall|i: int| 0 <= i < sizes.len() ==> #[trigger] sizes[i] <= limit,
        ranges_from(input, sizes, index, offset, ranges) is Ok,
    ensures
        ({
            let all = ranges_from(input, sizes, index, offset, ranges)->Ok_0.0;
            all.len() == sizes.len() && ranges_inside(all, input, limit)
        }),
    decreases sizes.len() - index,
{
    if index < sizes.len() {
        let (bytes, end) = slice_at(input, offset, sizes[index as int] as nat)->Ok_0;
        lemma_ranges(
            input,
            sizes,
            index + 1,
            end,
            ranges.push(ByteRange { start: offset as usize, end: end as usize }),
            limit,
        );
    }
}

proof fn lemma_chunk(
    input: Seq<u8>,
    start: nat,
    offset: nat,
    count: nat,
    used: nat,
    header: HeaderView,
    limits: Limits,
)
    requires
        input.len() <= usize::MAX,
        chunk_at(input, start, offset, count, used, header, limits) is Ok,
    ensures
        ({
            let chunk = chunk_at(input, start, offset, count, used, header, limits)->Ok_0.0;
            &&& chunk.nodes.len() == count
            &&& used + chunk.stored.len() + chunk.regenerated <= graph_limit(limits.max_streams)
            &&& chunk_inside(chunk, input, limits)
        }),
{
    reveal(chunk_at);
    let (stored, next) = var_u64(input, offset as int)->Ok_0;
    let (graph, data) = graph_at(
        input,
        next as nat,
        count,
        stored as nat,
        used,
        header,
        limits,
    )->Ok_0;
    let limit = limits.max_stored_stream_bytes;
    lemma_sizes(input, data, stored as nat, limit, Seq::empty());
    let (sizes, first) = sizes_from(input, data, stored as nat, limit, Seq::empty())->Ok_0;
    let (headers, last) = slice_at(input, first, graph.header_bytes)->Ok_0;
    lemma_ranges(input, sizes, 0, last, Seq::empty(), limit as nat);
}

proof fn lemma_chunks(
    input: Seq<u8>,
    header: HeaderView,
    limits: Limits,
    offset: nat,
    totals: FrameTotals,
    chunks: Seq<ChunkView>,
)
    requires
        input.len() <= usize::MAX,
        chunks.len() <= limits.max_chunks,
        totals.transforms <= graph_limit(limits.max_nodes),
        totals.transforms == transform_total(chunks, chunks.len()),
        totals.stored + totals.regenerated <= graph_limit(limits.max_streams),
        forall|i: int| 0 <= i < chunks.len() ==> chunk_inside(#[trigger] chunks[i], input, limits),
        chunks_from(input, header, limits, offset, totals, chunks) is Ok,
    ensures
        ({
            let (all, sums) = chunks_from(input, header, limits, offset, totals, chunks)->Ok_0;
            &&& all.len() <= limits.max_chunks
            &&& sums.transforms <= graph_limit(limits.max_nodes)
            &&& sums.transforms == transform_total(all, all.len())
            &&& sums.stored + sums.regenerated <= graph_limit(limits.max_streams)
            &&& forall|i: int|
                0 <= i < all.len() ==> chunk_inside(#[trigger] all[i], input, limits)
        }),
    decreases limits.max_chunks - chunks.len(),
{
    let (stated, next) = var_u64(input, offset as int)->Ok_0;
    if stated != 0 {
        let used = totals.stored + totals.regenerated;
        let count = (stated - 1) as nat;
        lemma_chunk(input, offset, next as nat, count, used, header, limits);
        let (chunk, end) = chunk_at(
            input,
            offset,
            next as nat,
            count,
            used,
            header,
            limits,
        )->Ok_0;
        lemma_transform_total_push(chunks, chunk, chunks.len());
        lemma_chunks(
            input,
            header,
            limits,
            end,
            FrameTotals {
                transforms: (totals.transforms + stated - 1) as nat,
                stored: totals.stored + chunk.stored.len(),
                regenerated: totals.regenerated + chunk.regenerated as nat,
            },
            chunks.push(chunk),
        );
    }
}

/// A frame that parses keeps every bound that the limits set on frames, chunks,
/// transforms and streams, its streams lie in it, and what it says of itself is what its
/// chunks hold.
pub proof fn law_plan_is_within_limits(input: Seq<u8>, limits: Limits)
    requires
        frame_plan(input, limits) is Ok,
    ensures
        ({
            let plan = frame_plan(input, limits)->Ok_0;
            &&& input.len() <= limits.max_frame_bytes
            &&& plan.info.frame_bytes == input.len()
            &&& plan.info.chunks == plan.chunks.len()
            &&& plan.chunks.len() <= limits.max_chunks
            &&& plan.info.transforms == transform_total(plan.chunks, plan.chunks.len())
            &&& plan.info.transforms <= limits.max_nodes
            &&& plan.info.stored_streams + plan.info.regenerated_streams <= limits.max_streams
            &&& forall|i: int|
                0 <= i < plan.chunks.len() ==> chunk_inside(
                    #[trigger] plan.chunks[i],
                    input,
                    limits,
                )
        }),
{
    let (header, offset) = header_at(input)->Ok_0;
    lemma_chunks(
        input,
        header,
        limits,
        offset,
        FrameTotals { transforms: 0, stored: 0, regenerated: 0 },
        Seq::empty(),
    );
}

/// What inspecting a frame gives is what decoding parses: a frame that parses has the
/// metadata of its plan.
pub proof fn law_inspection_agrees_with_plan(input: Seq<u8>, limits: Limits)
    requires
        frame_plan(input, limits) is Ok,
    ensures
        frame_inspection(input, limits) == Ok::<FrameInfoView, ErrorView>(
            frame_plan(input, limits)->Ok_0.info,
        ),
{
    let magic = input.subrange(0, 4);
    if magic == tagged_magic() {
        assert(magic.drop_last().drop_last().drop_last().drop_last() =~= Seq::<u8>::empty());
        reveal_with_fuel(le_value, 5);
        assert(le_value(magic) == 0x294c_5a28);
    }
}

} // verus!
