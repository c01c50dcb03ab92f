//! Integers as a bucket and the bits of an offset inside it.

use vstd::prelude::*;
use vstd::slice::slice_subrange;

use crate::bits::{
    bit_field, bit_length, bit_range, count_bits, forward_bits, lemma_bit_field_bound,
    lemma_bit_length_bound, lemma_bit_range_monotone, lemma_bit_range_values, power_of_two,
    read_bit_field, set_bit_from, ForwardBitReader,
};
use crate::bytes::{read_var_u64, var_u64};
use crate::error::{detailed, fail, outcome, plain, Error, ErrorKind, ErrorView};
use crate::limits::{check_output_limit, output_limit_error, Limits};
use crate::numeric::chosen_width;
use crate::stream::{
    lemma_element_inside, max_numeric, max_numeric_value, numeric_width, packed, push_element,
    require_numeric_width, required_width_error, stream_views, typed_stream, OwnedStream,
    StreamInput, StreamView,
};

verus! {

/// The codes of the two fixed quantizers.
#[derive(Clone, Copy, Debug, PartialEq, Eq, Structural)]
pub enum QuantizeTable {
    Offsets,
    Lengths,
}

/// How many codes a quantizer has.
pub open spec fn quantize_codes(table: QuantizeTable) -> nat {
    match table {
        QuantizeTable::Offsets => 32,
        QuantizeTable::Lengths => 44,
    }
}

/// How many extra bits a code takes.
pub open spec fn quantize_bits(table: QuantizeTable, code: nat) -> nat {
    match table {
        QuantizeTable::Offsets => code,
        QuantizeTable::Lengths => if code < 16 {
            0
        } else {
            (code - 12) as nat
        },
    }
}

/// The least value that a code stands for.
pub open spec fn quantize_base(table: QuantizeTable, code: nat) -> nat {
    match table {
        QuantizeTable::Offsets => bit_range(code),
        QuantizeTable::Lengths => if code < 16 {
            code
        } else {
            bit_range((code - 12) as nat)
        },
    }
}

/// Resolves the codes from `index` on, where `position` extra bits were taken.
pub open spec fn quantize_from(
    table: QuantizeTable,
    codes: Seq<u8>,
    extra: Seq<u8>,
    index: nat,
    position: nat,
    values: Seq<u64>,
) -> Result<Seq<u64>, ErrorView>
    decreases codes.len() - index,
{
    if index >= codes.len() {
        if 8 * extra.len() > usize::MAX {
            Err(plain(ErrorKind::IntegerOverflow))
        } else if set_bit_from(extra, position as int) {
            Err(detailed(ErrorKind::Malformed, "forward bitstream has nonzero padding"@))
        } else {
            Ok(values)
        }
    } else {
        let code = codes[index as int] as nat;
        if code >= quantize_codes(table) {
            Err(detailed(ErrorKind::Malformed, "quantize code is out of range"@))
        } else {
            match forward_bits(extra, position as int, quantize_bits(table, code)) {
                Err(error) => Err(error),
                Ok(bits) => quantize_from(
                    table,
                    codes,
                    extra,
                    index + 1,
                    position + quantize_bits(table, code),
                    values.push((quantize_base(table, code) + bits) as u64),
                ),
            }
        }
    }
}

/// What a quantize node produces.
pub open spec fn quantize_node(
    inputs: Seq<StreamView>,
    header: Seq<u8>,
    limits: Limits,
    table: QuantizeTable,
) -> Result<StreamView, ErrorView> {
    if header.len() != 0 {
        Err(detailed(ErrorKind::Unsupported, "quantize headers are unsupported"@))
    } else if inputs.len() != 2 {
        Err(detailed(ErrorKind::InvalidGraph, "quantize input count does not match node shape"@))
    } else if let Some(error) = required_width_error(inputs[0], 1, "quantize codes"@) {
        Err(error)
    } else if inputs[1].element_width != 1 {
        Err(detailed(ErrorKind::InvalidType, "quantize bits must be serial"@))
    } else if inputs[0].bytes.len() * 4 > usize::MAX {
        Err(plain(ErrorKind::IntegerOverflow))
    } else if !limits.admits((inputs[0].bytes.len() * 4) as int) {
        Err(output_limit_error())
    } else {
        match quantize_from(table, inputs[0].bytes, inputs[1].bytes, 0, 0, Seq::empty()) {
            Err(error) => Err(error),
            Ok(values) => Ok(typed_stream(packed(values, 4), 4)),
        }
    }
}

/// The ranges of neighbouring codes of a quantizer meet: the values of one end
/// where those of the next begin.
pub proof fn law_quantize_codes_tile(table: QuantizeTable, code: nat)
    requires
        code + 1 < quantize_codes(table),
    ensures
        quantize_base(table, code) + bit_range(quantize_bits(table, code)) == quantize_base(
            table,
            code + 1,
        ),
{
    lemma_bit_range_values();
    reveal_with_fuel(bit_range, 2);
}

proof fn lemma_quantize_fits(table: QuantizeTable, code: nat)
    requires
        code < quantize_codes(table),
    ensures
        quantize_bits(table, code) <= 31,
        quantize_base(table, code) + bit_range(quantize_bits(table, code)) <= 0x1_0000_0000,
{
    lemma_bit_range_values();
    lemma_bit_range_monotone(quantize_bits(table, code), 31);
}

/// Decodes a quantize node.
pub fn decode_quantize_node(
    inputs: &[StreamInput<'_>],
    header: &[u8],
    limits: Limits,
    table: QuantizeTable,
) -> (result: Result<OwnedStream, Error>)
    ensures
        outcome(result) == quantize_node(stream_views(inputs@), header@, limits, table),
        result is Ok ==> !result->Ok_0.recyclable,
{
    if header.len() != 0 {
        return Err(fail(ErrorKind::Unsupported, "quantize headers are unsupported"));
    }
    if inputs.len() != 2 {
        return Err(
            fail(ErrorKind::InvalidGraph, "quantize input count does not match node shape"),
        );
    }
    let codes = inputs[0];
    let extra_bits = inputs[1];
    require_numeric_width(&codes, 1, "quantize codes")?;
    if extra_bits.element_width != 1 {
        return Err(fail(ErrorKind::InvalidType, "quantize bits must be serial"));
    }
    let output_len: usize = match codes.bytes.len().checked_mul(4) {
        Some(output_len) => output_len,
        None => {
            return Err(Error::new(ErrorKind::IntegerOverflow));
        },
    };
    check_output_limit(output_len, limits)?;
    let mut reader = ForwardBitReader::new(extra_bits.bytes);
    let mut output: Vec<u8> = Vec::new();
    let ghost mut values: Seq<u64> = Seq::empty();
    let ghost views = stream_views(inputs@);
    let ghost total = quantize_from(table, codes.bytes@, extra_bits.bytes@, 0, 0, values);
    let mut index: usize = 0;
    while index < codes.bytes.len()
        invariant
            index <= codes.bytes@.len(),
            reader.source() == extra_bits.bytes@,
            output@ == packed(values, 4),
            total == quantize_from(
                table,
                codes.bytes@,
                extra_bits.bytes@,
                index as nat,
                reader.position(),
                values,
            ),
            quantize_node(views, header@, limits, table) == (match total {
                Err(error) => Err::<StreamView, ErrorView>(error),
                Ok(values) => Ok(typed_stream(packed(values, 4), 4)),
            }),
            views == stream_views(inputs@),
        decreases codes.bytes.len() - index,
    {
        let code: usize = codes.bytes[index] as usize;
        let (count, exponent) = match table {
            QuantizeTable::Offsets => (32usize, code),
            QuantizeTable::Lengths => (
                44usize,
                if code < 16 {
                    0
                } else {
                    code - 12
                },
            ),
        };
        if code >= count {
            return Err(fail(ErrorKind::Malformed, "quantize code is out of range"));
        }
        proof {
            lemma_quantize_fits(table, code as nat);
            lemma_bit_field_bound(
                extra_bits.bytes@,
                reader.position() as int,
                quantize_bits(table, code as nat),
            );
        }
        let extra: u32 = reader.read(exponent as u32)?;
        let base: u64 = match table {
            QuantizeTable::Offsets => power_of_two(exponent),
            QuantizeTable::Lengths => if code < 16 {
                code as u64
            } else {
                power_of_two(exponent)
            },
        };
        let value: u64 = base + extra as u64;
        push_element(&mut output, value, 4, Ghost(values));
        proof {
            values = values.push(value);
        }
        index = index + 1;
    }
    reader.finish_zero_padding()?;
    Ok(OwnedStream::typed(output, 4))
}

/// Buckets that tile the integers from a start on.
pub struct PartitionParams {
    pub start_value: u64,
    pub sizes: Vec<u64>,
}

/// Reads bucket sizes off the front of `bytes` until none are left.
pub open spec fn varint_sizes_from(bytes: Seq<u8>, sizes: Seq<u64>) -> Result<Seq<u64>, ErrorView>
    decreases 256 - sizes.len(),
{
    if bytes.len() == 0 {
        Ok(sizes)
    } else if sizes.len() >= 256 {
        Err(detailed(ErrorKind::Malformed, "partition count exceeds maximum"@))
    } else {
        match var_u64(bytes, 0) {
            Err(error) => Err(error),
            Ok((size, end)) => varint_sizes_from(
                bytes.subrange(end, bytes.len() as int),
                sizes.push(size),
            ),
        }
    }
}

/// The bits in front of the closing marker, which is the highest set bit.
pub open spec fn size_bits(bytes: Seq<u8>) -> int {
    8 * bytes.len() - (8 - (bit_length(bytes.last() as nat) - 1))
}

/// Bucket sizes that are powers of two, as exponents of `width` bits each.
pub open spec fn pow2_sizes(bytes: Seq<u8>, width: nat) -> Result<Seq<u64>, ErrorView> {
    if bytes.len() == 0 {
        Err(detailed(ErrorKind::Malformed, "partition sizes are missing"@))
    } else if bytes.last() == 0 {
        Err(detailed(ErrorKind::Malformed, "partition sizes bitstream is corrupt"@))
    } else if 8 * bytes.len() > usize::MAX {
        Err(plain(ErrorKind::IntegerOverflow))
    } else if size_bits(bytes) % width as int != 0 {
        Err(detailed(ErrorKind::Malformed, "partition size bitstream is misaligned"@))
    } else if size_bits(bytes) / width as int > 256 {
        Err(detailed(ErrorKind::Malformed, "partition count exceeds maximum"@))
    } else {
        Ok(
            Seq::new(
                (size_bits(bytes) / width as int) as nat,
                |i: int| bit_range(bit_field(bytes, i * width, width)) as u64,
            ),
        )
    }
}

/// The fixed partitions.
pub open spec fn preset_sizes(preset: int) -> Result<(u64, Seq<u64>), ErrorView> {
    if preset == 0 {
        Ok((1, Seq::new(32, |i: int| bit_range(i as nat) as u64)))
    } else if preset == 1 {
        Ok(
            (
                0,
                Seq::new(
                    44,
                    |i: int|
                        if i < 16 {
                            1
                        } else {
                            bit_range((i - 12) as nat) as u64
                        },
                ),
            ),
        )
    } else if preset == 2 {
        Ok(
            (
                0,
                Seq::new(
                    16,
                    |i: int|
                        if i == 0 {
                            2
                        } else {
                            bit_range(i as nat) as u64
                        },
                ),
            ),
        )
    } else {
        Err(detailed(ErrorKind::Malformed, "partition preset is unknown"@))
    }
}

/// The start and the bucket sizes that a header describes, before they are checked.
pub open spec fn partition_sizes(header: Seq<u8>) -> Result<(u64, Seq<u64>), ErrorView> {
    let flags = header[0] as int;
    let rest = header.subrange(1, header.len() as int);
    if flags / 4 % 2 == 1 {
        if rest.len() != 0 {
            Err(detailed(ErrorKind::Malformed, "partition preset header has trailing bytes"@))
        } else {
            preset_sizes(flags / 8)
        }
    } else {
        match (if flags / 8 % 2 == 1 {
            Ok((0u64, 0int))
        } else {
            var_u64(rest, 0)
        }) {
            Err(error) => Err(error),
            Ok((start, end)) => {
                let rest = rest.subrange(end, rest.len() as int);
                match (if flags / 32 % 2 == 1 {
                    pow2_sizes(rest, (flags / 64 + 3) as nat)
                } else {
                    varint_sizes_from(rest, Seq::empty())
                }) {
                    Err(error) => Err(error),
                    Ok(sizes) => Ok((start, sizes)),
                }
            },
        }
    }
}

/// The error, if any, of bucket sizes from `index` on, where the buckets in front
/// end at `sum`.
pub open spec fn sizes_error(sizes: Seq<u64>, index: nat, sum: nat) -> Option<ErrorView>
    decreases sizes.len() - index,
{
    if index >= sizes.len() {
        None
    } else if sizes[index as int] == 0 {
        Some(detailed(ErrorKind::Malformed, "partition size must be nonzero"@))
    } else if sum + sizes[index as int] > u64::MAX && index + 1 != sizes.len() {
        Some(detailed(ErrorKind::IntegerOverflow, "partition size sum overflowed"@))
    } else {
        sizes_error(sizes, index + 1, sum + sizes[index as int] as nat)
    }
}

/// The start, the bucket sizes and the element width that a header describes.
pub open spec fn partition_header(header: Seq<u8>) -> Result<(u64, Seq<u64>, nat), ErrorView> {
    if header.len() == 0 {
        Err(detailed(ErrorKind::Malformed, "partition header is empty"@))
    } else {
        match partition_sizes(header) {
            Err(error) => Err(error),
            Ok((start, sizes)) => if sizes.len() == 0 || sizes.len() > 256 || (sizes.len() == 1
                && start == 0) {
                Err(detailed(ErrorKind::Malformed, "partition parameters are invalid"@))
            } else if let Some(error) = sizes_error(sizes, 0, start as nat) {
                Err(error)
            } else {
                Ok((start, sizes, chosen_width(header[0] as int % 4)))
            },
        }
    }
}

/// The least integer of a bucket.
pub open spec fn bucket_base(start: u64, sizes: Seq<u64>, bucket: nat) -> nat
    decreases bucket,
{
    if bucket == 0 {
        start as nat
    } else {
        bucket_base(start, sizes, (bucket - 1) as nat) + sizes[bucket - 1] as nat
    }
}

/// How many bits an offset into a bucket of `size` integers takes.
pub open spec fn offset_bits(size: u64) -> nat {
    if size <= 1 {
        0
    } else {
        bit_length((size - 1) as nat)
    }
}

/// Resolves the buckets from `index` on, where `position` offset bits were taken.
pub open spec fn partition_from(
    start: u64,
    sizes: Seq<u64>,
    width: nat,
    buckets: Seq<u8>,
    offsets: Seq<u8>,
    index: nat,
    position: nat,
    values: Seq<u64>,
) -> Result<Seq<u64>, ErrorView>
    decreases buckets.len() - index,
{
    if index >= buckets.len() {
        Ok(values)
    } else {
        let bucket = buckets[index as int] as nat;
        if bucket >= sizes.len() {
            Err(detailed(ErrorKind::Malformed, "partition bucket is out of range"@))
        } else {
            let bits = offset_bits(sizes[bucket as int]);
            match forward_bits(offsets, position as int, bits) {
                Err(error) => Err(error),
                Ok(offset) => {
                    let value = bucket_base(start, sizes, bucket) + offset;
                    if value > u64::MAX {
                        Err(plain(ErrorKind::IntegerOverflow))
                    } else if value > max_numeric(width as int) {
                        Err(
                            detailed(
                                ErrorKind::Malformed,
                                "partition value exceeds output element width"@,
                            ),
                        )
                    } else {
                        partition_from(
                            start,
                            sizes,
                            width,
                            buckets,
                            offsets,
                            index + 1,
                            position + bits,
                            values.push(value as u64),
                        )
                    }
                },
            }
        }
    }
}

/// What a partition node produces.
pub open spec fn partition_node(inputs: Seq<StreamView>, header: Seq<u8>, limits: Limits) -> Result<
    StreamView,
    ErrorView,
> {
    if inputs.len() != 2 {
        Err(detailed(ErrorKind::InvalidGraph, "partition input count does not match node shape"@))
    } else if let Some(error) = required_width_error(inputs[0], 1, "partition buckets"@) {
        Err(error)
    } else if inputs[1].element_width != 1 {
        Err(detailed(ErrorKind::InvalidType, "partition bits must be serial"@))
    } else {
        match partition_header(header) {
            Err(error) => Err(error),
            Ok((start, sizes, width)) => if inputs[0].bytes.len() * width > usize::MAX {
                Err(plain(ErrorKind::IntegerOverflow))
            } else if !limits.admits((inputs[0].bytes.len() * width) as int) {
                Err(output_limit_error())
            } else {
                match partition_from(
                    start,
                    sizes,
                    width,
                    inputs[0].bytes,
                    inputs[1].bytes,
                    0,
                    0,
                    Seq::empty(),
                ) {
                    Err(error) => Err(error),
                    Ok(values) => Ok(typed_stream(packed(values, width), width)),
                }
            },
        }
    }
}

proof fn lemma_bucket_base_bound(start: u64, sizes: Seq<u64>, index: nat)
    requires
        index < sizes.len(),
        bucket_base(start, sizes, index) <= u64::MAX,
        sizes_error(sizes, index, bucket_base(start, sizes, index)) is None,
    ensures
        forall|i: nat| index <= i < sizes.len() ==> #[trigger] bucket_base(start, sizes, i) <= u64::MAX,
    decreases sizes.len() - index,
{
    if index + 1 < sizes.len() {
        lemma_bucket_base_bound(start, sizes, index + 1);
        assert forall|i: nat| index <= i < sizes.len() implies #[trigger] bucket_base(
            start,
            sizes,
            i,
        ) <= u64::MAX by {
            if i > index {
            }
        }
    }
}

/// The buckets of a partition follow each other without gap or overlap, and the
/// offset bits of each reach every one of its integers.
pub proof fn law_partition_buckets_tile(start: u64, sizes: Seq<u64>, bucket: nat, offset: nat)
    requires
        bucket < sizes.len(),
        offset < sizes[bucket as int],
    ensures
        offset < bit_range(offset_bits(sizes[bucket as int])),
        bucket_base(start, sizes, bucket) + sizes[bucket as int] == bucket_base(
            start,
            sizes,
            bucket + 1,
        ),
{
    if sizes[bucket as int] > 1 {
        lemma_bit_length_reaches((sizes[bucket as int] - 1) as nat);
    }
}

proof fn lemma_bit_length_reaches(value: nat)
    ensures
        value < bit_range(bit_length(value)),
    decreases value,
{
    if value > 0 {
        lemma_bit_length_reaches(value / 2);
    }
}

/// Reads bucket sizes until none are left.
fn parse_partition_varint_sizes(bytes: &[u8]) -> (result: Result<Vec<u64>, Error>)
    ensures
        outcome(result) == varint_sizes_from(bytes@, Seq::empty()),
{
    let mut rest: &[u8] = bytes;
    let mut sizes: Vec<u64> = Vec::new();
    proof {
        assert(sizes@ =~= Seq::empty());
    }
    while rest.len() > 0
        invariant
            varint_sizes_from(bytes@, Seq::empty()) == varint_sizes_from(rest@, sizes@),
        decreases rest@.len(),
    {
        if sizes.len() >= 256 {
            return Err(fail(ErrorKind::Malformed, "partition count exceeds maximum"));
        }
        let mut offset: usize = 0;
        let size: u64 = read_var_u64(rest, &mut offset)?;
        proof {
            lemma_var_u64_advances(rest@, 0);
        }
        sizes.push(size);
        rest = slice_subrange(rest, offset, rest.len());
    }
    Ok(sizes)
}

/// A variable-length integer takes at least one byte.
pub(crate) proof fn lemma_var_u64_advances(input: Seq<u8>, start: int)
    requires
        0 <= start,
        var_u64(input, start) is Ok,
    ensures
        start < var_u64(input, start)->Ok_0.1 <= input.len(),
{
    lemma_var_u64_from_advances(input, start, 0, 0);
}

proof fn lemma_var_u64_from_advances(input: Seq<u8>, start: int, index: nat, value: nat)
    requires
        0 <= start,
        crate::bytes::var_u64_from(input, start, index, value) is Ok,
    ensures
        start < crate::bytes::var_u64_from(input, start, index, value)->Ok_0.1 <= input.len(),
    decreases 10 - index,
{
    if index < 10 && start + index < input.len() && input[start + index] >= 128 {
        let payload = input[start + index] as nat % 128;
        lemma_var_u64_from_advances(
            input,
            start,
            index + 1,
            value + payload * crate::bytes::group_weight(index),
        );
    }
}

/// Reads bucket sizes that are powers of two.
fn parse_partition_pow2_sizes(flags: u8, bytes: &[u8]) -> (result: Result<Vec<u64>, Error>)
    ensures
        outcome(result) == pow2_sizes(bytes@, (flags as nat / 64 + 3) as nat),
{
    if bytes.len() == 0 {
        return Err(fail(ErrorKind::Malformed, "partition sizes are missing"));
    }
    let last: u8 = bytes[bytes.len() - 1];
    if last == 0 {
        return Err(fail(ErrorKind::Malformed, "partition sizes bitstream is corrupt"));
    }
    let width: usize = (flags / 64) as usize + 3;
    let high_bit: usize = count_bits(last as u64) - 1;
    proof {
        lemma_bit_range_values();
        lemma_bit_length_bound(last as nat, 8);
    }
    let unused: usize = 8 - high_bit;
    let total_bits: usize = match bytes.len().checked_mul(8) {
        Some(bits) => bits - unused,
        None => {
            return Err(Error::new(ErrorKind::IntegerOverflow));
        },
    };
    if total_bits % width != 0 {
        return Err(fail(ErrorKind::Malformed, "partition size bitstream is misaligned"));
    }
    let count: usize = total_bits / width;
    if count > 256 {
        return Err(fail(ErrorKind::Malformed, "partition count exceeds maximum"));
    }
    let mut sizes: Vec<u64> = Vec::new();
    let mut position: usize = 0;
    proof {
        crate::stream::lemma_whole_elements(total_bits as nat, width as nat);
    }
    while sizes.len() < count
        invariant
            3 <= width <= 6,
            count * width == total_bits,
            total_bits < 8 * bytes@.len() <= usize::MAX,
            sizes@.len() <= count,
            position == sizes@.len() * width,
            forall|i: int|
                0 <= i < sizes@.len() ==> #[trigger] sizes@[i] == bit_range(
                    bit_field(bytes@, i * width, width as nat),
                ) as u64,
        decreases count - sizes@.len(),
    {
        proof {
            lemma_element_inside(sizes@.len(), count as nat, width as nat);
            lemma_bit_field_bound(bytes@, position as int, width as nat);
            lemma_bit_range_monotone(width as nat, 6);
            lemma_bit_range_values();
        }
        let exponent: usize = read_bit_field(bytes, position, width) as usize;
        sizes.push(power_of_two(exponent));
        position = position + width;
    }
    proof {
        assert(sizes@ =~= Seq::new(
            (size_bits(bytes@) / width as int) as nat,
            |i: int| bit_range(bit_field(bytes@, i * (width as nat), width as nat)) as u64,
        ));
    }
    Ok(sizes)
}

/// The sizes `bit_range(from)` and on, `count` of them.
fn push_powers(sizes: &mut Vec<u64>, from: usize, count: usize)
    requires
        from + count <= 64,
    ensures
        final(sizes)@ == old(sizes)@ + Seq::new(
            count as nat,
            |i: int| bit_range((from + i) as nat) as u64,
        ),
{
    let ghost before = sizes@;
    let mut index: usize = 0;
    proof {
        assert(before + Seq::new(0, |i: int| bit_range((from + i) as nat) as u64) =~= before);
    }
    while index < count
        invariant
            index <= count,
            from + count <= 64,
            sizes@ == before + Seq::new(
                index as nat,
                |i: int| bit_range((from + i) as nat) as u64,
            ),
        decreases count - index,
    {
        sizes.push(power_of_two(from + index));
        index = index + 1;
        proof {
            assert(sizes@ =~= before + Seq::new(
                index as nat,
                |i: int| bit_range((from + i) as nat) as u64,
            ));
        }
    }
}

/// The view of fallible partition parameters.
pub open spec fn params_outcome(result: Result<PartitionParams, Error>) -> Result<
    (u64, Seq<u64>),
    ErrorView,
> {
    match result {
        Ok(params) => Ok((params.start_value, params.sizes@)),
        Err(error) => Err(error@),
    }
}

/// Builds a fixed partition.
fn partition_preset(preset: u8) -> (result: Result<PartitionParams, Error>)
    ensures
        params_outcome(result) == preset_sizes(preset as int),
{
    let mut sizes: Vec<u64> = Vec::new();
    if preset == 0 {
        push_powers(&mut sizes, 0, 32);
        proof {
            assert(sizes@ =~= Seq::new(32, |i: int| bit_range(i as nat) as u64));
        }
        Ok(PartitionParams { start_value: 1, sizes })
    } else if preset == 1 {
        while sizes.len() < 16
            invariant
                sizes@.len() <= 16,
                forall|i: int| 0 <= i < sizes@.len() ==> #[trigger] sizes@[i] == 1,
            decreases 16 - sizes@.len(),
        {
            sizes.push(1);
        }
        push_powers(&mut sizes, 4, 28);
        proof {
            assert(sizes@ =~= Seq::new(
                44,
                |i: int|
                    if i < 16 {
                        1
                    } else {
                        bit_range((i - 12) as nat) as u64
                    },
            ));
        }
        Ok(PartitionParams { start_value: 0, sizes })
    } else if preset == 2 {
        sizes.push(2);
        push_powers(&mut sizes, 1, 15);
        proof {
            assert(sizes@ =~= Seq::new(
                16,
                |i: int|
                    if i == 0 {
                        2
                    } else {
                        bit_range(i as nat) as u64
                    },
            ));
        }
        Ok(PartitionParams { start_value: 0, sizes })
    } else {
        Err(fail(ErrorKind::Malformed, "partition preset is unknown"))
    }
}

/// Reads the start and the bucket sizes of a header.
fn parse_partition_sizes(header: &[u8]) -> (result: Result<PartitionParams, Error>)
    requires
        header@.len() > 0,
    ensures
        params_outcome(result) == partition_sizes(header@),
{
    let flags: u8 = header[0];
    let rest = slice_subrange(header, 1, header.len());
    if flags / 4 % 2 == 1 {
        if rest.len() != 0 {
            return Err(fail(ErrorKind::Malformed, "partition preset header has trailing bytes"));
        }
        return partition_preset(flags / 8);
    }
    let mut offset: usize = 0;
    let start_value: u64 = if flags / 8 % 2 == 1 {
        0
    } else {
        read_var_u64(rest, &mut offset)?
    };
    let rest = slice_subrange(rest, offset, rest.len());
    let sizes: Vec<u64> = if flags / 32 % 2 == 1 {
        parse_partition_pow2_sizes(flags, rest)?
    } else {
        parse_partition_varint_sizes(rest)?
    };
    Ok(PartitionParams { start_value, sizes })
}

/// Checks that the buckets tile a range of integers.
fn validate_partition_params(params: &PartitionParams) -> (result: Result<(), Error>)
    ensures
        match result {
            Ok(_) => 0 < params.sizes@.len() <= 256 && !(params.sizes@.len() == 1
                && params.start_value == 0) && sizes_error(
                params.sizes@,
                0,
                params.start_value as nat,
            ) is None,
            Err(error) => if params.sizes@.len() == 0 || params.sizes@.len() > 256 || (
            params.sizes@.len() == 1 && params.start_value == 0) {
                error@ == detailed(ErrorKind::Malformed, "partition parameters are invalid"@)
            } else {
                sizes_error(params.sizes@, 0, params.start_value as nat) == Some(error@)
            },
        },
{
    if params.sizes.len() == 0 || params.sizes.len() > 256 || (params.sizes.len() == 1
        && params.start_value == 0) {
        return Err(fail(ErrorKind::Malformed, "partition parameters are invalid"));
    }
    let mut sum: u64 = params.start_value;
    let mut index: usize = 0;
    while index < params.sizes.len()
        invariant
            index <= params.sizes@.len(),
            0 < params.sizes@.len() <= 256,
            !(params.sizes@.len() == 1 && params.start_value == 0),
            index < params.sizes@.len() ==> sizes_error(params.sizes@, 0, params.start_value as nat)
                == sizes_error(params.sizes@, index as nat, sum as nat),
            index == params.sizes@.len() ==> sizes_error(
                params.sizes@,
                0,
                params.start_value as nat,
            ) is None,
        decreases params.sizes.len() - index,
    {
        let size: u64 = params.sizes[index];
        if size == 0 {
            return Err(fail(ErrorKind::Malformed, "partition size must be nonzero"));
        }
        proof {
            if index + 1 == params.sizes@.len() {
                assert(sizes_error(
                    params.sizes@,
                    (index + 1) as nat,
                    (sum + size) as nat,
                ) is None);
            }
        }
        if size > u64::MAX - sum {
            if index + 1 != params.sizes.len() {
                return Err(fail(ErrorKind::IntegerOverflow, "partition size sum overflowed"));
            }
        } else {
            sum = sum + size;
        }
        index = index + 1;
    }
    Ok(())
}

/// Reads the buckets and the element width of a header.
fn parse_partition_header(header: &[u8]) -> (result: Result<(PartitionParams, usize), Error>)
    ensures
        match result {
            Ok((params, width)) => partition_header(header@) == Ok::<
                (u64, Seq<u64>, nat),
                ErrorView,
            >((params.start_value, params.sizes@, width as nat)) && numeric_width(width as int)
                && 0 < params.sizes@.len() <= 256 && sizes_error(
                params.sizes@,
                0,
                params.start_value as nat,
            ) is None,
            Err(error) => partition_header(header@) == Err::<(u64, Seq<u64>, nat), ErrorView>(
                error@,
            ),
        },
{
    if header.len() == 0 {
        return Err(fail(ErrorKind::Malformed, "partition header is empty"));
    }
    let params = parse_partition_sizes(header)?;
    validate_partition_params(&params)?;
    let width: usize = match header[0] % 4 {
        0 => 1,
        1 => 2,
        2 => 4,
        _ => 8,
    };
    Ok((params, width))
}

/// Finds the least integer of each bucket.
fn partition_bases(params: &PartitionParams) -> (bases: Vec<u64>)
    requires
        params.sizes@.len() > 0,
        sizes_error(params.sizes@, 0, params.start_value as nat) is None,
    ensures
        bases@.len() == params.sizes@.len(),
        forall|i: int|
            0 <= i < bases@.len() ==> #[trigger] bases@[i] as nat == bucket_base(
                params.start_value,
                params.sizes@,
                i as nat,
            ),
{
    let mut bases: Vec<u64> = Vec::new();
    let mut base: u64 = params.start_value;
    proof {
        lemma_bucket_base_bound(params.start_value, params.sizes@, 0);
    }
    while bases.len() < params.sizes.len()
        invariant
            bases@.len() <= params.sizes@.len(),
            forall|i: nat|
                0 <= i < params.sizes@.len() ==> #[trigger] bucket_base(
                    params.start_value,
                    params.sizes@,
                    i,
                ) <= u64::MAX,
            bases@.len() < params.sizes@.len() ==> base as nat == bucket_base(
                params.start_value,
                params.sizes@,
                bases@.len(),
            ),
            forall|i: int|
                0 <= i < bases@.len() ==> #[trigger] bases@[i] as nat == bucket_base(
                    params.start_value,
                    params.sizes@,
                    i as nat,
                ),
        decreases params.sizes@.len() - bases@.len(),
    {
        let size: u64 = params.sizes[bases.len()];
        bases.push(base);
        if bases.len() < params.sizes.len() {
            proof {
                assert(bucket_base(params.start_value, params.sizes@, bases@.len()) <= u64::MAX);
            }
            base = base + size;
        }
    }
    bases
}

/// Finds how many offset bits each bucket takes.
fn partition_bits(params: &PartitionParams) -> (bits: Vec<u8>)
    ensures
        bits@.len() == params.sizes@.len(),
        forall|i: int|
            0 <= i < bits@.len() ==> #[trigger] bits@[i] as nat == offset_bits(params.sizes@[i]),
{
    let mut bits: Vec<u8> = Vec::new();
    while bits.len() < params.sizes.len()
        invariant
            bits@.len() <= params.sizes@.len(),
            forall|i: int|
                0 <= i < bits@.len() ==> #[trigger] bits@[i] as nat == offset_bits(
                    params.sizes@[i],
                ),
        decreases params.sizes@.len() - bits@.len(),
    {
        let size: u64 = params.sizes[bits.len()];
        let width: usize = if size <= 1 {
            0
        } else {
            count_bits(size - 1)
        };
        bits.push(width as u8);
    }
    bits
}

/// Decodes a partition node.
pub fn decode_partition_node(
    inputs: &[StreamInput<'_>],
    header: &[u8],
    limits: Limits,
) -> (result: Result<OwnedStream, Error>)
    ensures
        outcome(result) == partition_node(stream_views(inputs@), header@, limits),
        result is Ok ==> !result->Ok_0.recyclable,
{
    if inputs.len() != 2 {
        return Err(
            fail(ErrorKind::InvalidGraph, "partition input count does not match node shape"),
        );
    }
    let buckets = inputs[0];
    let offsets = inputs[1];
    require_numeric_width(&buckets, 1, "partition buckets")?;
    if offsets.element_width != 1 {
        return Err(fail(ErrorKind::InvalidType, "partition bits must be serial"));
    }
    let (params, width) = parse_partition_header(header)?;
    let output_len: usize = match buckets.bytes.len().checked_mul(width) {
        Some(output_len) => output_len,
        None => {
            return Err(Error::new(ErrorKind::IntegerOverflow));
        },
    };
    check_output_limit(output_len, limits)?;
    let bases = partition_bases(&params);
    let bits = partition_bits(&params);
    let max_value: u64 = max_numeric_value(width)?;
    let mut reader = ForwardBitReader::new(offsets.bytes);
    let mut output: Vec<u8> = Vec::new();
    let ghost mut values: Seq<u64> = Seq::empty();
    let ghost views = stream_views(inputs@);
    let ghost start = params.start_value;
    let ghost sizes = params.sizes@;
    let ghost total = partition_from(
        start,
        sizes,
        width as nat,
        buckets.bytes@,
        offsets.bytes@,
        0,
        0,
        values,
    );
    let mut index: usize = 0;
    while index < buckets.bytes.len()
        invariant
            index <= buckets.bytes@.len(),
            views == stream_views(inputs@),
            reader.source() == offsets.bytes@,
            numeric_width(width as int),
            max_value == max_numeric(width as int),
            bases@.len() == sizes.len(),
            bits@.len() == sizes.len(),
            forall|i: int|
                0 <= i < bases@.len() ==> #[trigger] bases@[i] as nat == bucket_base(
                    start,
                    sizes,
                    i as nat,
                ),
            forall|i: int|
                0 <= i < bits@.len() ==> #[trigger] bits@[i] as nat == offset_bits(sizes[i]),
            output@ == packed(values, width as nat),
            total == partition_from(
                start,
                sizes,
                width as nat,
                buckets.bytes@,
                offsets.bytes@,
                index as nat,
                reader.position(),
                values,
            ),
            partition_node(views, header@, limits) == (match total {
                Err(error) => Err::<StreamView, ErrorView>(error),
                Ok(values) => Ok(typed_stream(packed(values, width as nat), width as nat)),
            }),
        decreases buckets.bytes.len() - index,
    {
        let bucket: usize = buckets.bytes[index] as usize;
        if bucket >= bases.len() {
            return Err(fail(ErrorKind::Malformed, "partition bucket is out of range"));
        }
        let base: u64 = bases[bucket];
        let offset: u64 = reader.read_u64(bits[bucket] as usize)?;
        let value: u64 = match base.checked_add(offset) {
            Some(value) => value,
            None => {
                return Err(Error::new(ErrorKind::IntegerOverflow));
            },
        };
        if value > max_value {
            return Err(
                fail(ErrorKind::Malformed, "partition value exceeds output element width"),
            );
        }
        push_element(&mut output, value, width, Ghost(values));
        proof {
            values = values.push(value);
        }
        index = index + 1;
    }
    Ok(OwnedStream::typed(output, width))
}

} // verus!
