//! Integers that are written out as decimal text.

use vstd::prelude::*;

use crate::bytes::{append_bytes, read_le};
use crate::error::{detailed, fail, outcome, plain, Error, ErrorKind, ErrorView};
use crate::limits::{check_output_limit, output_limit_error, Limits};
use crate::stream::{
    element, element_count, lemma_element_inside, numeric_element_count, OwnedStream, StreamInput,
    StreamView,
};

verus! {

/// The decimal digits of a natural number.
pub open spec fn digits(value: nat) -> Seq<u8>
    decreases value,
{
    if value < 10 {
        seq![(48 + value) as u8]
    } else {
        digits(value / 10).push((48 + value % 10) as u8)
    }
}

/// The decimal text of an integer.
pub open spec fn decimal(value: int) -> Seq<u8> {
    if value < 0 {
        seq![45u8] + digits((-value) as nat)
    } else {
        digits(value as nat)
    }
}

/// The signed integer that 64 bits stand for.
pub open spec fn signed(bits: nat) -> int {
    if bits < 0x8000_0000_0000_0000 {
        bits as int
    } else {
        bits - 0x1_0000_0000_0000_0000
    }
}

/// Writes out the integers from `index` on, behind the text of those before.
pub open spec fn parse_int_from(
    bytes: Seq<u8>,
    limits: Limits,
    index: nat,
    text: Seq<u8>,
    lengths: Seq<u32>,
) -> Result<(Seq<u8>, Seq<u32>), ErrorView>
    decreases bytes.len() / 8 - index,
{
    if index >= bytes.len() / 8 {
        Ok((text, lengths))
    } else {
        let number = decimal(signed(element(bytes, 8, index as int)));
        if text.len() + number.len() > usize::MAX {
            Err(plain(ErrorKind::IntegerOverflow))
        } else if !limits.admits((text.len() + number.len()) as int) {
            Err(output_limit_error())
        } else {
            parse_int_from(
                bytes,
                limits,
                index + 1,
                text + number,
                lengths.push(number.len() as u32),
            )
        }
    }
}

/// What a parse_int node produces.
pub open spec fn parse_int_node(input: StreamView, header: Seq<u8>, limits: Limits) -> Result<
    StreamView,
    ErrorView,
> {
    if header.len() != 0 {
        Err(detailed(ErrorKind::Malformed, "parse_int transform header must be empty"@))
    } else if input.element_width != 8 {
        Err(detailed(ErrorKind::InvalidType, "parse_int input must be width-8 numeric values"@))
    } else if input.string_lengths is Some {
        Err(detailed(ErrorKind::InvalidType, "parse_int input must be numeric, not string"@))
    } else if let Err(error) = element_count(input.bytes.len(), 8) {
        Err(error)
    } else {
        match parse_int_from(input.bytes, limits, 0, Seq::empty(), Seq::empty()) {
            Err(error) => Err(error),
            Ok((text, lengths)) => Ok(
                StreamView { bytes: text, element_width: 1, string_lengths: Some(lengths) },
            ),
        }
    }
}

/// The natural number that decimal digits stand for.
pub open spec fn digits_value(text: Seq<u8>) -> int
    decreases text.len(),
{
    if text.len() == 0 {
        0
    } else {
        10 * digits_value(text.drop_last()) + (text.last() - 48)
    }
}

/// Reading decimal digits gives the number back.
pub proof fn law_digits_read_back(value: nat)
    ensures
        digits(value).len() > 0,
        forall|i: int| 0 <= i < digits(value).len() ==> 48 <= #[trigger] digits(value)[i] <= 57,
        digits_value(digits(value)) == value,
    decreases value,
{
    if value < 10 {
        let text = digits(value);
        assert(text.drop_last() =~= Seq::empty());
        assert(digits_value(text.drop_last()) == 0);
    } else {
        law_digits_read_back(value / 10);
        let text = digits(value);
        assert(text.drop_last() =~= digits(value / 10));
    }
}

proof fn lemma_digit_count(value: nat, count: nat)
    requires
        value < ten_power(count),
        count > 0,
    ensures
        digits(value).len() <= count,
    decreases value,
{
    if value >= 10 {
        if count == 1 {
            reveal_with_fuel(ten_power, 2);
        } else {
            lemma_digit_count(value / 10, (count - 1) as nat);
        }
    }
}

spec fn ten_power(count: nat) -> nat
    decreases count,
{
    if count == 0 {
        1
    } else {
        10 * ten_power((count - 1) as nat)
    }
}

pub proof fn lemma_decimal_len(value: int)
    requires
        -0x8000_0000_0000_0000 <= value < 0x8000_0000_0000_0000,
    ensures
        decimal(value).len() <= 20,
{
    reveal_with_fuel(ten_power, 20);
    lemma_digit_count(
        if value < 0 {
            (-value) as nat
        } else {
            value as nat
        },
        19,
    );
}

/// Appends the decimal digits of a number.
fn append_digits(output: &mut Vec<u8>, value: u64)
    ensures
        final(output)@ == old(output)@ + digits(value as nat),
    decreases value,
{
    let ghost before = output@;
    if value >= 10 {
        append_digits(output, value / 10);
    }
    output.push(48 + (value % 10) as u8);
    proof {
        assert(output@ =~= before + digits(value as nat));
    }
}

/// Writes out the signed integer that 64 bits stand for.
fn decimal_text(bits: u64) -> (text: Vec<u8>)
    ensures
        text@ == decimal(signed(bits as nat)),
{
    let mut text: Vec<u8> = Vec::new();
    if bits < 0x8000_0000_0000_0000 {
        append_digits(&mut text, bits);
        proof {
            assert(text@ =~= decimal(signed(bits as nat)));
        }
    } else {
        text.push(45);
        append_digits(&mut text, (0xffff_ffff_ffff_ffff - bits) + 1);
        proof {
            assert(text@ =~= decimal(signed(bits as nat)));
        }
    }
    text
}

/// Decodes a parse_int node.
pub fn decode_parse_int_node(
    input: StreamInput<'_>,
    header: &[u8],
    limits: Limits,
) -> (result: Result<OwnedStream, Error>)
    ensures
        outcome(result) == parse_int_node(input@, header@, limits),
        result is Ok ==> !result->Ok_0.recyclable,
{
    if header.len() != 0 {
        return Err(fail(ErrorKind::Malformed, "parse_int transform header must be empty"));
    }
    if input.element_width != 8 {
        return Err(fail(ErrorKind::InvalidType, "parse_int input must be width-8 numeric values"));
    }
    if input.string_lengths.is_some() {
        return Err(fail(ErrorKind::InvalidType, "parse_int input must be numeric, not string"));
    }
    let count: usize = numeric_element_count(input.bytes, 8)?;
    let mut lengths: Vec<u32> = Vec::new();
    let mut output: Vec<u8> = Vec::new();
    let ghost total = parse_int_from(input.bytes@, limits, 0, Seq::empty(), Seq::empty());
    proof {
        assert(lengths@ =~= Seq::empty());
        assert(output@ =~= Seq::empty());
    }
    let mut index: usize = 0;
    while index < count
        invariant
            index <= count,
            count == input.bytes@.len() / 8,
            input.bytes@.len() == count * 8,
            total == parse_int_from(input.bytes@, limits, index as nat, output@, lengths@),
            parse_int_node(input@, header@, limits) == (match total {
                Err(error) => Err::<StreamView, ErrorView>(error),
                Ok((text, lengths)) => Ok(
                    StreamView { bytes: text, element_width: 1, string_lengths: Some(lengths) },
                ),
            }),
        decreases count - index,
    {
        proof {
            lemma_element_inside(index as nat, count as nat, 8);
            assert(input.bytes@.len() == input.bytes.len());
        }
        let bits: u64 = read_le(input.bytes, index * 8, 8);
        let text = decimal_text(bits);
        proof {
            lemma_decimal_len(signed(bits as nat));
        }
        let new_len: usize = match output.len().checked_add(text.len()) {
            Some(new_len) => new_len,
            None => {
                return Err(Error::new(ErrorKind::IntegerOverflow));
            },
        };
        check_output_limit(new_len, limits)?;
        lengths.push(text.len() as u32);
        append_bytes(&mut output, text.as_slice());
        index = index + 1;
    }
    Ok(
        OwnedStream {
            bytes: output,
            element_width: 1,
            string_lengths: Some(lengths),
            recyclable: false,
        },
    )
}

} // verus!
