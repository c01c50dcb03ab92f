//! Bytes of a small alphabet, packed into as few bits as tell its letters apart.

use vstd::prelude::*;

use crate::bits::{
    bit_field, bit_length, count_bits, lemma_bit_field_bound, lemma_bit_length_bound,
    lemma_bit_range_monotone, lemma_bit_range_values, read_bit_field,
};
use crate::error::{detailed, fail, outcome, Error, ErrorKind, ErrorView};
use crate::limits::{check_output_limit, output_limit_error, Limits};
use crate::stream::{stream_views, StreamInput, StreamView};

verus! {

/// The bits per letter of an alphabet of `len` letters.
pub open spec fn letter_bits(len: nat) -> nat {
    if len <= 1 {
        len
    } else {
        bit_length((len - 1) as nat)
    }
}

/// The bits in front of the closing marker: it is the highest set bit of the last
/// byte, or its lowest bit where none is set.
pub open spec fn marker_position(packed: Seq<u8>) -> int {
    let last = packed.last() as nat;
    8 * (packed.len() - 1) + (if last == 0 {
        0
    } else {
        bit_length(last) - 1
    })
}

/// The first `count` letters of packed bytes.
pub open spec fn unpack_letters(alphabet: Seq<u8>, packed: Seq<u8>, count: nat) -> Option<Seq<u8>>
    decreases count,
{
    if count == 0 {
        Some(Seq::empty())
    } else {
        let bits = letter_bits(alphabet.len());
        let letter = bit_field(packed, (count - 1) * bits, bits);
        match unpack_letters(alphabet, packed, (count - 1) as nat) {
            Some(letters) => if letter < alphabet.len() {
                Some(letters.push(alphabet[letter as int]))
            } else {
                None
            },
            None => None,
        }
    }
}

/// What packed bytes over an alphabet stand for.
pub open spec fn flatpack_serial(alphabet: Seq<u8>, packed: Seq<u8>, limits: Limits) -> Result<
    Seq<u8>,
    ErrorView,
> {
    if alphabet.len() > 256 {
        Err(detailed(ErrorKind::Malformed, "flatpack alphabet is too large"@))
    } else if alphabet.len() == 0 || packed.len() == 0 {
        Ok(Seq::empty())
    } else if 8 * packed.len() > usize::MAX {
        Err(detailed(ErrorKind::IntegerOverflow, "flatpack size overflowed"@))
    } else {
        let bits = letter_bits(alphabet.len());
        let count = marker_position(packed) / bits as int;
        if !limits.admits(count) {
            Err(output_limit_error())
        } else {
            match unpack_letters(alphabet, packed, count as nat) {
                None => Err(
                    detailed(ErrorKind::Malformed, "flatpack symbol index is out of bounds"@),
                ),
                Some(letters) => if packed.last() == 0 || marker_position(packed) % bits as int
                    != 0 {
                    Err(detailed(ErrorKind::Malformed, "flatpack sentinel is malformed"@))
                } else {
                    Ok(letters)
                },
            }
        }
    }
}

/// What a flatpack node produces.
pub open spec fn flatpack_node(inputs: Seq<StreamView>, header: Seq<u8>, limits: Limits) -> Result<
    Seq<u8>,
    ErrorView,
> {
    if header.len() != 0 {
        Err(detailed(ErrorKind::Unsupported, "flatpack transform headers are unsupported"@))
    } else if inputs.len() != 2 {
        Err(detailed(ErrorKind::InvalidGraph, "flatpack input count does not match node shape"@))
    } else {
        flatpack_serial(inputs[0].bytes, inputs[1].bytes, limits)
    }
}

/// Every byte that comes out is a letter of the alphabet.
pub proof fn law_flatpack_stays_in_alphabet(alphabet: Seq<u8>, packed: Seq<u8>, count: nat)
    requires
        unpack_letters(alphabet, packed, count) is Some,
    ensures
        unpack_letters(alphabet, packed, count)->Some_0.len() == count,
        forall|i: int|
            0 <= i < count ==> alphabet.contains(
                #[trigger] unpack_letters(alphabet, packed, count)->Some_0[i],
            ),
    decreases count,
{
    if count > 0 {
        law_flatpack_stays_in_alphabet(alphabet, packed, (count - 1) as nat);
        let bits = letter_bits(alphabet.len());
        let letter = bit_field(packed, (count - 1) * bits, bits);
        let fewer = unpack_letters(alphabet, packed, (count - 1) as nat)->Some_0;
        let letters = unpack_letters(alphabet, packed, count)->Some_0;
        assert(letters == fewer.push(alphabet[letter as int]));
        assert(alphabet.contains(alphabet[letter as int]));
        assert forall|i: int| 0 <= i < count implies alphabet.contains(#[trigger] letters[i]) by {
            if i < count - 1 {
                assert(letters[i] == fewer[i]);
            }
        }
    }
}

proof fn lemma_letter_bits(len: nat)
    requires
        1 <= len <= 256,
    ensures
        1 <= letter_bits(len) <= 8,
{
    lemma_bit_range_values();
    if len > 1 {
        lemma_bit_length_bound((len - 1) as nat, 8);
    }
}

proof fn lemma_no_letter(alphabet: Seq<u8>, packed: Seq<u8>, small: nat, large: nat)
    requires
        small <= large,
        unpack_letters(alphabet, packed, small) is None,
    ensures
        unpack_letters(alphabet, packed, large) is None,
    decreases large,
{
    if small < large {
        lemma_no_letter(alphabet, packed, small, (large - 1) as nat);
    }
}

/// The bits per letter of an alphabet of `alphabet_len` letters.
fn flatpack_bits(alphabet_len: usize) -> (bits: usize)
    requires
        alphabet_len <= 256,
    ensures
        bits as nat == letter_bits(alphabet_len as nat),
{
    if alphabet_len <= 1 {
        alphabet_len
    } else {
        count_bits((alphabet_len - 1) as u64)
    }
}

/// Unpacks letters of an alphabet.
pub fn decode_flatpack_serial(alphabet: &[u8], packed: &[u8], limits: Limits) -> (result: Result<
    Vec<u8>,
    Error,
>)
    ensures
        outcome(result) == flatpack_serial(alphabet@, packed@, limits),
{
    if alphabet.len() > 256 {
        return Err(fail(ErrorKind::Malformed, "flatpack alphabet is too large"));
    }
    if alphabet.len() == 0 || packed.len() == 0 {
        let output: Vec<u8> = Vec::new();
        proof {
            assert(output@ =~= Seq::empty());
        }
        return Ok(output);
    }
    if packed.len() > usize::MAX / 8 {
        return Err(fail(ErrorKind::IntegerOverflow, "flatpack size overflowed"));
    }
    let bits: usize = flatpack_bits(alphabet.len());
    let last: u8 = packed[packed.len() - 1];
    proof {
        lemma_letter_bits(alphabet@.len());
        lemma_bit_range_values();
        lemma_bit_length_bound(last as nat, 8);
    }
    let tail: usize = if last == 0 {
        0
    } else {
        count_bits(last as u64) - 1
    };
    let marker: usize = 8 * (packed.len() - 1) + tail;
    let output_len: usize = marker / bits;
    check_output_limit(output_len, limits)?;
    proof {
        vstd::arithmetic::div_mod::lemma_fundamental_div_mod(marker as int, bits as int);
        assert(output_len * bits <= marker) by (nonlinear_arith)
            requires
                marker == bits * output_len + marker % bits,
                0 <= marker % bits,
        ;
    }
    let mut output: Vec<u8> = Vec::new();
    let mut position: usize = 0;
    while output.len() < output_len
        invariant
            output@.len() <= output_len,
            0 < bits <= 8,
            bits as nat == letter_bits(alphabet@.len()),
            0 < packed@.len(),
            8 * packed@.len() <= usize::MAX,
            marker < 8 * packed@.len(),
            output_len * bits <= marker,
            position == output@.len() * bits,
            unpack_letters(alphabet@, packed@, output@.len()) == Some(output@),
            alphabet@.len() > 0,
            unpack_letters(alphabet@, packed@, output_len as nat) is None ==> flatpack_serial(
                alphabet@,
                packed@,
                limits,
            ) == Err::<Seq<u8>, ErrorView>(
                detailed(ErrorKind::Malformed, "flatpack symbol index is out of bounds"@),
            ),
        decreases output_len - output@.len(),
    {
        proof {
            crate::stream::lemma_element_inside(
                output@.len(),
                output_len as nat,
                bits as nat,
            );
            lemma_bit_field_bound(packed@, position as int, bits as nat);
            lemma_bit_range_monotone(bits as nat, 8);
            lemma_bit_range_values();
        }
        let letter: usize = read_bit_field(packed, position, bits) as usize;
        if letter >= alphabet.len() {
            proof {
                assert(unpack_letters(alphabet@, packed@, output@.len() + 1) is None);
                lemma_no_letter(alphabet@, packed@, output@.len() + 1, output_len as nat);
            }
            return Err(fail(ErrorKind::Malformed, "flatpack symbol index is out of bounds"));
        }
        output.push(alphabet[letter]);
        position = position + bits;
    }
    if last == 0 || marker % bits != 0 {
        return Err(fail(ErrorKind::Malformed, "flatpack sentinel is malformed"));
    }
    Ok(output)
}

/// Decodes a flatpack node.
pub fn decode_flatpack_node(inputs: &[StreamInput<'_>], header: &[u8], limits: Limits) -> (result:
    Result<Vec<u8>, Error>)
    ensures
        outcome(result) == flatpack_node(stream_views(inputs@), header@, limits),
{
    if header.len() != 0 {
        return Err(fail(ErrorKind::Unsupported, "flatpack transform headers are unsupported"));
    }
    if inputs.len() != 2 {
        return Err(
            fail(ErrorKind::InvalidGraph, "flatpack input count does not match node shape"),
        );
    }
    decode_flatpack_serial(inputs[0].bytes, inputs[1].bytes, limits)
}

} // verus!
