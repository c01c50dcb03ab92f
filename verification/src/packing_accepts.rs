//! What packing and conversion transforms accept.

use vstd::prelude::*;

use crate::accept_laws::has_room;
use crate::bits::{bit_range, lemma_bit_range_values};
use crate::conversions::{serial_to_num_be_node, struct_to_num_be_node};
use crate::limits::Limits;
use crate::numeric::{bitpack_int_node, bitpack_serial_node, bitunpack_node};
use crate::parse_int::{decimal, parse_int_from, parse_int_node, signed};
use crate::stream::{element, StreamView};

verus! {

/// A bitpack_int node takes fields no wider than its integers and drops no more of them
/// than there are; a bitpack_serial node takes those whose integers are bytes.
pub proof fn law_bitpack_accepts(stored: Seq<u8>, header: Seq<u8>, limits: Limits)
    requires
        8 * stored.len() <= usize::MAX,
    ensures
        bitpack_int_node(stored, header, limits) is Ok <==> {
            let bits = header[0] as nat % 64 + 1;
            let width = bit_range(header[0] as nat / 64);
            let fields = 8 * stored.len() / bits;
            let dropped = if header.len() == 2 {
                header[1] as nat
            } else {
                0
            };
            &&& 1 <= header.len() <= 2
            &&& bits <= 8 * width
            &&& dropped <= fields
            &&& has_room(limits, ((fields - dropped) * width) as nat)
        },
        bitpack_serial_node(stored, header, limits) is Ok <==> bitpack_int_node(
            stored,
            header,
            limits,
        ) is Ok && header[0] < 64,
        bitpack_serial_node(stored, header, limits) is Ok ==> bitpack_serial_node(
            stored,
            header,
            limits,
        )->Ok_0 == bitpack_int_node(stored, header, limits)->Ok_0.bytes,
{
    lemma_bit_range_values();
    if 1 <= header.len() <= 2 {
        let bits = header[0] as nat % 64 + 1;
        let fields = 8 * stored.len() / bits;
        vstd::arithmetic::div_mod::lemma_div_is_ordered_by_denominator(
            (8 * stored.len()) as int,
            1,
            bits as int,
        );
        assert(stored.len() * 8 == 8 * stored.len());
        assert(fields <= usize::MAX);
        let choice = header[0] as nat / 64;
        assert(choice == 0 || choice == 1 || choice == 2 || choice == 3);
        assert(bit_range(0) == 1);
        assert(bit_range(1) == 2);
        assert(bit_range(2) == 4);
        assert(bit_range(3) == 8);
    }
}

/// A bitunpack node takes bytes that fit in the stated number of bits, and bits for the
/// room behind them where there is some.
pub proof fn law_bitunpack_accepts(stored: Seq<u8>, header: Seq<u8>, limits: Limits)
    requires
        8 * stored.len() + 7 <= usize::MAX,
    ensures
        bitunpack_node(stored, header, limits) is Ok <==> {
            let bits = header[0] as nat;
            let len = (stored.len() * bits + 7) / 8;
            &&& 1 <= header.len() <= 2
            &&& 1 <= bits <= 8
            &&& has_room(limits, len)
            &&& forall|i: int|
                0 <= i < stored.len() ==> (#[trigger] stored[i]) < bit_range(bits)
            &&& header.len() == 2 ==> 8 * len > stored.len() * bits && header[1] < bit_range(
                (8 * len - stored.len() * bits) as nat,
            )
        },
{
    if 1 <= header.len() <= 2 && 1 <= header[0] <= 8 {
        let bits = header[0] as nat;
        assert(stored.len() * bits <= 8 * stored.len()) by (nonlinear_arith)
            requires
                bits <= 8,
        ;
        if exists|i: int|
            0 <= i < stored.len() && #[trigger] stored[i] as nat >= bit_range(bits as nat) {
            let i = choose|i: int|
                0 <= i < stored.len() && #[trigger] stored[i] as nat >= bit_range(bits as nat);
            assert(!(stored[i] < bit_range(bits)));
        }
    }
}

/// The conversions of big-endian integers take whole integers of one, two, four or eight
/// bytes: of the width of the input, or of the width whose logarithm the header states.
pub proof fn law_big_endian_conversions_accept(
    stored: StreamView,
    header: Seq<u8>,
    limits: Limits,
)
    ensures
        struct_to_num_be_node(stored, header, limits) is Ok <==> {
            let width = stored.element_width;
            &&& header.len() == 0
            &&& width == 1 || width == 2 || width == 4 || width == 8
            &&& stored.bytes.len() % width == 0
            &&& has_room(limits, stored.bytes.len())
        },
        serial_to_num_be_node(stored, header, limits) is Ok <==> {
            &&& header.len() == 1
            &&& header[0] < 4
            &&& stored.bytes.len() % bit_range(header[0] as nat) == 0
            &&& has_room(limits, stored.bytes.len())
        },
        serial_to_num_be_node(stored, header, limits) is Ok ==> serial_to_num_be_node(
            stored,
            header,
            limits,
        )->Ok_0.element_width == bit_range(header[0] as nat),
        struct_to_num_be_node(stored, header, limits) is Ok ==> struct_to_num_be_node(
            stored,
            header,
            limits,
        )->Ok_0.element_width == stored.element_width,
{
    lemma_bit_range_values();
    assert(bit_range(0) == 1);
    assert(bit_range(1) == 2);
    assert(bit_range(2) == 4);
    assert(bit_range(3) == 8);
}

/// The lengths of the integers from `index` on in decimal, added up.
pub open spec fn decimals_from(bytes: Seq<u8>, index: nat) -> nat
    decreases bytes.len() / 8 - index,
{
    if index >= bytes.len() / 8 {
        0
    } else {
        decimal(signed(element(bytes, 8, index as int))).len() + decimals_from(bytes, index + 1)
    }
}

proof fn lemma_decimals(
    bytes: Seq<u8>,
    limits: Limits,
    index: nat,
    text: Seq<u8>,
    lengths: Seq<u32>,
)
    requires
        has_room(limits, text.len()),
    ensures
        parse_int_from(bytes, limits, index, text, lengths) is Ok <==> has_room(
            limits,
            text.len() + decimals_from(bytes, index),
        ),
    decreases bytes.len() / 8 - index,
{
    if index < bytes.len() / 8 {
        let number = decimal(signed(element(bytes, 8, index as int)));
        if has_room(limits, text.len() + number.len()) {
            lemma_decimals(
                bytes,
                limits,
                index + 1,
                text + number,
                lengths.push(number.len() as u32),
            );
        }
    }
}

/// A parse_int node takes whole integers of eight bytes that are no strings, and no header.
pub proof fn law_parse_int_accepts(input: StreamView, header: Seq<u8>, limits: Limits)
    ensures
        parse_int_node(input, header, limits) is Ok <==> {
            &&& header.len() == 0
            &&& input.element_width == 8
            &&& input.string_lengths is None
            &&& input.bytes.len() % 8 == 0
            &&& has_room(limits, decimals_from(input.bytes, 0))
        },
{
    lemma_decimals(input.bytes, limits, 0, Seq::empty(), Seq::empty());
}

} // verus!
