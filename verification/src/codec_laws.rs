//! What is handed to the zstd and lz4 decoders, and what comes of it.

use vstd::prelude::*;

use crate::bytes::{law_var_u64_round_trip, var_bytes, var_u64};
use crate::codecs::{lz4_block, lz4_node, zstd_dictionary_frame, zstd_frame};
use crate::error::ErrorView;
use crate::limits::Limits;
use crate::nodes::{zstd_node, ContextView};

verus! {

proof fn lemma_width_in_front(width: u64, frame: Seq<u8>)
    ensures
        ({
            let stored = var_bytes(width as nat) + frame;
            &&& var_u64(stored, 0) == Ok::<(u64, int), ErrorView>(
                (width, var_bytes(width as nat).len() as int),
            )
            &&& stored.subrange(var_bytes(width as nat).len() as int, stored.len() as int) == frame
        }),
{
    let stored = var_bytes(width as nat) + frame;
    law_var_u64_round_trip(Seq::empty(), width, frame);
    assert(Seq::<u8>::empty() + var_bytes(width as nat) =~= var_bytes(width as nat));
    assert(stored.subrange(var_bytes(width as nat).len() as int, stored.len() as int) =~= frame);
}

/// The frame behind an element width of one is decoded whole, as far as the limits let it;
/// behind any other element width it is refused.
pub proof fn law_zstd_frame_stands_behind_its_width(
    width: u64,
    frame: Seq<u8>,
    context: ContextView,
)
    ensures
        ({
            let decoded = zstd_frame(frame, context.limits.max_decoded_bytes as nat);
            let made = zstd_node(
                var_bytes(width as nat) + frame,
                Seq::empty(),
                None,
                context,
            );
            &&& made is Ok <==> width == 1 && decoded is Ok && decoded->Ok_0.len()
                <= context.limits.max_buffer_bytes
            &&& made is Ok ==> made->Ok_0 == decoded->Ok_0
        }),
{
    lemma_width_in_front(width, frame);
}

/// A frame that names a dictionary is decoded with that one of the dictionaries of its
/// bundle, and refused where there is none.
pub proof fn law_zstd_frame_has_its_dictionary(
    frame: Seq<u8>,
    index: u32,
    id: Seq<u8>,
    context: ContextView,
)
    requires
        context.bundle_id == Some(id),
        id.len() == 32,
    ensures
        ({
            let made = zstd_node(var_bytes(1) + frame, Seq::empty(), Some(index), context);
            let loaded = context.store.contains_key(id) && index < context.store[id].len();
            let decoded = zstd_dictionary_frame(
                frame,
                context.store[id][index as int],
                context.limits.max_decoded_bytes as nat,
            );
            &&& made is Ok <==> loaded && decoded is Ok && decoded->Ok_0.len()
                <= context.limits.max_buffer_bytes
            &&& made is Ok ==> made->Ok_0 == decoded->Ok_0
        }),
{
    lemma_width_in_front(1, frame);
}

/// An lz4 block is decoded into the size that its header states, where the limits admit it,
/// and refused where it gives fewer bytes.
pub proof fn law_lz4_block_fills_its_size(stored: Seq<u8>, size: u64, limits: Limits)
    ensures
        ({
            let made = lz4_node(stored, var_bytes(size as nat), limits);
            let decoded = lz4_block(stored, size as nat);
            let (buffer, written) = decoded->Some_0;
            &&& made is Ok <==> size <= limits.max_decoded_bytes && size
                <= limits.max_buffer_bytes && decoded is Some && written == size
            &&& made is Ok ==> made->Ok_0 == buffer
        }),
{
    law_var_u64_round_trip(Seq::empty(), size, Seq::empty());
    let header = var_bytes(size as nat);
    assert(Seq::<u8>::empty() + header + Seq::<u8>::empty() =~= header);
    assert(Seq::<u8>::empty() + header =~= header);
}

} // verus!
