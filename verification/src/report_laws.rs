//! What messages, limits and kept plans say.

use vstd::prelude::*;

use crate::decode_plan::joined_chunks;
use crate::decoder::{kept_frame, Options};
use crate::error::{ErrorKind, ErrorView};
use crate::execute::DecodedChunk;
use crate::limits::{paranoid_limits, strict_limits, Limits};
use crate::text::{decimal_text, error_text, kind_name};

verus! {

/// The number that some digits write.
pub open spec fn written_number(digits: Seq<char>) -> int
    decreases digits.len(),
{
    if digits.len() == 0 {
        0
    } else {
        10 * written_number(digits.drop_last()) + (digits.last() as int - '0' as int)
    }
}

/// The digits of a number are digits, write the number, and do not begin with a zero but
/// for zero itself.
pub proof fn law_number_text_reads_back(value: nat)
    ensures
        decimal_text(value).len() > 0,
        forall|i: int|
            0 <= i < decimal_text(value).len() ==> '0' <= #[trigger] decimal_text(value)[i] <= '9',
        written_number(decimal_text(value)) == value,
        value > 0 ==> decimal_text(value)[0] != '0',
        value == 0 ==> decimal_text(value).len() == 1,
    decreases value,
{
    let text = decimal_text(value);
    if value < 10 {
        assert(text.drop_last() =~= Seq::empty());
        assert(written_number(Seq::empty()) == 0);
    } else {
        law_number_text_reads_back(value / 10);
        assert(text.drop_last() =~= decimal_text(value / 10));
        assert forall|i: int| 0 <= i < text.len() implies '0' <= #[trigger] text[i] <= '9' by {
            if i < text.len() - 1 {
                assert(text[i] == decimal_text(value / 10)[i]);
            }
        }
        assert(text[0] == decimal_text(value / 10)[0]);
    }
}

/// Kinds of errors that differ have names that differ.
pub proof fn law_kinds_have_names_of_their_own(left: ErrorKind, right: ErrorKind)
    ensures
        kind_name(left) == kind_name(right) <==> left == right,
{
    reveal_strlit("Truncated");
    reveal_strlit("Malformed");
    reveal_strlit("Unsupported");
    reveal_strlit("LimitExceeded");
    reveal_strlit("ChecksumMismatch");
    reveal_strlit("InvalidGraph");
    reveal_strlit("InvalidType");
    reveal_strlit("IntegerOverflow");
    if kind_name(left) == kind_name(right) {
        assert(kind_name(left)[0] == kind_name(right)[0]);
        assert(kind_name(left).len() == kind_name(right).len());
    }
}

/// A message begins with the name of its kind, ends with the explanation where there is
/// one, and has the place in digits between them where it is known.
pub proof fn law_message_tells_what_is_known(error: ErrorView)
    ensures
        kind_name(error.kind).is_prefix_of(error_text(error)),
        error.detail is Some ==> error.detail->0.is_suffix_of(error_text(error)),
        error.offset is None && error.detail is None ==> error_text(error) == kind_name(
            error.kind,
        ),
        error.offset is Some ==> ({
            let start = kind_name(error.kind).len() + 9;
            let digits = error_text(error).subrange(
                start as int,
                (start + decimal_text(error.offset->0 as nat).len()) as int,
            );
            &&& start + decimal_text(error.offset->0 as nat).len() <= error_text(error).len()
            &&& written_number(digits) == error.offset->0
        }),
{
    reveal_strlit(" at byte ");
    reveal_strlit(": ");
    let text = error_text(error);
    let name = kind_name(error.kind);
    assert(text.take(name.len() as int) =~= name);
    if error.detail is Some {
        let detail = error.detail->0;
        assert(text.skip(text.len() - detail.len()) =~= detail);
    } else if error.offset is None {
        assert(text =~= name);
    }
    if error.offset is Some {
        let digits = decimal_text(error.offset->0 as nat);
        law_number_text_reads_back(error.offset->0 as nat);
        let start = name.len() + 9;
        assert(text.subrange(start as int, (start + digits.len()) as int) =~= digits);
    }
}

/// Whether limits admit no more than others.
pub open spec fn no_wider(limits: Limits, than: Limits) -> bool {
    &&& limits.max_frame_bytes <= than.max_frame_bytes
    &&& limits.max_decoded_bytes <= than.max_decoded_bytes
    &&& limits.max_chunks <= than.max_chunks
    &&& limits.max_nodes <= than.max_nodes
    &&& limits.max_streams <= than.max_streams
    &&& limits.max_transform_header_bytes <= than.max_transform_header_bytes
    &&& limits.max_stored_stream_bytes <= than.max_stored_stream_bytes
    &&& limits.max_buffer_bytes <= than.max_buffer_bytes
    &&& limits.max_graph_depth <= than.max_graph_depth
    &&& limits.max_expansion_ratio <= than.max_expansion_ratio
}

/// The limits for hostile input admit no more than the usual ones in any respect, and less
/// in each.
pub proof fn law_hostile_input_has_tighter_limits()
    ensures
        no_wider(paranoid_limits(), strict_limits()),
        4 * paranoid_limits().max_frame_bytes == strict_limits().max_frame_bytes,
        4 * paranoid_limits().max_decoded_bytes == strict_limits().max_decoded_bytes,
        4 * paranoid_limits().max_chunks == strict_limits().max_chunks,
        4 * paranoid_limits().max_nodes == strict_limits().max_nodes,
        4 * paranoid_limits().max_streams == strict_limits().max_streams,
        4 * paranoid_limits().max_transform_header_bytes
            == strict_limits().max_transform_header_bytes,
        4 * paranoid_limits().max_stored_stream_bytes == strict_limits().max_stored_stream_bytes,
        4 * paranoid_limits().max_buffer_bytes == strict_limits().max_buffer_bytes,
        4 * paranoid_limits().max_graph_depth == strict_limits().max_graph_depth,
        4 * paranoid_limits().max_expansion_ratio == strict_limits().max_expansion_ratio,
{
}

/// A frame whose plan is kept is never larger than plans may be kept for, is one that was
/// decoded, and stays the one that is kept when it is decoded again.
pub proof fn law_kept_frame_fits(kept: Option<Seq<u8>>, input: Seq<u8>, options: Options)
    requires
        kept is Some ==> kept->0.len() <= options.plan_cache_max_frame_bytes,
    ensures
        ({
            let next = kept_frame(kept, input, options);
            &&& next is Some ==> next->0.len() <= options.plan_cache_max_frame_bytes
            &&& next is Some ==> next == kept || next->0 == input
            &&& kept_frame(next, input, options) == next
            &&& next != kept && input.len() <= options.plan_cache_max_frame_bytes
                && options.plan_cache_max_frame_bytes > 0 ==> next == Some(input)
        }),
{
}

/// Chunks put end to end in two lots are the first lot and then the second, and one chunk
/// is its own bytes.
pub proof fn law_chunks_stand_in_order(first: Seq<DecodedChunk<'_>>, second: Seq<DecodedChunk<'_>>)
    ensures
        joined_chunks(first + second) == joined_chunks(first) + joined_chunks(second),
        first.len() == 1 ==> joined_chunks(first) == first[0]@,
    decreases second.len(),
{
    if first.len() == 1 {
        assert(joined_chunks(first.drop_last()) =~= Seq::empty());
        assert(first.last() == first[0]);
        assert(joined_chunks(first) =~= first[0]@);
    }
    if second.len() == 0 {
        assert(first + second =~= first);
        assert(joined_chunks(first) + joined_chunks(second) =~= joined_chunks(first));
    } else {
        law_chunks_stand_in_order(first, second.drop_last());
        assert((first + second).drop_last() =~= first + second.drop_last());
        assert((first + second).last() == second.last());
        assert(joined_chunks(first + second) =~= joined_chunks(first) + joined_chunks(second));
    }
}

} // verus!
