//! Decoding a parsed frame.

use vstd::prelude::*;
use vstd::slice::slice_subrange;

use crate::append::{
    chunk_appended, decode_transform_chunk_appending, extends, law_chunk_ignores_earlier_bytes,
    law_chunk_only_overflows,
};
use crate::bytes::{append_bytes, read_var_u64, var_u64};
use crate::codecs::{decode_zstd_magicless, zstd_magicless};
use crate::dict::{DictionaryStore, StoreView};
use crate::direct_append::{
    chunk_plans_from, direct_plans, plan_views, prepare_direct_append_chunk_plans, ChunkExecutionPlans,
    DirectAppendChunkPlans,
};
use crate::error::{
    appends, detailed, error_of, fail, outcome, plain, same_or_overflow, Error, ErrorKind, ErrorView,
};
use crate::execute::{
    chunk_decoded, chunk_planned_and_decoded, decode_transform_chunk,
    decode_transform_chunk_with_plan, DecodedChunk,
};
use crate::frame_plan::{
    range_bytes, ByteRange, ChunkPlan, ChunkView, FrameInfo, FrameInfoView, FramePlan,
    FrameValueType, FrameView, NodePlan,
};
use crate::graph::{chunk_plan, ChunkExecutionPlan, PlanView};
use crate::limits::Limits;
use crate::nodes::{ContextView, StandardNodeContext};
use crate::output::{
    check_output_size, decoded_checksum_error, output_size_error, verify_decoded_checksum,
};
use crate::scratch::DecodeScratch;
use crate::standard::ZSTD_ID;

verus! {

/// What the transforms of a frame are executed with.
pub open spec fn frame_context(info: FrameInfoView, limits: Limits, store: StoreView) -> ContextView {
    ContextView {
        version: info.format_version,
        limits,
        bundle_id: info.dictionary_bundle_id,
        store,
    }
}

fn make_context<'a>(info: &'a FrameInfo, limits: Limits, dict_store: &'a DictionaryStore) -> (context:
    StandardNodeContext<'a>)
    ensures
        context@ == frame_context(info@, limits, dict_store@),
        context.limits == limits,
        context.dict_store == dict_store,
{
    StandardNodeContext {
        format_version: info.format_version,
        limits,
        dictionary_bundle_id: match &info.dictionary_bundle_id {
            Some(id) => Some(id.as_slice()),
            None => None,
        },
        dict_store,
    }
}

/// Whether a frame regenerates one stream of bytes.
pub open spec fn serial_output(info: FrameInfoView) -> bool {
    info.output_types.len() == 1 && info.output_types[0] == FrameValueType::Serial
}

fn has_serial_output(info: &FrameInfo) -> (serial: bool)
    ensures
        serial == serial_output(info@),
{
    info.output_types.len() == 1 && info.output_types[0] == FrameValueType::Serial
}

/// The bytes of a chunk without transforms.
pub open spec fn stored_only(input: Seq<u8>, chunk: ChunkView) -> Result<Seq<u8>, ErrorView> {
    if chunk.stored.len() == 0 {
        Err(
            detailed(
                ErrorKind::Unsupported,
                "stored-output chunk does not contain one stored stream"@,
            ),
        )
    } else if chunk.stored.len() > 1 {
        Err(
            detailed(
                ErrorKind::Unsupported,
                "stored-output chunk contains multiple stored streams"@,
            ),
        )
    } else {
        range_bytes(chunk.stored[0], input)
    }
}

/// Finds the bytes of a chunk without transforms.
fn stored_only_chunk<'a>(input: &'a [u8], chunk: &ChunkPlan) -> (result: Result<&'a [u8], Error>)
    ensures
        match stored_only(input@, chunk@) {
            Ok(bytes) => result is Ok && result->Ok_0@ == bytes,
            Err(error) => result is Err && result->Err_0@ == error,
        },
{
    match chunk.stored_stream_range(0) {
        None => Err(
            fail(
                ErrorKind::Unsupported,
                "stored-output chunk does not contain one stored stream",
            ),
        ),
        Some(range) => {
            if chunk.stored_stream_range(1).is_some() {
                return Err(
                    fail(
                        ErrorKind::Unsupported,
                        "stored-output chunk contains multiple stored streams",
                    ),
                );
            }
            range.as_slice(input)
        },
    }
}

/// What a chunk decodes to behind `base` bytes: directly, where it has a plan for that.
pub open spec fn appended_chunk(
    input: Seq<u8>,
    chunk: ChunkView,
    plan: Option<PlanView>,
    context: ContextView,
    base: nat,
) -> Result<Seq<u8>, ErrorView> {
    if chunk.nodes.len() == 0 {
        stored_only(input, chunk)
    } else {
        match plan {
            Some(plan) => chunk_appended(input, chunk, plan, context, base),
            None => chunk_planned_and_decoded(input, chunk, context),
        }
    }
}

/// What the chunks from `index` on append to `output`, in front of which stand `base`
/// bytes.
pub open spec fn appended_from(
    input: Seq<u8>,
    chunks: Seq<ChunkView>,
    plans: Seq<Option<PlanView>>,
    context: ContextView,
    base: nat,
    index: nat,
    output: Seq<u8>,
) -> Result<Seq<u8>, ErrorView>
    decreases chunks.len() - index,
{
    if index >= chunks.len() {
        Ok(output)
    } else {
        match appended_chunk(
            input,
            chunks[index as int],
            plans[index as int],
            context,
            base + output.len(),
        ) {
            Err(error) => Err(error),
            Ok(bytes) => if output.len() + bytes.len() > usize::MAX {
                Err(plain(ErrorKind::IntegerOverflow))
            } else {
                match decoded_checksum_error(bytes, chunks[index as int].decoded_checksum) {
                    Some(error) => Err(error),
                    None => appended_from(
                        input,
                        chunks,
                        plans,
                        context,
                        base,
                        index + 1,
                        output + bytes,
                    ),
                }
            },
        }
    }
}

/// The bytes of a whole frame, or why they are refused.
pub open spec fn size_checked(
    bytes: Result<Seq<u8>, ErrorView>,
    frame_bytes: nat,
    info: FrameInfoView,
    limits: Limits,
) -> Result<Seq<u8>, ErrorView> {
    match bytes {
        Err(error) => Err(error),
        Ok(bytes) => match output_size_error(bytes.len(), frame_bytes, info, limits) {
            Some(error) => Err(error),
            None => Ok(bytes),
        },
    }
}

/// What a frame decodes to behind `base` bytes, where chunks with a plan write to the
/// output directly.
pub open spec fn plan_appended(
    input: Seq<u8>,
    plan: FrameView,
    plans: Seq<Option<PlanView>>,
    limits: Limits,
    store: StoreView,
    base: nat,
) -> Result<Seq<u8>, ErrorView> {
    if plans.len() != plan.chunks.len() {
        Err(detailed(ErrorKind::InvalidGraph, "chunk execution plan count mismatch"@))
    } else {
        size_checked(
            appended_from(
                input,
                plan.chunks,
                plans,
                frame_context(plan.info, limits, store),
                base,
                0,
                Seq::empty(),
            ),
            input.len(),
            plan.info,
            limits,
        )
    }
}

/// What a chunk decodes to on its own: under its plan, where plans were made.
pub open spec fn collected_chunk(
    input: Seq<u8>,
    chunk: ChunkView,
    plans: Option<Seq<Option<PlanView>>>,
    index: int,
    context: ContextView,
) -> Result<Seq<u8>, ErrorView> {
    if chunk.nodes.len() == 0 {
        stored_only(input, chunk)
    } else {
        match plans {
            None => chunk_planned_and_decoded(input, chunk, context),
            Some(plans) => match plans[index] {
                None => Err(
                    detailed(ErrorKind::InvalidGraph, "chunk execution plan is missing"@),
                ),
                Some(plan) => chunk_decoded(input, chunk, plan, context),
            },
        }
    }
}

/// What the chunks from `index` on decode to behind `output`.
pub open spec fn collected_from(
    input: Seq<u8>,
    chunks: Seq<ChunkView>,
    plans: Option<Seq<Option<PlanView>>>,
    context: ContextView,
    index: nat,
    output: Seq<u8>,
) -> Result<Seq<u8>, ErrorView>
    decreases chunks.len() - index,
{
    if index >= chunks.len() {
        Ok(output)
    } else {
        match collected_chunk(input, chunks[index as int], plans, index as int, context) {
            Err(error) => Err(error),
            Ok(bytes) => if output.len() + bytes.len() > usize::MAX {
                Err(plain(ErrorKind::IntegerOverflow))
            } else {
                match decoded_checksum_error(bytes, chunks[index as int].decoded_checksum) {
                    Some(error) => Err(error),
                    None => collected_from(
                        input,
                        chunks,
                        plans,
                        context,
                        index + 1,
                        output + bytes,
                    ),
                }
            },
        }
    }
}

/// What a frame decodes to, chunk by chunk.
pub open spec fn plan_collected(
    input: Seq<u8>,
    plan: FrameView,
    plans: Option<Seq<Option<PlanView>>>,
    limits: Limits,
    store: StoreView,
) -> Result<Seq<u8>, ErrorView> {
    if !serial_output(plan.info) {
        Err(
            detailed(
                ErrorKind::Unsupported,
                "only single serial stored-output frames are implemented"@,
            ),
        )
    } else if plans is Some && plans->Some_0.len() != plan.chunks.len() {
        Err(detailed(ErrorKind::InvalidGraph, "chunk execution plan count mismatch"@))
    } else {
        size_checked(
            collected_from(
                input,
                plan.chunks,
                plans,
                frame_context(plan.info, limits, store),
                0,
                Seq::empty(),
            ),
            input.len(),
            plan.info,
            limits,
        )
    }
}

/// Whether a frame is one zstd transform of one stored stream.
pub open spec fn single_zstd(plan: FrameView) -> bool {
    &&& serial_output(plan.info)
    &&& plan.chunks.len() == 1
    &&& plan.chunks[0].nodes.len() == 1
    &&& plan.chunks[0].stored.len() == 1
    &&& plan.chunks[0].nodes[0].standard_id == Some(ZSTD_ID)
    &&& plan.chunks[0].nodes[0].variable_outputs == 0
    &&& plan.chunks[0].nodes[0].regen_distances.len() == 1
    &&& plan.chunks[0].nodes[0].regen_distances[0] == 0
    &&& plan.chunks[0].nodes[0].dict_index is None
    &&& plan.chunks[0].nodes[0].header_size == 0
    &&& plan.chunks[0].nodes[0].header_start == 0
}

/// Tells whether a frame is one zstd transform of one stored stream.
pub fn is_single_zstd(plan: &FramePlan) -> (single: bool)
    ensures
        single == single_zstd(plan@),
{
    if !has_serial_output(&plan.info) || plan.chunks.len() != 1 {
        return false;
    }
    let chunk: &ChunkPlan = &plan.chunks[0];
    proof {
        assert(plan@.chunks[0] == chunk@);
    }
    if chunk.nodes.len() != 1 {
        return false;
    }
    let node: &NodePlan = &chunk.nodes[0];
    proof {
        assert(chunk@.nodes[0] == node@);
    }
    let zstd: bool = match node.standard_id {
        Some(id) => id == ZSTD_ID,
        None => false,
    };
    zstd && node.variable_outputs == 0 && node.regen_distances.len() == 1
        && node.regen_distances[0] == 0 && node.dict_index.is_none() && node.transform_header_size
        == 0 && node.transform_header_start == 0 && chunk.stored.len() == 1
}

/// What the shortcut for a frame of one zstd transform gives, where it is taken.
pub open spec fn single_zstd_attempt(input: Seq<u8>, plan: FrameView, limits: Limits) -> Result<
    Option<Seq<u8>>,
    ErrorView,
> {
    if !single_zstd(plan) {
        Ok(None)
    } else {
        match range_bytes(plan.chunks[0].stored[0], input) {
            Err(error) => Err(error),
            Ok(stored) => match var_u64(stored, 0) {
                Err(error) => Err(error),
                Ok((width, offset)) => if width != 1 {
                    Ok(None)
                } else {
                    match size_checked(
                        zstd_magicless(
                            stored.subrange(offset, stored.len() as int),
                            None,
                            limits,
                        ),
                        input.len(),
                        plan.info,
                        limits,
                    ) {
                        Err(error) => Err(error),
                        Ok(bytes) => match decoded_checksum_error(
                            bytes,
                            plan.chunks[0].decoded_checksum,
                        ) {
                            Some(error) => Err(error),
                            None => Ok(Some(bytes)),
                        },
                    }
                },
            },
        }
    }
}

/// Takes the shortcut for a frame of one zstd transform, where it can be taken.
pub fn try_decode_single_zstd_into_dst(
    input: &[u8],
    plan: &FramePlan,
    dst: &mut Vec<u8>,
    limits: Limits,
) -> (result: Result<Option<usize>, Error>)
    ensures
        match single_zstd_attempt(input@, plan@, limits) {
            Ok(Some(bytes)) => result is Ok && result->Ok_0 == Some(bytes.len() as usize)
                && bytes.len() <= usize::MAX && limits.admits(bytes.len() as int) && final(dst)@
                == old(dst)@ + bytes,
            Ok(None) => result is Ok && result->Ok_0 is None && final(dst)@ == old(dst)@,
            Err(error) => result is Err && result->Err_0@ == error && final(dst)@ == old(dst)@,
        },
{
    if !is_single_zstd(plan) {
        return Ok(None);
    }
    let chunk: &ChunkPlan = &plan.chunks[0];
    proof {
        assert(plan@.chunks[0] == chunk@);
    }
    let stored = chunk.stored[0].as_slice(input)?;
    let mut offset: usize = 0;
    let width: u64 = read_var_u64(stored, &mut offset)?;
    if width != 1 {
        return Ok(None);
    }
    let decoded = decode_zstd_magicless(slice_subrange(stored, offset, stored.len()), limits)?;
    check_output_size(decoded.len(), input.len(), &plan.info, limits)?;
    verify_decoded_checksum(decoded.as_slice(), chunk.decoded_checksum)?;
    append_bytes(dst, decoded.as_slice());
    Ok(Some(decoded.len()))
}

/// A frame of one zstd transform.
#[derive(Clone, Copy, Debug)]
pub struct SingleZstdFrame {
    pub stored: ByteRange,
    pub decoded_bytes: Option<usize>,
    pub decoded_checksum: Option<u32>,
    pub frame_bytes: usize,
}

/// The frame of one zstd transform that a plan is.
pub open spec fn single_zstd_frame(plan: FrameView) -> SingleZstdFrame {
    SingleZstdFrame {
        stored: plan.chunks[0].stored[0],
        decoded_bytes: plan.info.decoded_bytes,
        decoded_checksum: plan.chunks[0].decoded_checksum,
        frame_bytes: plan.info.frame_bytes,
    }
}

/// The error, if any, of decoding `written` bytes out of a frame of one zstd transform.
pub open spec fn single_zstd_size_error(written: nat, frame: SingleZstdFrame, limits: Limits) -> Option<
    ErrorView,
> {
    if frame.decoded_bytes matches Some(expected) && expected != written {
        Some(detailed(ErrorKind::Malformed, "decoded output size mismatch"@))
    } else if frame.frame_bytes > 0 && written / (frame.frame_bytes as nat)
        > limits.max_expansion_ratio {
        Some(detailed(ErrorKind::LimitExceeded, "expansion ratio exceeded"@))
    } else {
        None
    }
}

/// What a frame of one zstd transform decodes to.
pub open spec fn single_zstd_decoded(input: Seq<u8>, frame: SingleZstdFrame, limits: Limits) -> Result<
    Seq<u8>,
    ErrorView,
> {
    match range_bytes(frame.stored, input) {
        Err(error) => Err(error),
        Ok(stored) => match var_u64(stored, 0) {
            Err(error) => Err(error),
            Ok((width, offset)) => if width != 1 {
                Err(
                    detailed(
                        ErrorKind::Unsupported,
                        "zstd serial streams with non-byte elements are unsupported"@,
                    ),
                )
            } else {
                match zstd_magicless(
                    stored.subrange(offset, stored.len() as int),
                    None,
                    limits,
                ) {
                    Err(error) => Err(error),
                    Ok(bytes) => match single_zstd_size_error(bytes.len(), frame, limits) {
                        Some(error) => Err(error),
                        None => match decoded_checksum_error(bytes, frame.decoded_checksum) {
                            Some(error) => Err(error),
                            None => Ok(bytes),
                        },
                    },
                }
            },
        },
    }
}

/// Decodes a frame of one zstd transform to the end of `dst`.
pub fn decode_single_zstd_frame(
    input: &[u8],
    frame: SingleZstdFrame,
    dst: &mut Vec<u8>,
    limits: Limits,
) -> (result: Result<usize, Error>)
    ensures
        appends(
            single_zstd_decoded(input@, frame, limits),
            old(dst)@,
            final(dst)@,
            error_of(result),
        ),
        result is Ok ==> result->Ok_0 + old(dst)@.len() == final(dst)@.len() && limits.admits(
            result->Ok_0 as int,
        ),
{
    let stored = frame.stored.as_slice(input)?;
    let mut offset: usize = 0;
    let width: u64 = read_var_u64(stored, &mut offset)?;
    if width != 1 {
        return Err(
            fail(
                ErrorKind::Unsupported,
                "zstd serial streams with non-byte elements are unsupported",
            ),
        );
    }
    let decoded = decode_zstd_magicless(slice_subrange(stored, offset, stored.len()), limits)?;
    let written: usize = decoded.len();
    match frame.decoded_bytes {
        Some(expected) => {
            if expected != written {
                return Err(fail(ErrorKind::Malformed, "decoded output size mismatch"));
            }
        },
        None => {},
    }
    if frame.frame_bytes > 0 && written / frame.frame_bytes > limits.max_expansion_ratio {
        return Err(fail(ErrorKind::LimitExceeded, "expansion ratio exceeded"));
    }
    verify_decoded_checksum(decoded.as_slice(), frame.decoded_checksum)?;
    append_bytes(dst, decoded.as_slice());
    Ok(written)
}

/// Decodes a chunk to the end of `dst`: directly, where it has a plan for that.
fn append_chunk(
    input: &[u8],
    chunk: &ChunkPlan,
    plan: &Option<ChunkExecutionPlan>,
    context: StandardNodeContext<'_>,
    scratch: &mut DecodeScratch,
    dst: &mut Vec<u8>,
) -> (result: Result<(), Error>)
    requires
        old(scratch).well_formed(),
        context.dict_store.well_formed(),
    ensures
        final(scratch).well_formed(),
        extends(
            appended_chunk(
                input@,
                chunk@,
                match *plan {
                    Some(plan) => Some(plan@),
                    None => None,
                },
                context@,
                old(dst)@.len(),
            ),
            old(dst)@,
            final(dst)@,
            error_of(result),
        ),
{
    if !chunk.has_nodes() {
        let stored = stored_only_chunk(input, chunk)?;
        append_bytes(dst, stored);
        return Ok(());
    }
    match plan {
        Some(plan) => {
            decode_transform_chunk_appending(input, chunk, plan, context, scratch, dst)?;
            Ok(())
        },
        None => {
            let decoded = decode_transform_chunk(input, chunk, context, scratch)?;
            append_bytes(dst, decoded.as_slice());
            Ok(())
        },
    }
}

/// Decodes the chunks of a frame to the end of `dst`.
fn decode_plan_appending_to_dst(
    input: &[u8],
    plan: &FramePlan,
    chunk_plans: &Vec<Option<ChunkExecutionPlan>>,
    dst: &mut Vec<u8>,
    limits: Limits,
    scratch: &mut DecodeScratch,
    dict_store: &DictionaryStore,
) -> (result: Result<(), Error>)
    requires
        old(scratch).well_formed(),
        dict_store.well_formed(),
    ensures
        final(scratch).well_formed(),
        extends(
            plan_appended(
                input@,
                plan@,
                plan_views(chunk_plans@),
                limits,
                dict_store@,
                old(dst)@.len(),
            ),
            old(dst)@,
            final(dst)@,
            error_of(result),
        ),
{
    if chunk_plans.len() != plan.chunks.len() {
        return Err(fail(ErrorKind::InvalidGraph, "chunk execution plan count mismatch"));
    }
    let context = make_context(&plan.info, limits, dict_store);
    let start: usize = dst.len();
    let ghost before = dst@;
    let ghost chunks = plan@.chunks;
    let ghost plans = plan_views(chunk_plans@);
    let ghost total = appended_from(
        input@,
        chunks,
        plans,
        context@,
        before.len(),
        0,
        Seq::empty(),
    );
    let ghost mut written: Seq<u8> = Seq::empty();
    let mut total_len: usize = 0;
    let mut index: usize = 0;
    proof {
        assert(dst@ =~= before + written);
    }
    while index < plan.chunks.len()
        invariant
            index <= plan.chunks@.len(),
            plan.chunks@.len() == chunk_plans@.len(),
            chunks == plan@.chunks,
            plans == plan_views(chunk_plans@),
            scratch.well_formed(),
            context.dict_store.well_formed(),
            before == old(dst)@,
            start == before.len(),
            dst@ == before + written,
            total_len == written.len(),
            context@ == frame_context(plan@.info, limits, dict_store@),
            total == appended_from(
                input@,
                chunks,
                plans,
                context@,
                before.len(),
                0,
                Seq::empty(),
            ),
            total == appended_from(
                input@,
                chunks,
                plans,
                context@,
                before.len(),
                index as nat,
                written,
            ),
        decreases plan.chunks@.len() - index,
    {
        let chunk: &ChunkPlan = &plan.chunks[index];
        let chunk_start: usize = dst.len();
        let ghost held = dst@;
        proof {
            assert(chunks[index as int] == chunk@);
        }
        let ghost bytes = appended_chunk(
            input@,
            chunk@,
            plans[index as int],
            context@,
            before.len() + written.len(),
        );
        append_chunk(input, chunk, &chunk_plans[index], context, scratch, dst)?;
        let decoded = slice_subrange(dst.as_slice(), chunk_start, dst.len());
        proof {
            assert(decoded@ =~= bytes->Ok_0);
            assert(dst@ =~= before + (written + decoded@));
        }
        total_len = match total_len.checked_add(decoded.len()) {
            Some(total_len) => total_len,
            None => {
                return Err(Error::new(ErrorKind::IntegerOverflow));
            },
        };
        verify_decoded_checksum(decoded, chunk.decoded_checksum)?;
        proof {
            written = written + decoded@;
        }
        index = index + 1;
    }
    check_output_size(total_len, input.len(), &plan.info, limits)?;
    Ok(())
}

/// Decodes the chunks of a frame to the end of `dst`, which is left as it was where
/// that fails.
fn decode_plan_appending_to_dst_with_rollback(
    input: &[u8],
    plan: &FramePlan,
    chunk_plans: &DirectAppendChunkPlans,
    dst: &mut Vec<u8>,
    limits: Limits,
    scratch: &mut DecodeScratch,
    dict_store: &DictionaryStore,
) -> (result: Result<usize, Error>)
    requires
        old(scratch).well_formed(),
        dict_store.well_formed(),
    ensures
        final(scratch).well_formed(),
        appends(
            plan_appended(
                input@,
                plan@,
                chunk_plans@,
                limits,
                dict_store@,
                old(dst)@.len(),
            ),
            old(dst)@,
            final(dst)@,
            error_of(result),
        ),
        result is Ok ==> result->Ok_0 + old(dst)@.len() == final(dst)@.len() && limits.admits(
            result->Ok_0 as int,
        ),
{
    let start: usize = dst.len();
    let ghost before = dst@;
    match decode_plan_appending_to_dst(
        input,
        plan,
        &chunk_plans.chunk_plans,
        dst,
        limits,
        scratch,
        dict_store,
    ) {
        Ok(_) => Ok(dst.len() - start),
        Err(error) => {
            dst.truncate(start);
            proof {
                assert(dst@ =~= before);
            }
            Err(error)
        },
    }
}

/// The bytes of some chunks, one after the other.
pub open spec fn joined_chunks(chunks: Seq<DecodedChunk<'_>>) -> Seq<u8>
    decreases chunks.len(),
{
    if chunks.len() == 0 {
        Seq::empty()
    } else {
        joined_chunks(chunks.drop_last()) + chunks.last()@
    }
}

/// Decoded chunks, and how many bytes they have together.
pub struct DecodedOutput<'a> {
    pub chunks: Vec<DecodedChunk<'a>>,
    pub total_len: usize,
}

/// Decodes a chunk on its own: under its plan, where plans were made.
fn collect_chunk<'a>(
    input: &'a [u8],
    chunk: &ChunkPlan,
    chunk_plans: Option<&ChunkExecutionPlans>,
    index: usize,
    context: StandardNodeContext<'_>,
    scratch: &mut DecodeScratch,
) -> (result: Result<DecodedChunk<'a>, Error>)
    requires
        old(scratch).well_formed(),
        context.dict_store.well_formed(),
        chunk_plans is Some ==> index < chunk_plans->Some_0.chunk_plans@.len(),
    ensures
        final(scratch).well_formed(),
        outcome(result) == collected_chunk(
            input@,
            chunk@,
            match chunk_plans {
                Some(plans) => Some(plans@),
                None => None,
            },
            index as int,
            context@,
        ),
{
    if !chunk.has_nodes() {
        let stored = stored_only_chunk(input, chunk)?;
        return Ok(DecodedChunk::Borrowed(stored));
    }
    match chunk_plans {
        None => decode_transform_chunk(input, chunk, context, scratch),
        Some(plans) => {
            proof {
                assert(plans@[index as int] == (match plans.chunk_plans@[index as int] {
                    Some(plan) => Some(plan@),
                    None => None,
                }));
            }
            match &plans.chunk_plans[index] {
                None => Err(fail(ErrorKind::InvalidGraph, "chunk execution plan is missing")),
                Some(plan) => decode_transform_chunk_with_plan(
                    input,
                    chunk,
                    plan,
                    context,
                    scratch,
                ),
            }
        },
    }
}

/// Decodes the chunks of a frame one by one.
fn collect_decoded_output<'a>(
    input: &'a [u8],
    plan: &FramePlan,
    limits: Limits,
    chunk_plans: Option<&ChunkExecutionPlans>,
    scratch: &mut DecodeScratch,
    dict_store: &DictionaryStore,
) -> (result: Result<DecodedOutput<'a>, Error>)
    requires
        old(scratch).well_formed(),
        dict_store.well_formed(),
    ensures
        final(scratch).well_formed(),
        match plan_collected(
            input@,
            plan@,
            match chunk_plans {
                Some(plans) => Some(plans@),
                None => None,
            },
            limits,
            dict_store@,
        ) {
            Ok(bytes) => result is Ok && joined_chunks(result->Ok_0.chunks@) == bytes
                && result->Ok_0.total_len == bytes.len(),
            Err(error) => result is Err && result->Err_0@ == error,
        },
{
    if !has_serial_output(&plan.info) {
        return Err(
            fail(
                ErrorKind::Unsupported,
                "only single serial stored-output frames are implemented",
            ),
        );
    }
    if let Some(plans) = chunk_plans {
        if plans.chunk_plans.len() != plan.chunks.len() {
            return Err(fail(ErrorKind::InvalidGraph, "chunk execution plan count mismatch"));
        }
    }
    let context = make_context(&plan.info, limits, dict_store);
    let ghost views = plan@.chunks;
    let ghost plan_list = match chunk_plans {
        Some(plans) => Some(plans@),
        None => None,
    };
    let ghost expected = plan_collected(input@, plan@, plan_list, limits, dict_store@);
    let ghost total = collected_from(input@, views, plan_list, context@, 0, Seq::empty());
    let mut chunks: Vec<DecodedChunk<'a>> = Vec::new();
    let mut total_len: usize = 0;
    let mut index: usize = 0;
    while index < plan.chunks.len()
        invariant
            index <= plan.chunks@.len(),
            views == plan@.chunks,
            plan_list == (match chunk_plans {
                Some(plans) => Some(plans@),
                None => None,
            }),
            chunk_plans is Some ==> chunk_plans->Some_0.chunk_plans@.len() == plan.chunks@.len(),
            scratch.well_formed(),
            context.dict_store.well_formed(),
            total_len == joined_chunks(chunks@).len(),
            expected == plan_collected(input@, plan@, plan_list, limits, dict_store@),
            expected == size_checked(total, input@.len(), plan@.info, limits),
            total == collected_from(
                input@,
                views,
                plan_list,
                context@,
                index as nat,
                joined_chunks(chunks@),
            ),
        decreases plan.chunks@.len() - index,
    {
        let chunk: &ChunkPlan = &plan.chunks[index];
        proof {
            assert(views[index as int] == chunk@);
        }
        let decoded = collect_chunk(input, chunk, chunk_plans, index, context, scratch)?;
        total_len = match total_len.checked_add(decoded.as_slice().len()) {
            Some(total_len) => total_len,
            None => {
                return Err(Error::new(ErrorKind::IntegerOverflow));
            },
        };
        verify_decoded_checksum(decoded.as_slice(), chunk.decoded_checksum)?;
        proof {
            assert(chunks@.push(decoded).drop_last() =~= chunks@);
        }
        chunks.push(decoded);
        index = index + 1;
    }
    check_output_size(total_len, input.len(), &plan.info, limits)?;
    Ok(DecodedOutput { chunks, total_len })
}

/// Which plans a frame is decoded with.
#[derive(Clone, Copy)]
pub enum PlanExecutionMode<'a> {
    ComputeDirectAppend,
    UseDirectAppend(&'a DirectAppendChunkPlans),
    UseChunkPlans(&'a ChunkExecutionPlans),
}

/// The mathematical content of a [`PlanExecutionMode`].
#[verifier::ext_equal]
pub enum ModeView {
    Compute,
    Direct(Seq<Option<PlanView>>),
    Chunks(Seq<Option<PlanView>>),
}

impl<'a> View for PlanExecutionMode<'a> {
    type V = ModeView;

    open spec fn view(&self) -> ModeView {
        match self {
            PlanExecutionMode::ComputeDirectAppend => ModeView::Compute,
            PlanExecutionMode::UseDirectAppend(plans) => ModeView::Direct(plans@),
            PlanExecutionMode::UseChunkPlans(plans) => ModeView::Chunks(plans@),
        }
    }
}

/// What a parsed frame decodes to behind `base` bytes.
pub open spec fn plan_decoded(
    input: Seq<u8>,
    plan: FrameView,
    mode: ModeView,
    limits: Limits,
    store: StoreView,
    base: nat,
) -> Result<Seq<u8>, ErrorView> {
    match single_zstd_attempt(input, plan, limits) {
        Err(error) => Err(error),
        Ok(Some(bytes)) => Ok(bytes),
        Ok(None) => match mode {
            ModeView::Direct(plans) => plan_appended(input, plan, plans, limits, store, base),
            ModeView::Chunks(plans) => plan_collected(input, plan, Some(plans), limits, store),
            ModeView::Compute => if serial_output(plan.info) && direct_plans(plan.chunks) is Some {
                plan_appended(
                    input,
                    plan,
                    direct_plans(plan.chunks)->Some_0,
                    limits,
                    store,
                    base,
                )
            } else {
                plan_collected(input, plan, None, limits, store)
            },
        },
    }
}

/// Appends decoded chunks, or moves the one there is to an empty `dst`.
fn append_decoded_output(decoded: DecodedOutput<'_>, dst: &mut Vec<u8>)
    ensures
        final(dst)@ == old(dst)@ + joined_chunks(decoded.chunks@),
{
    let ghost before = dst@;
    let ghost all = decoded.chunks@;
    let mut chunks = decoded.chunks;
    if dst.len() == 0 && chunks.len() == 1 {
        match chunks.pop() {
            Some(DecodedChunk::Owned(bytes)) => {
                *dst = bytes;
                proof {
                    assert(joined_chunks(all.drop_last()) =~= Seq::empty());
                    assert(dst@ =~= before + joined_chunks(all));
                }
                return ;
            },
            Some(borrowed) => {
                chunks.push(borrowed);
            },
            None => {},
        }
    }
    proof {
        assert(chunks@ =~= all);
        assert(dst@ =~= before + joined_chunks(all.take(0)));
    }
    let mut index: usize = 0;
    while index < chunks.len()
        invariant
            index <= chunks@.len(),
            chunks@ == all,
            dst@ == before + joined_chunks(all.take(index as int)),
        decreases chunks@.len() - index,
    {
        append_bytes(dst, chunks[index].as_slice());
        proof {
            assert(all.take(index + 1).drop_last() =~= all.take(index as int));
            assert(dst@ =~= before + joined_chunks(all.take(index + 1)));
        }
        index = index + 1;
    }
    proof {
        assert(all.take(index as int) =~= all);
    }
}

/// Decodes a parsed frame to the end of `dst`, which is left as it was where that fails.
pub fn decode_plan_with_execution_mode(
    input: &[u8],
    plan: &FramePlan,
    mode: PlanExecutionMode<'_>,
    dst: &mut Vec<u8>,
    limits: Limits,
    scratch: &mut DecodeScratch,
    dict_store: &DictionaryStore,
) -> (result: Result<usize, Error>)
    requires
        old(scratch).well_formed(),
        dict_store.well_formed(),
    ensures
        final(scratch).well_formed(),
        appends(
            plan_decoded(input@, plan@, mode@, limits, dict_store@, old(dst)@.len()),
            old(dst)@,
            final(dst)@,
            error_of(result),
        ),
        result is Ok ==> result->Ok_0 + old(dst)@.len() == final(dst)@.len() && limits.admits(
            result->Ok_0 as int,
        ),
{
    match try_decode_single_zstd_into_dst(input, plan, dst, limits)? {
        Some(written) => {
            return Ok(written);
        },
        None => {},
    }
    let chunk_plans: Option<&ChunkExecutionPlans> = match mode {
        PlanExecutionMode::UseDirectAppend(plans) => {
            return decode_plan_appending_to_dst_with_rollback(
                input,
                plan,
                plans,
                dst,
                limits,
                scratch,
                dict_store,
            );
        },
        PlanExecutionMode::ComputeDirectAppend => {
            if has_serial_output(&plan.info) {
                match prepare_direct_append_chunk_plans(plan)? {
                    Some(plans) => {
                        return decode_plan_appending_to_dst_with_rollback(
                            input,
                            plan,
                            &plans,
                            dst,
                            limits,
                            scratch,
                            dict_store,
                        );
                    },
                    None => {},
                }
            }
            None
        },
        PlanExecutionMode::UseChunkPlans(plans) => Some(plans),
    };
    let decoded = collect_decoded_output(input, plan, limits, chunk_plans, scratch, dict_store)?;
    let total_len: usize = decoded.total_len;
    append_decoded_output(decoded, dst);
    Ok(total_len)
}

/// Decodes a parsed frame, without dictionaries, to the end of `dst`, which is left as
/// it was where that fails.
pub fn decode_plan(input: &[u8], plan: &FramePlan, dst: &mut Vec<u8>, limits: Limits) -> (result:
    Result<usize, Error>)
    ensures
        appends(
            plan_decoded(
                input@,
                plan@,
                ModeView::Compute,
                limits,
                Map::empty(),
                old(dst)@.len(),
            ),
            old(dst)@,
            final(dst)@,
            error_of(result),
        ),
        result is Ok ==> result->Ok_0 + old(dst)@.len() == final(dst)@.len() && limits.admits(
            result->Ok_0 as int,
        ),
{
    let mut scratch = DecodeScratch::new();
    let dict_store = DictionaryStore::new();
    decode_plan_with_execution_mode(
        input,
        plan,
        PlanExecutionMode::ComputeDirectAppend,
        dst,
        limits,
        &mut scratch,
        &dict_store,
    )
}

/// Whether bytes are those of the chunks from `index` on, one after the other and of the
/// given sizes, each of which has the checksum that it states.
pub open spec fn checked_from(
    chunks: Seq<ChunkView>,
    index: nat,
    sizes: Seq<nat>,
    bytes: Seq<u8>,
) -> bool
    decreases chunks.len() - index,
{
    if index >= chunks.len() {
        sizes.len() == 0 && bytes.len() == 0
    } else {
        &&& sizes.len() > 0
        &&& sizes[0] <= bytes.len()
        &&& decoded_checksum_error(
            bytes.take(sizes[0] as int),
            chunks[index as int].decoded_checksum,
        ) is None
        &&& checked_from(chunks, index + 1, sizes.skip(1), bytes.skip(sizes[0] as int))
    }
}

/// Whether bytes are those of some chunks, each of which has the checksum that it states.
pub open spec fn chunks_checked(chunks: Seq<ChunkView>, bytes: Seq<u8>) -> bool {
    exists|sizes: Seq<nat>| #[trigger] checked_from(chunks, 0, sizes, bytes)
}

/// A chunk and the checked chunks behind it are checked chunks.
proof fn lemma_checked_step(
    chunks: Seq<ChunkView>,
    index: nat,
    sizes: Seq<nat>,
    output: Seq<u8>,
    bytes: Seq<u8>,
    all: Seq<u8>,
)
    requires
        index < chunks.len(),
        (output + bytes).is_prefix_of(all),
        decoded_checksum_error(bytes, chunks[index as int].decoded_checksum) is None,
        checked_from(chunks, index + 1, sizes, all.skip((output + bytes).len() as int)),
    ensures
        output.is_prefix_of(all),
        checked_from(
            chunks,
            index,
            seq![bytes.len()] + sizes,
            all.skip(output.len() as int),
        ),
{
    let rest = all.skip(output.len() as int);
    assert(rest.take(bytes.len() as int) =~= bytes) by {
        assert forall|i: int| 0 <= i < bytes.len() implies rest[i] == bytes[i] by {
            assert((output + bytes)[output.len() + i] == all[output.len() + i]);
        }
    }
    assert(rest.skip(bytes.len() as int) =~= all.skip((output + bytes).len() as int));
    assert(output =~= all.take(output.len() as int)) by {
        assert forall|i: int| 0 <= i < output.len() implies output[i] == all[i] by {
            assert((output + bytes)[i] == all[i]);
        }
    }
    assert((seq![bytes.len()] + sizes).skip(1) =~= sizes);
}

proof fn lemma_appended_checked(
    input: Seq<u8>,
    chunks: Seq<ChunkView>,
    plans: Seq<Option<PlanView>>,
    context: ContextView,
    base: nat,
    index: nat,
    output: Seq<u8>,
) -> (sizes: Seq<nat>)
    requires
        appended_from(input, chunks, plans, context, base, index, output) is Ok,
    ensures
        ({
            let all = appended_from(input, chunks, plans, context, base, index, output)->Ok_0;
            &&& output.is_prefix_of(all)
            &&& checked_from(chunks, index, sizes, all.skip(output.len() as int))
        }),
    decreases chunks.len() - index,
{
    if index < chunks.len() {
        let bytes = appended_chunk(
            input,
            chunks[index as int],
            plans[index as int],
            context,
            base + output.len(),
        )->Ok_0;
        let sizes = lemma_appended_checked(
            input,
            chunks,
            plans,
            context,
            base,
            index + 1,
            output + bytes,
        );
        let all = appended_from(input, chunks, plans, context, base, index, output)->Ok_0;
        lemma_checked_step(chunks, index, sizes, output, bytes, all);
        seq![bytes.len()] + sizes
    } else {
        Seq::empty()
    }
}

proof fn lemma_collected_checked(
    input: Seq<u8>,
    chunks: Seq<ChunkView>,
    plans: Option<Seq<Option<PlanView>>>,
    context: ContextView,
    index: nat,
    output: Seq<u8>,
) -> (sizes: Seq<nat>)
    requires
        collected_from(input, chunks, plans, context, index, output) is Ok,
    ensures
        ({
            let all = collected_from(input, chunks, plans, context, index, output)->Ok_0;
            &&& output.is_prefix_of(all)
            &&& checked_from(chunks, index, sizes, all.skip(output.len() as int))
        }),
    decreases chunks.len() - index,
{
    if index < chunks.len() {
        let bytes = collected_chunk(
            input,
            chunks[index as int],
            plans,
            index as int,
            context,
        )->Ok_0;
        let sizes = lemma_collected_checked(
            input,
            chunks,
            plans,
            context,
            index + 1,
            output + bytes,
        );
        let all = collected_from(input, chunks, plans, context, index, output)->Ok_0;
        lemma_checked_step(chunks, index, sizes, output, bytes, all);
        seq![bytes.len()] + sizes
    } else {
        Seq::empty()
    }
}

/// The output of one chunk that has the checksum it states is checked.
pub proof fn lemma_one_chunk_checked(chunks: Seq<ChunkView>, bytes: Seq<u8>)
    requires
        chunks.len() == 1,
        decoded_checksum_error(bytes, chunks[0].decoded_checksum) is None,
    ensures
        chunks_checked(chunks, bytes),
{
    let sizes = seq![bytes.len()];
    assert(bytes.take(bytes.len() as int) =~= bytes);
    assert(checked_from(chunks, 1, sizes.skip(1), bytes.skip(bytes.len() as int)));
    assert(checked_from(chunks, 0, sizes, bytes));
}

/// What a parsed frame decodes to consists of the bytes of its chunks in order, and each
/// of them has the checksum that it states.
pub proof fn law_decoded_chunks_have_their_checksums(
    input: Seq<u8>,
    plan: FrameView,
    mode: ModeView,
    limits: Limits,
    store: StoreView,
    base: nat,
)
    requires
        plan_decoded(input, plan, mode, limits, store, base) is Ok,
    ensures
        chunks_checked(
            plan.chunks,
            plan_decoded(input, plan, mode, limits, store, base)->Ok_0,
        ),
{
    let context = frame_context(plan.info, limits, store);
    let all = plan_decoded(input, plan, mode, limits, store, base)->Ok_0;
    if let Some(bytes) = single_zstd_attempt(input, plan, limits)->Ok_0 {
        lemma_one_chunk_checked(plan.chunks, bytes);
    } else {
        let direct = match mode {
            ModeView::Direct(plans) => Some(plans),
            ModeView::Compute => if serial_output(plan.info) {
                direct_plans(plan.chunks)
            } else {
                None
            },
            ModeView::Chunks(_) => None,
        };
        let sizes = match direct {
            Some(plans) => lemma_appended_checked(
                input,
                plan.chunks,
                plans,
                context,
                base,
                0,
                Seq::empty(),
            ),
            None => lemma_collected_checked(
                input,
                plan.chunks,
                match mode {
                    ModeView::Chunks(plans) => Some(plans),
                    _ => None,
                },
                context,
                0,
                Seq::empty(),
            ),
        };
        assert(all.skip(0) =~= all);
        assert(checked_from(plan.chunks, 0, sizes, all));
    }
}

/// What chunks append is never less than what they append to.
proof fn lemma_appended_grows(
    input: Seq<u8>,
    chunks: Seq<ChunkView>,
    plans: Seq<Option<PlanView>>,
    context: ContextView,
    base: nat,
    index: nat,
    output: Seq<u8>,
)
    ensures
        appended_from(input, chunks, plans, context, base, index, output) matches Ok(bytes)
            ==> bytes.len() >= output.len(),
    decreases chunks.len() - index,
{
    if index < chunks.len() {
        match appended_chunk(
            input,
            chunks[index as int],
            plans[index as int],
            context,
            base + output.len(),
        ) {
            Err(_) => {},
            Ok(bytes) => {
                lemma_appended_grows(
                    input,
                    chunks,
                    plans,
                    context,
                    base,
                    index + 1,
                    output + bytes,
                );
            },
        }
    }
}

proof fn lemma_appended_base(
    input: Seq<u8>,
    chunks: Seq<ChunkView>,
    plans: Seq<Option<PlanView>>,
    context: ContextView,
    base: nat,
    other: nat,
    index: nat,
    output: Seq<u8>,
)
    requires
        appended_from(input, chunks, plans, context, base, index, output) is Ok,
        appended_from(input, chunks, plans, context, base, index, output)->Ok_0.len()
            <= context.limits.max_decoded_bytes,
        other <= base || other + 2 * context.limits.max_decoded_bytes <= usize::MAX,
    ensures
        appended_from(input, chunks, plans, context, other, index, output) == appended_from(
            input,
            chunks,
            plans,
            context,
            base,
            index,
            output,
        ),
    decreases chunks.len() - index,
{
    lemma_appended_grows(input, chunks, plans, context, base, index, output);
    if index < chunks.len() {
        let chunk = chunks[index as int];
        let bytes = appended_chunk(
            input,
            chunk,
            plans[index as int],
            context,
            base + output.len(),
        )->Ok_0;
        if chunk.nodes.len() > 0 {
            match plans[index as int] {
                Some(plan) => {
                    law_chunk_ignores_earlier_bytes(
                        input,
                        chunk,
                        plan,
                        context,
                        base + output.len(),
                        other + output.len(),
                    );
                },
                None => {},
            }
        }
        lemma_appended_base(
            input,
            chunks,
            plans,
            context,
            base,
            other,
            index + 1,
            output + bytes,
        );
    }
}

/// What a parsed frame decodes to does not depend on how many bytes stand in front of
/// it, as long as there is room for twice the largest admitted output behind them.
pub proof fn law_plan_ignores_earlier_bytes(
    input: Seq<u8>,
    plan: FrameView,
    mode: ModeView,
    limits: Limits,
    store: StoreView,
    base: nat,
    other: nat,
)
    requires
        plan_decoded(input, plan, mode, limits, store, base) is Ok,
        other <= base || other + 2 * limits.max_decoded_bytes <= usize::MAX,
    ensures
        plan_decoded(input, plan, mode, limits, store, other) == plan_decoded(
            input,
            plan,
            mode,
            limits,
            store,
            base,
        ),
{
    let context = frame_context(plan.info, limits, store);
    let plans = match mode {
        ModeView::Direct(plans) => Some(plans),
        ModeView::Compute => if serial_output(plan.info) {
            direct_plans(plan.chunks)
        } else {
            None
        },
        ModeView::Chunks(_) => None,
    };
    if single_zstd_attempt(input, plan, limits)->Ok_0 is None && plans is Some {
        lemma_appended_base(
            input,
            plan.chunks,
            plans->Some_0,
            context,
            base,
            other,
            0,
            Seq::empty(),
        );
    }
}

proof fn lemma_appended_overflow(
    input: Seq<u8>,
    chunks: Seq<ChunkView>,
    plans: Seq<Option<PlanView>>,
    context: ContextView,
    fewer: nat,
    more: nat,
    index: nat,
    output: Seq<u8>,
)
    requires
        fewer <= more,
    ensures
        same_or_overflow(
            appended_from(input, chunks, plans, context, fewer, index, output),
            appended_from(input, chunks, plans, context, more, index, output),
        ),
    decreases chunks.len() - index,
{
    if index < chunks.len() {
        let chunk = chunks[index as int];
        if let Some(plan) = plans[index as int] {
            law_chunk_only_overflows(
                input,
                chunk,
                plan,
                context,
                fewer + output.len(),
                more + output.len(),
            );
        }
        if let Ok(bytes) = appended_chunk(
            input,
            chunk,
            plans[index as int],
            context,
            fewer + output.len(),
        ) {
            lemma_appended_overflow(
                input,
                chunks,
                plans,
                context,
                fewer,
                more,
                index + 1,
                output + bytes,
            );
        }
    }
}

/// More bytes in front of a parsed frame change what it comes to only where a size no
/// longer fits.
pub proof fn law_plan_only_overflows(
    input: Seq<u8>,
    plan: FrameView,
    mode: ModeView,
    limits: Limits,
    store: StoreView,
    fewer: nat,
    more: nat,
)
    requires
        fewer <= more,
    ensures
        same_or_overflow(
            plan_decoded(input, plan, mode, limits, store, fewer),
            plan_decoded(input, plan, mode, limits, store, more),
        ),
{
    let plans = match mode {
        ModeView::Direct(plans) => plans,
        _ => direct_plans(plan.chunks)->Some_0,
    };
    lemma_appended_overflow(
        input,
        plan.chunks,
        plans,
        frame_context(plan.info, limits, store),
        fewer,
        more,
        0,
        Seq::empty(),
    );
}

/// What is known of the plans of the chunks up to `index`.
spec fn plans_match(chunks: Seq<ChunkView>, plans: Seq<Option<PlanView>>, index: nat) -> bool {
    &&& plans.len() == index
    &&& forall|i: int|
        0 <= i < index ==> #[trigger] plans[i] == (if chunks[i].nodes.len() == 0 {
            None
        } else {
            Some(chunk_plan(chunks[i])->Ok_0)
        }) && (chunks[i].nodes.len() > 0 ==> chunk_plan(chunks[i]) is Ok)
}

proof fn lemma_chunk_plans(chunks: Seq<ChunkView>, index: nat, plans: Seq<Option<PlanView>>)
    requires
        index <= chunks.len(),
        plans_match(chunks, plans, index),
        chunk_plans_from(chunks, index, plans) is Ok,
    ensures
        plans_match(chunks, chunk_plans_from(chunks, index, plans)->Ok_0, chunks.len()),
    decreases chunks.len() - index,
{
    if index < chunks.len() {
        if chunks[index as int].nodes.len() == 0 {
            lemma_chunk_plans(chunks, index + 1, plans.push(None));
        } else {
            let plan = chunk_plan(chunks[index as int])->Ok_0;
            lemma_chunk_plans(chunks, index + 1, plans.push(Some(plan)));
        }
    }
}

proof fn lemma_collected_alike(
    input: Seq<u8>,
    chunks: Seq<ChunkView>,
    plans: Seq<Option<PlanView>>,
    context: ContextView,
    index: nat,
    output: Seq<u8>,
)
    requires
        plans_match(chunks, plans, chunks.len()),
    ensures
        collected_from(input, chunks, Some(plans), context, index, output) == collected_from(
            input,
            chunks,
            None,
            context,
            index,
            output,
        ),
    decreases chunks.len() - index,
{
    if index < chunks.len() {
        let chunk = chunks[index as int];
        assert(plans[index as int] == (if chunk.nodes.len() == 0 {
            None
        } else {
            Some(chunk_plan(chunk)->Ok_0)
        }));
        let with = collected_chunk(input, chunk, Some(plans), index as int, context);
        let without = collected_chunk(input, chunk, None, index as int, context);
        assert(with == without);
        if without is Ok {
            lemma_collected_alike(
                input,
                chunks,
                plans,
                context,
                index + 1,
                output + without->Ok_0,
            );
        }
    }
}

/// Decoding with plans for direct output that were made ahead gives what decoding
/// without them gives.
pub proof fn law_direct_plans_change_nothing(
    input: Seq<u8>,
    plan: FrameView,
    limits: Limits,
    store: StoreView,
    base: nat,
)
    requires
        serial_output(plan.info),
        direct_plans(plan.chunks) is Some,
    ensures
        plan_decoded(
            input,
            plan,
            ModeView::Direct(direct_plans(plan.chunks)->Some_0),
            limits,
            store,
            base,
        ) == plan_decoded(input, plan, ModeView::Compute, limits, store, base),
{
}

/// Decoding with chunk plans that were made ahead gives what decoding without them
/// gives, where no chunk can write to the output directly.
pub proof fn law_chunk_plans_change_nothing(
    input: Seq<u8>,
    plan: FrameView,
    limits: Limits,
    store: StoreView,
    base: nat,
)
    requires
        direct_plans(plan.chunks) is None,
        chunk_plans_from(plan.chunks, 0, Seq::empty()) is Ok,
    ensures
        plan_decoded(
            input,
            plan,
            ModeView::Chunks(chunk_plans_from(plan.chunks, 0, Seq::empty())->Ok_0),
            limits,
            store,
            base,
        ) == plan_decoded(input, plan, ModeView::Compute, limits, store, base),
{
    lemma_chunk_plans(plan.chunks, 0, Seq::empty());
    lemma_collected_alike(
        input,
        plan.chunks,
        chunk_plans_from(plan.chunks, 0, Seq::empty())->Ok_0,
        frame_context(plan.info, limits, store),
        0,
        Seq::empty(),
    );
}

} // verus!
