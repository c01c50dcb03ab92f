//! The decoder: options, loaded dictionaries, and a plan that is kept for a frame that
//! comes again.

use vstd::prelude::*;

use crate::bytes::copy_bytes;
use crate::decode_plan::{
    chunks_checked, decode_plan_with_execution_mode, decode_single_zstd_frame, is_single_zstd,
    law_chunk_plans_change_nothing, law_decoded_chunks_have_their_checksums,
    law_direct_plans_change_nothing, law_plan_ignores_earlier_bytes, law_plan_only_overflows,
    lemma_one_chunk_checked,
    plan_decoded, single_zstd, single_zstd_decoded, single_zstd_frame, ModeView, PlanExecutionMode,
    SingleZstdFrame,
};
use crate::dict::{fat_bundle, same_bytes, store_loaded, BundleView, DictionaryStore, StoreView};
use crate::direct_append::{
    chunk_plans_from, direct_plans, prepare_chunk_execution_plans,
    prepare_direct_append_chunk_plans, ChunkExecutionPlans, DirectAppendChunkPlans,
};
use crate::error::{appends, error_of, outcome, same_or_overflow, Error, ErrorView};
use crate::frame_plan::{FrameInfo, FramePlan, FrameView};
use crate::graph::PlanView;
use crate::limits::{strict_limits, Limits};
use crate::parse::{frame_inspection, frame_plan, inspect_frame, parse_frame_plan};
use crate::scratch::DecodeScratch;

verus! {

pub const DEFAULT_PLAN_CACHE_MAX_FRAME_BYTES: usize = 4 * 1024 * 1024;

/// How a decoder behaves.
#[derive(Clone, Copy, Debug, PartialEq, Eq, Structural)]
pub struct Options {
    /// Bounds on what a frame may ask of the decoder.
    pub limits: Limits,
    /// The largest frame whose plan is kept for its next decoding; zero keeps none.
    pub plan_cache_max_frame_bytes: usize,
}

/// The default options.
pub open spec fn default_options() -> Options {
    Options {
        limits: strict_limits(),
        plan_cache_max_frame_bytes: DEFAULT_PLAN_CACHE_MAX_FRAME_BYTES,
    }
}

impl Default for Options {
    fn default() -> (options: Self)
        ensures
            options == default_options(),
    {
        Options {
            limits: Limits::default(),
            plan_cache_max_frame_bytes: DEFAULT_PLAN_CACHE_MAX_FRAME_BYTES,
        }
    }
}

/// What a frame decodes to behind `base` bytes.
pub open spec fn frame_decoded(input: Seq<u8>, limits: Limits, store: StoreView, base: nat) -> Result<
    Seq<u8>,
    ErrorView,
> {
    match frame_plan(input, limits) {
        Err(error) => Err(error),
        Ok(plan) => if single_zstd(plan) {
            single_zstd_decoded(input, single_zstd_frame(plan), limits)
        } else {
            plan_decoded(input, plan, ModeView::Compute, limits, store, base)
        },
    }
}

/// A frame that decodes gives the same bytes whatever stands in front of them: decoding
/// behind `other` bytes gives what decoding behind `base` bytes gives, where there are no
/// more of them, or where there is room for twice the largest admitted output. With
/// `base` zero this says that decoding into a buffer appends what decoding on its own
/// returns.
pub proof fn law_frame_ignores_earlier_bytes(
    input: Seq<u8>,
    limits: Limits,
    store: StoreView,
    base: nat,
    other: nat,
)
    requires
        frame_decoded(input, limits, store, base) is Ok,
        other <= base || other + 2 * limits.max_decoded_bytes <= usize::MAX,
    ensures
        frame_decoded(input, limits, store, other) == frame_decoded(input, limits, store, base),
{
    let plan = frame_plan(input, limits)->Ok_0;
    if !single_zstd(plan) {
        law_plan_ignores_earlier_bytes(
            input,
            plan,
            ModeView::Compute,
            limits,
            store,
            base,
            other,
        );
    }
}

/// What stands in front of the output changes nothing else either: behind `more` bytes a
/// frame decodes to what it decodes to behind `fewer`, or fails with the same error, unless
/// a size that it states no longer fits behind them, which is an integer overflow. With
/// `fewer` zero this compares decoding into a buffer with decoding on its own.
pub proof fn law_frame_only_overflows(
    input: Seq<u8>,
    limits: Limits,
    store: StoreView,
    fewer: nat,
    more: nat,
)
    requires
        fewer <= more,
    ensures
        same_or_overflow(
            frame_decoded(input, limits, store, fewer),
            frame_decoded(input, limits, store, more),
        ),
{
    if let Ok(plan) = frame_plan(input, limits) {
        law_plan_only_overflows(input, plan, ModeView::Compute, limits, store, fewer, more);
    }
}

/// What a frame decodes to consists of the bytes of its chunks in order, and each of them
/// has the checksum that it states.
pub proof fn law_frame_chunks_have_their_checksums(
    input: Seq<u8>,
    limits: Limits,
    store: StoreView,
    base: nat,
)
    requires
        frame_decoded(input, limits, store, base) is Ok,
    ensures
        chunks_checked(
            frame_plan(input, limits)->Ok_0.chunks,
            frame_decoded(input, limits, store, base)->Ok_0,
        ),
{
    let plan = frame_plan(input, limits)->Ok_0;
    if single_zstd(plan) {
        lemma_one_chunk_checked(
            plan.chunks,
            frame_decoded(input, limits, store, base)->Ok_0,
        );
    } else {
        law_decoded_chunks_have_their_checksums(
            input,
            plan,
            ModeView::Compute,
            limits,
            store,
            base,
        );
    }
}

/// A frame that decodes and states its decoded size decodes to that many bytes.
pub proof fn law_decoded_size_is_stated(input: Seq<u8>, limits: Limits, store: StoreView, base: nat)
    requires
        frame_decoded(input, limits, store, base) is Ok,
    ensures
        frame_plan(input, limits)->Ok_0.info.decoded_bytes matches Some(size)
            ==> frame_decoded(input, limits, store, base)->Ok_0.len() == size,
{
}

/// How a kept plan is executed.
enum CachedExecutionPlan {
    DirectAppend(DirectAppendChunkPlans),
    ChunkExecution(ChunkExecutionPlans),
    Unplanned,
}

/// A frame with its plan.
struct CachedFramePlan {
    frame: Vec<u8>,
    plan: FramePlan,
    execution: CachedExecutionPlan,
}

/// A plan is executed as it would be without the preparation.
spec fn execution_fits(execution: CachedExecutionPlan, plan: FrameView) -> bool {
    match execution {
        CachedExecutionPlan::DirectAppend(plans) => direct_plans(plan.chunks) == Some(plans@),
        CachedExecutionPlan::ChunkExecution(plans) => direct_plans(plan.chunks) is None
            && chunk_plans_from(plan.chunks, 0, Seq::empty()) == Ok::<
            Seq<Option<PlanView>>,
            ErrorView,
        >(plans@),
        CachedExecutionPlan::Unplanned => direct_plans(plan.chunks) is None && chunk_plans_from(
            plan.chunks,
            0,
            Seq::empty(),
        ) is Err,
    }
}

/// A kept plan is the plan of its frame.
spec fn cache_fits(cached: CachedFramePlan, limits: Limits) -> bool {
    &&& frame_plan(cached.frame@, limits) == Ok::<FrameView, ErrorView>(cached.plan@)
    &&& !single_zstd(cached.plan@)
    &&& execution_fits(cached.execution, cached.plan@)
}

/// A decoder that can be used again and again.
pub struct Decoder {
    options: Options,
    scratch: DecodeScratch,
    dict_store: DictionaryStore,
    plan_cache: Option<CachedFramePlan>,
}

/// What a decoder holds: its options, the loaded dictionaries, and the frame whose plan is
/// kept.
#[verifier::ext_equal]
pub struct DecoderView {
    pub options: Options,
    pub store: StoreView,
    pub kept: Option<Seq<u8>>,
}

/// A decoder that was not used yet.
pub open spec fn new_decoder(options: Options) -> DecoderView {
    DecoderView { options, store: Map::empty(), kept: None }
}

/// The frame whose plan is kept once a frame was decoded. A frame that does not parse, or
/// that is one zstd transform, leaves it as it was.
pub open spec fn kept_frame(kept: Option<Seq<u8>>, input: Seq<u8>, options: Options) -> Option<
    Seq<u8>,
> {
    match frame_plan(input, options.limits) {
        Err(_) => kept,
        Ok(plan) => if single_zstd(plan) || kept == Some(input) {
            kept
        } else if options.plan_cache_max_frame_bytes == 0 || input.len()
            > options.plan_cache_max_frame_bytes {
            None
        } else {
            Some(input)
        },
    }
}

impl View for Decoder {
    type V = DecoderView;

    closed spec fn view(&self) -> DecoderView {
        DecoderView {
            options: self.options,
            store: self.dict_store@,
            kept: match self.plan_cache {
                Some(cached) => Some(cached.frame@),
                None => None,
            },
        }
    }
}

impl Decoder {
    /// The pooled buffers are empty, no bundle was loaded twice, and a kept plan is the
    /// plan of its frame.
    pub closed spec fn well_formed(self) -> bool {
        &&& self.scratch.well_formed()
        &&& self.dict_store.well_formed()
        &&& match self.plan_cache {
            Some(cached) => cache_fits(cached, self.options.limits),
            None => true,
        }
    }

    /// Creates a decoder with the default options.
    pub fn new() -> (decoder: Self)
        ensures
            decoder.well_formed(),
            decoder@ == new_decoder(default_options()),
    {
        Self::with_options(Options::default())
    }

    /// Creates a decoder.
    pub fn with_options(options: Options) -> (decoder: Self)
        ensures
            decoder.well_formed(),
            decoder@ == new_decoder(options),
    {
        Decoder {
            options,
            scratch: DecodeScratch::new(),
            dict_store: DictionaryStore::new(),
            plan_cache: None,
        }
    }

    pub fn options(&self) -> (options: Options)
        ensures
            options == self@.options,
    {
        self.options
    }

    pub fn limits(&self) -> (limits: Limits)
        ensures
            limits == self@.options.limits,
    {
        self.options.limits
    }

    /// Loads a dictionary bundle for later decoding, in place of one with the same
    /// identifier.
    pub fn load_dictionary_bundle(&mut self, bytes: &[u8]) -> (result: Result<(), Error>)
        requires
            old(self).well_formed(),
        ensures
            final(self).well_formed(),
            final(self)@ == (DecoderView {
                store: store_loaded(old(self)@.store, bytes@),
                ..old(self)@
            }),
            match result {
                Ok(_) => fat_bundle(bytes@) is Ok,
                Err(error) => fat_bundle(bytes@) == Err::<BundleView, ErrorView>(error@),
            },
    {
        self.dict_store.load_fat_bundle(bytes)
    }

    /// Loads a dictionary bundle, as [`Decoder::load_dictionary_bundle`] does.
    pub fn load_fat_bundle(&mut self, bytes: &[u8]) -> (result: Result<(), Error>)
        requires
            old(self).well_formed(),
        ensures
            final(self).well_formed(),
            final(self)@ == (DecoderView {
                store: store_loaded(old(self)@.store, bytes@),
                ..old(self)@
            }),
            match result {
                Ok(_) => fat_bundle(bytes@) is Ok,
                Err(error) => fat_bundle(bytes@) == Err::<BundleView, ErrorView>(error@),
            },
    {
        self.load_dictionary_bundle(bytes)
    }

    /// Forgets every loaded dictionary bundle.
    pub fn clear_dictionary_bundles(&mut self)
        requires
            old(self).well_formed(),
        ensures
            final(self).well_formed(),
            final(self)@ == (DecoderView { store: Map::empty(), ..old(self)@ }),
    {
        self.dict_store.clear();
    }

    /// Decodes a frame to the end of `dst`, which is left as it was where that fails.
    /// Returns the number of bytes that were appended.
    pub fn decode_into(&mut self, input: &[u8], dst: &mut Vec<u8>) -> (result: Result<usize, Error>)
        requires
            old(self).well_formed(),
        ensures
            final(self).well_formed(),
            final(self)@ == (DecoderView {
                kept: kept_frame(old(self)@.kept, input@, old(self)@.options),
                ..old(self)@
            }),
            appends(
                frame_decoded(
                    input@,
                    old(self)@.options.limits,
                    old(self)@.store,
                    old(dst)@.len(),
                ),
                old(dst)@,
                final(dst)@,
                error_of(result),
            ),
            result is Ok ==> result->Ok_0 + old(dst)@.len() == final(dst)@.len()
                && old(self)@.options.limits.admits(result->Ok_0 as int),
    {
        let limits = self.options.limits;
        if let Some(cached) = &self.plan_cache {
            if same_bytes(cached.frame.as_slice(), input) {
                let mode = match &cached.execution {
                    CachedExecutionPlan::DirectAppend(plans) => PlanExecutionMode::UseDirectAppend(
                        plans,
                    ),
                    CachedExecutionPlan::ChunkExecution(plans) => PlanExecutionMode::UseChunkPlans(
                        plans,
                    ),
                    CachedExecutionPlan::Unplanned => PlanExecutionMode::ComputeDirectAppend,
                };
                proof {
                    match &cached.execution {
                        CachedExecutionPlan::DirectAppend(_) => {
                            law_direct_plans_change_nothing(
                                input@,
                                cached.plan@,
                                limits,
                                self.dict_store@,
                                dst@.len(),
                            );
                        },
                        CachedExecutionPlan::ChunkExecution(_) => {
                            law_chunk_plans_change_nothing(
                                input@,
                                cached.plan@,
                                limits,
                                self.dict_store@,
                                dst@.len(),
                            );
                        },
                        CachedExecutionPlan::Unplanned => {},
                    }
                }
                return decode_plan_with_execution_mode(
                    input,
                    &cached.plan,
                    mode,
                    dst,
                    limits,
                    &mut self.scratch,
                    &self.dict_store,
                );
            }
        }
        let plan = parse_frame_plan(input, limits)?;
        if is_single_zstd(&plan) {
            proof {
                assert(plan@.chunks[0] == plan.chunks@[0]@);
            }
            let frame = SingleZstdFrame {
                stored: plan.chunks[0].stored[0],
                decoded_bytes: plan.info.decoded_bytes,
                decoded_checksum: plan.chunks[0].decoded_checksum,
                frame_bytes: plan.info.frame_bytes,
            };
            return decode_single_zstd_frame(input, frame, dst, limits);
        }
        let result = decode_plan_with_execution_mode(
            input,
            &plan,
            PlanExecutionMode::ComputeDirectAppend,
            dst,
            limits,
            &mut self.scratch,
            &self.dict_store,
        );
        self.remember_frame_plan(input, plan);
        result
    }

    /// Keeps the plan of a frame, where it is not too large.
    fn remember_frame_plan(&mut self, input: &[u8], plan: FramePlan)
        requires
            old(self).well_formed(),
            frame_plan(input@, old(self).options.limits) == Ok::<FrameView, ErrorView>(plan@),
            !single_zstd(plan@),
        ensures
            final(self).well_formed(),
            final(self)@ == (DecoderView {
                kept: if old(self).options.plan_cache_max_frame_bytes == 0 || input@.len()
                    > old(self).options.plan_cache_max_frame_bytes {
                    None
                } else {
                    Some(input@)
                },
                ..old(self)@
            }),
    {
        if self.options.plan_cache_max_frame_bytes == 0 || input.len()
            > self.options.plan_cache_max_frame_bytes {
            self.plan_cache = None;
            return ;
        }
        let frame = copy_bytes(input);
        let execution = Self::prepare_cached_execution_plan(&plan);
        self.plan_cache = Some(CachedFramePlan { frame, plan, execution });
    }

    /// Prepares the execution of a plan.
    fn prepare_cached_execution_plan(plan: &FramePlan) -> (execution: CachedExecutionPlan)
        ensures
            execution_fits(execution, plan@),
    {
        if let Ok(Some(plans)) = prepare_direct_append_chunk_plans(plan) {
            return CachedExecutionPlan::DirectAppend(plans);
        }
        match prepare_chunk_execution_plans(plan) {
            Ok(plans) => CachedExecutionPlan::ChunkExecution(plans),
            Err(_) => CachedExecutionPlan::Unplanned,
        }
    }

    /// Decodes a frame.
    pub fn decode(&mut self, input: &[u8]) -> (result: Result<Vec<u8>, Error>)
        requires
            old(self).well_formed(),
        ensures
            final(self).well_formed(),
            final(self)@ == (DecoderView {
                kept: kept_frame(old(self)@.kept, input@, old(self)@.options),
                ..old(self)@
            }),
            outcome(result) == frame_decoded(
                input@,
                old(self)@.options.limits,
                old(self)@.store,
                0,
            ),
            result is Ok ==> old(self)@.options.limits.admits(result->Ok_0@.len() as int),
    {
        let mut output: Vec<u8> = Vec::new();
        let ghost before = output@;
        self.decode_into(input, &mut output)?;
        proof {
            let bytes = frame_decoded(
                input@,
                old(self)@.options.limits,
                old(self)@.store,
                0,
            )->Ok_0;
            assert(before + bytes =~= bytes);
        }
        Ok(output)
    }

    /// Parses a frame for what it says of itself, without executing a transform.
    pub fn inspect(&self, input: &[u8]) -> (result: Result<FrameInfo, Error>)
        ensures
            outcome(result) == frame_inspection(input@, self@.options.limits),
    {
        inspect_frame(input, self.options.limits)
    }
}

impl Default for Decoder {
    fn default() -> (decoder: Self)
        ensures
            decoder.well_formed(),
            decoder@ == new_decoder(default_options()),
    {
        Self::new()
    }
}

/// Decodes a frame with the default options.
pub fn decode(input: &[u8]) -> (result: Result<Vec<u8>, Error>)
    ensures
        outcome(result) == frame_decoded(input@, strict_limits(), Map::empty(), 0),
        result is Ok ==> strict_limits().admits(result->Ok_0@.len() as int),
{
    let mut decoder = Decoder::new();
    decoder.decode(input)
}

/// Decodes a frame.
pub fn decode_with_options(input: &[u8], options: Options) -> (result: Result<Vec<u8>, Error>)
    ensures
        outcome(result) == frame_decoded(input@, options.limits, Map::empty(), 0),
        result is Ok ==> options.limits.admits(result->Ok_0@.len() as int),
{
    let mut decoder = Decoder::with_options(options);
    decoder.decode(input)
}

/// Decodes a frame with the default options to the end of `dst`, which is left as it
/// was where that fails. Returns the number of bytes that were appended.
pub fn decode_into(input: &[u8], dst: &mut Vec<u8>) -> (result: Result<usize, Error>)
    ensures
        appends(
            frame_decoded(input@, strict_limits(), Map::empty(), old(dst)@.len()),
            old(dst)@,
            final(dst)@,
            error_of(result),
        ),
        result is Ok ==> result->Ok_0 + old(dst)@.len() == final(dst)@.len(),
{
    let mut decoder = Decoder::new();
    decoder.decode_into(input, dst)
}

/// Decodes a frame to the end of `dst`, which is left as it was where that fails.
/// Returns the number of bytes that were appended.
pub fn decode_into_with_options(input: &[u8], dst: &mut Vec<u8>, options: Options) -> (result: Result<
    usize,
    Error,
>)
    ensures
        appends(
            frame_decoded(input@, options.limits, Map::empty(), old(dst)@.len()),
            old(dst)@,
            final(dst)@,
            error_of(result),
        ),
        result is Ok ==> result->Ok_0 + old(dst)@.len() == final(dst)@.len(),
{
    let mut decoder = Decoder::with_options(options);
    decoder.decode_into(input, dst)
}

/// Parses a frame for what it says of itself, with the default options.
pub fn inspect(input: &[u8]) -> (result: Result<FrameInfo, Error>)
    ensures
        outcome(result) == frame_inspection(input@, strict_limits()),
{
    let decoder = Decoder::default();
    decoder.inspect(input)
}

/// Parses a frame for what it says of itself.
pub fn inspect_with_options(input: &[u8], options: Options) -> (result: Result<FrameInfo, Error>)
    ensures
        outcome(result) == frame_inspection(input@, options.limits),
{
    let decoder = Decoder::with_options(options);
    decoder.inspect(input)
}

} // verus!
