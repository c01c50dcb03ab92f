//! Chunks whose last transforms can write to the output directly.

use vstd::prelude::*;

use crate::conversions::{byte_preserving, is_byte_preserving_conversion};
use crate::error::{outcome, Error, ErrorView};
use crate::frame_plan::{ChunkPlan, ChunkView, FramePlan};
use crate::graph::{
    build_chunk_execution_plan, chunk_plan, step_views, target_slice, ChunkExecutionPlan,
    NodeExecutionPlan, PlanView, StepView,
};
use crate::standard::{
    CONVERT_STRING_TO_SERIAL_ID, DISPATCH_STRING_ID, FIELD_LZ_ID, LZ_ID, SPLITN_ID,
    SPLITN_STRUCT_ID, SPLIT_BY_STRUCT_ID, ZSTD_ID,
};

verus! {

/// Which transform writes to the output.
#[derive(Clone, Copy, Debug, PartialEq, Eq, Structural)]
pub enum DirectAppendKind {
    Lz,
    FieldLz,
    Zstd,
    DispatchStringToSerial,
    SplitByStructToSplitN,
}

/// From which transform on the output is written, and how.
#[derive(Clone, Copy, Debug, PartialEq, Eq, Structural)]
pub struct DirectAppendTail {
    pub start: usize,
    pub kind: DirectAppendKind,
}

/// Whether a transform reads stream `stream` alone, keeps its bytes, and writes one
/// stream.
pub open spec fn keeps_bytes_of(step: StepView, stream: usize) -> bool {
    byte_preserving(step.standard_id) && step.input_count == 1 && step.input_start == stream
        && step.targets.len() == 1
}

/// The stream that a chain of byte-preserving transforms from `index` on ends in, where
/// the first one reads `stream`.
pub open spec fn chain_end(steps: Seq<StepView>, index: nat, stream: usize) -> Option<usize>
    decreases steps.len() - index,
{
    if index >= steps.len() {
        Some(stream)
    } else if !keeps_bytes_of(steps[index as int], stream) {
        None
    } else {
        chain_end(steps, index + 1, steps[index as int].targets[0])
    }
}

/// The first transform `id` from `index` on behind which only a chain of
/// byte-preserving ones leads to stream `last`. A transform `id` behind which stands
/// anything else ends the search.
pub open spec fn chain_start(steps: Seq<StepView>, id: u32, index: nat, last: int) -> Option<usize>
    decreases steps.len() - index,
{
    if index >= steps.len() {
        None
    } else if steps[index as int].standard_id != id || steps[index as int].targets.len() != 1 {
        chain_start(steps, id, index + 1, last)
    } else {
        match chain_end(steps, index + 1, steps[index as int].targets[0]) {
            None => None,
            Some(end) => if end == last {
                Some(index as usize)
            } else {
                chain_start(steps, id, index + 1, last)
            },
        }
    }
}

/// Whether strings are put together and written as bytes last.
pub open spec fn ends_in_dispatched_strings(steps: Seq<StepView>, last: int) -> bool {
    &&& steps.len() >= 2
    &&& steps[steps.len() - 2].standard_id == DISPATCH_STRING_ID
    &&& steps[steps.len() - 2].targets.len() == 1
    &&& steps[steps.len() - 1].standard_id == CONVERT_STRING_TO_SERIAL_ID
    &&& steps[steps.len() - 1].input_count == 1
    &&& steps[steps.len() - 1].input_start == steps[steps.len() - 2].targets[0]
    &&& steps[steps.len() - 1].targets.len() == 1
    &&& steps[steps.len() - 1].targets[0] == last
}

/// Whether structures are woven and joined with other streams last.
pub open spec fn ends_in_joined_structs(steps: Seq<StepView>, last: int) -> bool {
    &&& steps.len() >= 2
    &&& steps[steps.len() - 2].standard_id == SPLIT_BY_STRUCT_ID
    &&& steps[steps.len() - 2].targets.len() == 1
    &&& (steps[steps.len() - 1].standard_id == SPLITN_ID || steps[steps.len() - 1].standard_id
        == SPLITN_STRUCT_ID)
    &&& steps[steps.len() - 1].targets.len() == 1
    &&& steps[steps.len() - 1].targets[0] == last
    &&& steps[steps.len() - 1].input_start + steps[steps.len() - 1].input_count <= usize::MAX
    &&& steps[steps.len() - 1].input_start <= steps[steps.len() - 2].targets[0]
        < steps[steps.len() - 1].input_start + steps[steps.len() - 1].input_count
}

/// From which transform on a chunk can write to the output directly, if it can.
pub open spec fn direct_tail(plan: PlanView) -> Option<DirectAppendTail> {
    let last = plan.regen_targets.len() - 1;
    if last < 0 {
        None
    } else if let Some(start) = chain_start(plan.steps, FIELD_LZ_ID, 0, last) {
        Some(DirectAppendTail { start, kind: DirectAppendKind::FieldLz })
    } else if let Some(start) = chain_start(plan.steps, ZSTD_ID, 0, last) {
        Some(DirectAppendTail { start, kind: DirectAppendKind::Zstd })
    } else if ends_in_dispatched_strings(plan.steps, last) {
        Some(
            DirectAppendTail {
                start: (plan.steps.len() - 2) as usize,
                kind: DirectAppendKind::DispatchStringToSerial,
            },
        )
    } else if ends_in_joined_structs(plan.steps, last) {
        Some(
            DirectAppendTail {
                start: (plan.steps.len() - 2) as usize,
                kind: DirectAppendKind::SplitByStructToSplitN,
            },
        )
    } else if let Some(start) = chain_start(plan.steps, LZ_ID, 0, last) {
        Some(DirectAppendTail { start, kind: DirectAppendKind::Lz })
    } else {
        None
    }
}

/// Finds the stream that a chain of byte-preserving transforms ends in.
fn find_chain_end(nodes: &Vec<NodeExecutionPlan>, start: usize, stream: usize) -> (end: Option<
    usize,
>)
    requires
        start <= nodes@.len(),
    ensures
        end == chain_end(step_views(nodes@), start as nat, stream),
{
    let ghost steps = step_views(nodes@);
    let mut next: usize = stream;
    let mut index: usize = start;
    while index < nodes.len()
        invariant
            index <= nodes@.len(),
            steps == step_views(nodes@),
            chain_end(steps, start as nat, stream) == chain_end(steps, index as nat, next),
        decreases nodes@.len() - index,
    {
        let node: &NodeExecutionPlan = &nodes[index];
        let targets = target_slice(&node.output_targets);
        proof {
            assert(steps[index as int] == node@);
        }
        if !is_byte_preserving_conversion(node.standard_id) || node.input_count != 1
            || node.input_start != next || targets.len() != 1 {
            return None;
        }
        next = targets[0];
        index = index + 1;
    }
    Some(next)
}

/// Finds the transform `id` behind which only byte-preserving ones lead to stream
/// `last`.
fn find_chain_start(nodes: &Vec<NodeExecutionPlan>, id: u32, last: usize) -> (start: Option<usize>)
    ensures
        start == chain_start(step_views(nodes@), id, 0, last as int),
        start is Some ==> start->Some_0 < nodes@.len(),
{
    let ghost steps = step_views(nodes@);
    let mut index: usize = 0;
    while index < nodes.len()
        invariant
            index <= nodes@.len(),
            steps == step_views(nodes@),
            chain_start(steps, id, 0, last as int) == chain_start(
                steps,
                id,
                index as nat,
                last as int,
            ),
        decreases nodes@.len() - index,
    {
        let node: &NodeExecutionPlan = &nodes[index];
        let targets = target_slice(&node.output_targets);
        proof {
            assert(steps[index as int] == node@);
        }
        if node.standard_id == id && targets.len() == 1 {
            match find_chain_end(nodes, index + 1, targets[0]) {
                None => {
                    return None;
                },
                Some(end) => {
                    if end == last {
                        return Some(index);
                    }
                },
            }
        }
        index = index + 1;
    }
    None
}

/// Tells whether strings are put together and written as bytes last.
fn dispatch_string_to_serial_append_tail(nodes: &Vec<NodeExecutionPlan>, last: usize) -> (found: bool)
    ensures
        found == ends_in_dispatched_strings(step_views(nodes@), last as int),
{
    let count: usize = nodes.len();
    if count < 2 {
        return false;
    }
    let ghost steps = step_views(nodes@);
    let node: &NodeExecutionPlan = &nodes[count - 2];
    let tail: &NodeExecutionPlan = &nodes[count - 1];
    proof {
        assert(steps[count - 2] == node@);
        assert(steps[count - 1] == tail@);
    }
    let targets = target_slice(&node.output_targets);
    let ends = target_slice(&tail.output_targets);
    node.standard_id == DISPATCH_STRING_ID && targets.len() == 1 && tail.standard_id
        == CONVERT_STRING_TO_SERIAL_ID && tail.input_count == 1 && tail.input_start == targets[0]
        && ends.len() == 1 && ends[0] == last
}

/// Tells whether structures are woven and joined with other streams last.
fn split_by_struct_to_splitn_append_tail(nodes: &Vec<NodeExecutionPlan>, last: usize) -> (found: bool)
    ensures
        found == ends_in_joined_structs(step_views(nodes@), last as int),
{
    let count: usize = nodes.len();
    if count < 2 {
        return false;
    }
    let ghost steps = step_views(nodes@);
    let node: &NodeExecutionPlan = &nodes[count - 2];
    let tail: &NodeExecutionPlan = &nodes[count - 1];
    proof {
        assert(steps[count - 2] == node@);
        assert(steps[count - 1] == tail@);
    }
    let targets = target_slice(&node.output_targets);
    let ends = target_slice(&tail.output_targets);
    if node.standard_id != SPLIT_BY_STRUCT_ID || targets.len() != 1 || !(tail.standard_id
        == SPLITN_ID || tail.standard_id == SPLITN_STRUCT_ID) || ends.len() != 1 || ends[0]
        != last {
        return false;
    }
    match tail.input_start.checked_add(tail.input_count) {
        None => false,
        Some(input_end) => tail.input_start <= targets[0] && targets[0] < input_end,
    }
}

/// Finds from which transform on a chunk can write to the output directly.
pub fn direct_append_tail(plan: &ChunkExecutionPlan) -> (tail: Option<DirectAppendTail>)
    ensures
        tail == direct_tail(plan@),
        tail is Some ==> tail->Some_0.start < plan.nodes@.len(),
{
    let streams: usize = plan.regen_targets.len();
    if streams == 0 {
        return None;
    }
    let last: usize = streams - 1;
    if let Some(start) = find_chain_start(&plan.nodes, FIELD_LZ_ID, last) {
        return Some(DirectAppendTail { start, kind: DirectAppendKind::FieldLz });
    }
    if let Some(start) = find_chain_start(&plan.nodes, ZSTD_ID, last) {
        return Some(DirectAppendTail { start, kind: DirectAppendKind::Zstd });
    }
    if dispatch_string_to_serial_append_tail(&plan.nodes, last) {
        return Some(
            DirectAppendTail {
                start: plan.nodes.len() - 2,
                kind: DirectAppendKind::DispatchStringToSerial,
            },
        );
    }
    if split_by_struct_to_splitn_append_tail(&plan.nodes, last) {
        return Some(
            DirectAppendTail {
                start: plan.nodes.len() - 2,
                kind: DirectAppendKind::SplitByStructToSplitN,
            },
        );
    }
    if let Some(start) = find_chain_start(&plan.nodes, LZ_ID, last) {
        return Some(DirectAppendTail { start, kind: DirectAppendKind::Lz });
    }
    None
}

/// The plans of some chunks, where they have one.
pub open spec fn plan_views(plans: Seq<Option<ChunkExecutionPlan>>) -> Seq<Option<PlanView>> {
    Seq::new(
        plans.len(),
        |i: int|
            match plans[i] {
                Some(plan) => Some(plan@),
                None => None,
            },
    )
}

/// The plan of a chunk that can write to the output directly.
pub open spec fn direct_plan(chunk: ChunkView) -> Option<PlanView> {
    if chunk.nodes.len() == 0 {
        None
    } else {
        match chunk_plan(chunk) {
            Err(error) => None,
            Ok(plan) => if direct_tail(plan) is Some {
                Some(plan)
            } else {
                None
            },
        }
    }
}

/// The plan of each chunk that can write to the output directly, where some chunk can.
pub open spec fn direct_plans(chunks: Seq<ChunkView>) -> Option<Seq<Option<PlanView>>> {
    if exists|i: int| 0 <= i < chunks.len() && (#[trigger] direct_plan(chunks[i])) is Some {
        Some(Seq::new(chunks.len(), |i: int| direct_plan(chunks[i])))
    } else {
        None
    }
}

/// The plan of each chunk that has transforms, from `index` on.
pub open spec fn chunk_plans_from(
    chunks: Seq<ChunkView>,
    index: nat,
    plans: Seq<Option<PlanView>>,
) -> Result<Seq<Option<PlanView>>, ErrorView>
    decreases chunks.len() - index,
{
    if index >= chunks.len() {
        Ok(plans)
    } else if chunks[index as int].nodes.len() == 0 {
        chunk_plans_from(chunks, index + 1, plans.push(None))
    } else {
        match chunk_plan(chunks[index as int]) {
            Err(error) => Err(error),
            Ok(plan) => chunk_plans_from(chunks, index + 1, plans.push(Some(plan))),
        }
    }
}

/// The plan of each chunk that can write to the output directly.
pub struct DirectAppendChunkPlans {
    pub chunk_plans: Vec<Option<ChunkExecutionPlan>>,
}

impl View for DirectAppendChunkPlans {
    type V = Seq<Option<PlanView>>;

    open spec fn view(&self) -> Seq<Option<PlanView>> {
        plan_views(self.chunk_plans@)
    }
}

/// The plan of each chunk that has transforms.
pub struct ChunkExecutionPlans {
    pub chunk_plans: Vec<Option<ChunkExecutionPlan>>,
}

impl View for ChunkExecutionPlans {
    type V = Seq<Option<PlanView>>;

    open spec fn view(&self) -> Seq<Option<PlanView>> {
        plan_views(self.chunk_plans@)
    }
}

/// Plans every chunk that has transforms.
pub fn prepare_chunk_execution_plans(plan: &FramePlan) -> (result: Result<
    ChunkExecutionPlans,
    Error,
>)
    ensures
        outcome(result) == chunk_plans_from(plan@.chunks, 0, Seq::empty()),
{
    let mut chunk_plans: Vec<Option<ChunkExecutionPlan>> = Vec::new();
    let mut index: usize = 0;
    let ghost chunks = plan@.chunks;
    proof {
        assert(plan_views(chunk_plans@) =~= Seq::empty());
    }
    while index < plan.chunks.len()
        invariant
            index <= plan.chunks@.len(),
            chunks == plan@.chunks,
            chunk_plans_from(chunks, 0, Seq::empty()) == chunk_plans_from(
                chunks,
                index as nat,
                plan_views(chunk_plans@),
            ),
        decreases plan.chunks@.len() - index,
    {
        let chunk = &plan.chunks[index];
        proof {
            assert(chunks[index as int] == chunk@);
        }
        let entry: Option<ChunkExecutionPlan> = if chunk.has_nodes() {
            Some(build_chunk_execution_plan(chunk)?)
        } else {
            None
        };
        proof {
            assert(plan_views(chunk_plans@.push(entry)) =~= plan_views(chunk_plans@).push(
                match entry {
                    Some(entry) => Some(entry@),
                    None => None,
                },
            ));
        }
        chunk_plans.push(entry);
        index = index + 1;
    }
    Ok(ChunkExecutionPlans { chunk_plans })
}

/// Plans a chunk, where it can write to the output directly.
fn plan_direct_chunk(chunk: &ChunkPlan) -> (entry: Option<ChunkExecutionPlan>)
    ensures
        direct_plan(chunk@) == (match entry {
            Some(entry) => Some(entry@),
            None => None,
        }),
{
    if !chunk.has_nodes() {
        return None;
    }
    match build_chunk_execution_plan(chunk) {
        Err(_) => None,
        Ok(chunk_plan) => {
            if direct_append_tail(&chunk_plan).is_some() {
                Some(chunk_plan)
            } else {
                None
            }
        },
    }
}

/// Plans the chunks that can write to the output directly. This always succeeds.
pub fn prepare_direct_append_chunk_plans(plan: &FramePlan) -> (result: Result<
    Option<DirectAppendChunkPlans>,
    Error,
>)
    ensures
        result is Ok,
        direct_plans(plan@.chunks) == (match result->Ok_0 {
            Some(plans) => Some(plans@),
            None => None,
        }),
{
    let mut chunk_plans: Vec<Option<ChunkExecutionPlan>> = Vec::new();
    let mut has_direct_append_chunk: bool = false;
    let mut index: usize = 0;
    let ghost chunks = plan@.chunks;
    while index < plan.chunks.len()
        invariant
            index <= plan.chunks@.len(),
            chunks == plan@.chunks,
            chunk_plans@.len() == index,
            forall|i: int|
                0 <= i < index ==> #[trigger] plan_views(chunk_plans@)[i] == direct_plan(chunks[i]),
            has_direct_append_chunk == (exists|i: int|
                0 <= i < index && (#[trigger] direct_plan(chunks[i])) is Some),
        decreases plan.chunks@.len() - index,
    {
        let chunk = &plan.chunks[index];
        proof {
            assert(chunks[index as int] == chunk@);
        }
        let entry = plan_direct_chunk(chunk);
        if entry.is_some() {
            has_direct_append_chunk = true;
            proof {
                assert(direct_plan(chunks[index as int]) is Some);
            }
        }
        let ghost before = chunk_plans@;
        chunk_plans.push(entry);
        proof {
            assert forall|i: int| 0 <= i < index + 1 implies #[trigger] plan_views(chunk_plans@)[i]
                == direct_plan(chunks[i]) by {
                if i < index {
                    assert(plan_views(before)[i] == direct_plan(chunks[i]));
                }
            }
        }
        index = index + 1;
    }
    if has_direct_append_chunk {
        proof {
            assert(plan_views(chunk_plans@) =~= Seq::new(
                chunks.len(),
                |i: int| direct_plan(chunks[i]),
            ));
        }
        Ok(Some(DirectAppendChunkPlans { chunk_plans }))
    } else {
        Ok(None)
    }
}

} // verus!
