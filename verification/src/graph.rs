//! How the transforms of a chunk are executed: which streams each one reads and
//! writes, and whether the last ones can write to the output directly.

use smallvec::SmallVec;
use vstd::prelude::*;

use crate::error::{detailed, fail, outcome, plain, Error, ErrorKind, ErrorView};
use crate::frame_plan::{ChunkPlan, ChunkView, NodePlan, NodeView};
use crate::standard::{
    BITPACK_INT_ID, BITPACK_SERIAL_ID, BITUNPACK_ID, BIT_SPLIT_ID, CONCAT_NUM_ID,
    CONCAT_SERIAL_ID, CONCAT_STRUCT_ID, CONSTANT_FIXED_ID, CONSTANT_SERIAL_ID,
    CONVERT_NUM_TO_SERIAL_LE_ID, CONVERT_NUM_TO_STRUCT_LE_ID, CONVERT_SERIAL_TO_NUM_BE_ID,
    CONVERT_SERIAL_TO_NUM_LE_ID, CONVERT_SERIAL_TO_STRUCT_ID, CONVERT_STRING_TO_SERIAL_ID,
    CONVERT_STRUCT_TO_NUM_BE_ID, CONVERT_STRUCT_TO_NUM_LE_ID, CONVERT_STRUCT_TO_SERIAL_ID,
    DELTA_INT_ID, DISPATCH_N_BY_TAG_ID, DISPATCH_STRING_ID, DIVIDE_BY_ID, FIELD_LZ_ID,
    FLATPACK_ID, FSE_NCOUNT_ID, FSE_V2_ID, HUFFMAN_V2_ID, LZ4_ID, LZ_ID, MUX_LENGTHS_ID,
    PARSE_INT_ID, PARTITION_ID, PIVCO_HUFFMAN_ID, QUANTIZE_LENGTHS_ID, QUANTIZE_OFFSETS_ID,
    RANGE_PACK_ID, SENTINEL_ID, SEPARATE_STRING_COMPONENTS_ID, SPARSE_NUM_ID, SPLITN_ID,
    SPLITN_NUM_ID, SPLITN_STRUCT_ID, SPLIT_BY_STRUCT_ID, TOKENIZE_FIXED_ID, TOKENIZE_NUMERIC_ID,
    TRANSPOSE_SPLIT2_ID, TRANSPOSE_SPLIT4_ID, TRANSPOSE_SPLIT8_ID, TRANSPOSE_SPLIT_ID,
    ZIGZAG_ID, ZSTD_ID,
};
use crate::stream::join_text;
use crate::text::{decimal_text, number_text};

verus! {

/// The streams that a transform writes, in a `SmallVec` of `smallvec`.
#[verifier::external_body]
pub struct Targets {
    items: SmallVec<[usize; 2]>,
}

/// The streams in a list of targets, in order.
pub uninterp spec fn target_list(targets: Targets) -> Seq<usize>;

impl View for Targets {
    type V = Seq<usize>;

    open spec fn view(&self) -> Seq<usize> {
        target_list(*self)
    }
}

/// An empty list, by `SmallVec::new`.
#[verifier::external_body]
fn no_targets() -> (targets: Targets)
    ensures
        target_list(targets) == Seq::<usize>::empty(),
{
    Targets { items: SmallVec::new() }
}

/// Puts a stream behind the others, by `SmallVec::push`.
#[verifier::external_body]
fn push_target(targets: &mut Targets, target: usize)
    ensures
        target_list(*final(targets)) == target_list(*old(targets)).push(target),
{
    targets.items.push(target);
}

/// The streams as a slice, by `SmallVec::as_slice`.
#[verifier::external_body]
pub(crate) fn target_slice(targets: &Targets) -> (slice: &[usize])
    ensures
        slice@ == target_list(*targets),
{
    targets.items.as_slice()
}

/// How many inputs a transform has at least, where it can be executed.
pub open spec fn static_inputs(id: u32) -> Option<nat> {
    if id == SPLITN_ID || id == SPLITN_STRUCT_ID || id == SPLITN_NUM_ID || id == SPLIT_BY_STRUCT_ID ||
        id == TRANSPOSE_SPLIT_ID || id == BIT_SPLIT_ID {
        Some(0)
    } else if id == CONCAT_SERIAL_ID || id == CONCAT_NUM_ID || id == CONCAT_STRUCT_ID || id ==
        DISPATCH_N_BY_TAG_ID || id == FLATPACK_ID || id == SENTINEL_ID || id ==
        SEPARATE_STRING_COMPONENTS_ID || id == FSE_V2_ID || id == HUFFMAN_V2_ID || id ==
        QUANTIZE_OFFSETS_ID || id == QUANTIZE_LENGTHS_ID || id == PARTITION_ID || id ==
        TOKENIZE_FIXED_ID || id == TOKENIZE_NUMERIC_ID || id == TRANSPOSE_SPLIT2_ID || id ==
        PIVCO_HUFFMAN_ID || id == MUX_LENGTHS_ID {
        Some(2)
    } else if id == TRANSPOSE_SPLIT4_ID || id == LZ_ID {
        Some(4)
    } else if id == FIELD_LZ_ID {
        Some(5)
    } else if id == TRANSPOSE_SPLIT8_ID {
        Some(8)
    } else if id == DISPATCH_STRING_ID || id == LZ4_ID || id == ZSTD_ID || id == BITPACK_SERIAL_ID
        || id == BITPACK_INT_ID || id == CONSTANT_SERIAL_ID || id == CONSTANT_FIXED_ID || id ==
        CONVERT_STRUCT_TO_NUM_LE_ID || id == CONVERT_NUM_TO_STRUCT_LE_ID || id ==
        CONVERT_SERIAL_TO_NUM_LE_ID || id == CONVERT_NUM_TO_SERIAL_LE_ID || id ==
        CONVERT_STRUCT_TO_NUM_BE_ID || id == CONVERT_SERIAL_TO_NUM_BE_ID || id ==
        CONVERT_STRING_TO_SERIAL_ID || id == CONVERT_SERIAL_TO_STRUCT_ID || id ==
        CONVERT_STRUCT_TO_SERIAL_ID || id == ZIGZAG_ID || id == DELTA_INT_ID || id ==
        DIVIDE_BY_ID || id == PARSE_INT_ID || id == BITUNPACK_ID || id == RANGE_PACK_ID || id ==
        FSE_NCOUNT_ID {
        Some(1)
    } else {
        None
    }
}

fn static_input_count(id: u32) -> (count: Option<usize>)
    ensures
        static_inputs(id) == (match count {
            Some(count) => Some(count as nat),
            None => None,
        }),
        count is Some ==> count->Some_0 <= 8,
{
    if id == SPLITN_ID || id == SPLITN_STRUCT_ID || id == SPLITN_NUM_ID || id == SPLIT_BY_STRUCT_ID ||
        id == TRANSPOSE_SPLIT_ID || id == BIT_SPLIT_ID {
        Some(0)
    } else if id == CONCAT_SERIAL_ID || id == CONCAT_NUM_ID || id == CONCAT_STRUCT_ID || id ==
        DISPATCH_N_BY_TAG_ID || id == FLATPACK_ID || id == SENTINEL_ID || id ==
        SEPARATE_STRING_COMPONENTS_ID || id == FSE_V2_ID || id == HUFFMAN_V2_ID || id ==
        QUANTIZE_OFFSETS_ID || id == QUANTIZE_LENGTHS_ID || id == PARTITION_ID || id ==
        TOKENIZE_FIXED_ID || id == TOKENIZE_NUMERIC_ID || id == TRANSPOSE_SPLIT2_ID || id ==
        PIVCO_HUFFMAN_ID || id == MUX_LENGTHS_ID {
        Some(2)
    } else if id == TRANSPOSE_SPLIT4_ID || id == LZ_ID {
        Some(4)
    } else if id == FIELD_LZ_ID {
        Some(5)
    } else if id == TRANSPOSE_SPLIT8_ID {
        Some(8)
    } else if id == DISPATCH_STRING_ID || id == LZ4_ID || id == ZSTD_ID || id == BITPACK_SERIAL_ID
        || id == BITPACK_INT_ID || id == CONSTANT_SERIAL_ID || id == CONSTANT_FIXED_ID || id ==
        CONVERT_STRUCT_TO_NUM_LE_ID || id == CONVERT_NUM_TO_STRUCT_LE_ID || id ==
        CONVERT_SERIAL_TO_NUM_LE_ID || id == CONVERT_NUM_TO_SERIAL_LE_ID || id ==
        CONVERT_STRUCT_TO_NUM_BE_ID || id == CONVERT_SERIAL_TO_NUM_BE_ID || id ==
        CONVERT_STRING_TO_SERIAL_ID || id == CONVERT_SERIAL_TO_STRUCT_ID || id ==
        CONVERT_STRUCT_TO_SERIAL_ID || id == ZIGZAG_ID || id == DELTA_INT_ID || id ==
        DIVIDE_BY_ID || id == PARSE_INT_ID || id == BITUNPACK_ID || id == RANGE_PACK_ID || id ==
        FSE_NCOUNT_ID {
        Some(1)
    } else {
        None
    }
}

/// How many inputs a transform has, of which `variable` are stated in the frame.
pub open spec fn input_count(id: u32, variable: nat) -> Result<nat, ErrorView> {
    match static_inputs(id) {
        None => Err(
            detailed(
                ErrorKind::Unsupported,
                "standard transform graph execution is not implemented yet"@,
            ),
        ),
        Some(fixed) => if fixed + variable > usize::MAX {
            Err(plain(ErrorKind::IntegerOverflow))
        } else {
            Ok(fixed + variable)
        },
    }
}

/// Counts the inputs of a transform.
pub fn standard_node_input_count(id: u32, variable: usize) -> (result: Result<usize, Error>)
    ensures
        match result {
            Ok(count) => input_count(id, variable as nat) == Ok::<nat, ErrorView>(count as nat),
            Err(error) => input_count(id, variable as nat) == Err::<nat, ErrorView>(error@),
        },
{
    match static_input_count(id) {
        None => Err(
            fail(
                ErrorKind::Unsupported,
                "standard transform graph execution is not implemented yet",
            ),
        ),
        Some(fixed) => match fixed.checked_add(variable) {
            Some(count) => Ok(count),
            None => Err(Error::new(ErrorKind::IntegerOverflow)),
        },
    }
}

/// How many inputs a transform of a chunk has, of which `variable` are stated in the
/// frame. A sparse_num transform is executed apart from the others and is counted here.
pub open spec fn planned_input_count(id: u32, variable: nat) -> Result<nat, ErrorView> {
    if id != SPARSE_NUM_ID {
        input_count(id, variable)
    } else if 2 + variable > usize::MAX {
        Err(plain(ErrorKind::IntegerOverflow))
    } else {
        Ok(2 + variable)
    }
}

/// Counts the inputs of a transform of a chunk.
fn count_planned_inputs(id: u32, variable: usize) -> (result: Result<usize, Error>)
    ensures
        match result {
            Ok(count) => planned_input_count(id, variable as nat) == Ok::<nat, ErrorView>(
                count as nat,
            ),
            Err(error) => planned_input_count(id, variable as nat) == Err::<nat, ErrorView>(
                error@,
            ),
        },
{
    if id != SPARSE_NUM_ID {
        return standard_node_input_count(id, variable);
    }
    match variable.checked_add(2) {
        Some(count) => Ok(count),
        None => Err(Error::new(ErrorKind::IntegerOverflow)),
    }
}

/// A transform with its place among the streams of its chunk.
pub struct NodeExecutionPlan {
    pub standard_id: u32,
    pub input_start: usize,
    pub input_count: usize,
    pub output_targets: Targets,
    pub variable_inputs: u32,
    pub dict_index: Option<u32>,
    pub header_start: usize,
    pub header_size: usize,
}

/// The mathematical content of a [`NodeExecutionPlan`].
#[verifier::ext_equal]
pub struct StepView {
    pub standard_id: u32,
    pub input_start: usize,
    pub input_count: usize,
    pub targets: Seq<usize>,
    pub variable_inputs: u32,
    pub dict_index: Option<u32>,
    pub header_start: usize,
    pub header_size: usize,
}

impl View for NodeExecutionPlan {
    type V = StepView;

    open spec fn view(&self) -> StepView {
        StepView {
            standard_id: self.standard_id,
            input_start: self.input_start,
            input_count: self.input_count,
            targets: self.output_targets@,
            variable_inputs: self.variable_inputs,
            dict_index: self.dict_index,
            header_start: self.header_start,
            header_size: self.header_size,
        }
    }
}

/// The contents of a list of placed transforms.
pub open spec fn step_views(nodes: Seq<NodeExecutionPlan>) -> Seq<StepView> {
    Seq::new(nodes.len(), |i: int| nodes[i]@)
}

/// The transforms of a chunk with their places, and which streams they write.
pub struct ChunkExecutionPlan {
    pub nodes: Vec<NodeExecutionPlan>,
    pub regen_targets: Vec<bool>,
}

/// The mathematical content of a [`ChunkExecutionPlan`].
#[verifier::ext_equal]
pub struct PlanView {
    pub steps: Seq<StepView>,
    pub regen_targets: Seq<bool>,
}

impl View for ChunkExecutionPlan {
    type V = PlanView;

    open spec fn view(&self) -> PlanView {
        PlanView { steps: step_views(self.nodes@), regen_targets: self.regen_targets@ }
    }
}

/// The text for a distance that leads out of the streams of a chunk.
pub open spec fn distance_text(
    id: nat,
    input_end: nat,
    distance: nat,
    target: nat,
    streams: nat,
) -> Seq<char> {
    "regen stream distance is out of bounds: id="@ + decimal_text(id) + " input_end="@
        + decimal_text(input_end) + " distance="@ + decimal_text(distance) + " target="@
        + decimal_text(target) + " streams="@ + decimal_text(streams)
}

fn append_number(text: String, label: &str, value: usize) -> (longer: String)
    ensures
        longer@ == text@ + label@ + decimal_text(value as nat),
{
    let labelled = join_text(text.as_str(), label);
    let number = number_text(value);
    join_text(labelled.as_str(), number.as_str())
}

fn describe_distance(
    id: usize,
    input_end: usize,
    distance: usize,
    target: usize,
    streams: usize,
) -> (text: String)
    ensures
        text@ == distance_text(
            id as nat,
            input_end as nat,
            distance as nat,
            target as nat,
            streams as nat,
        ),
{
    let number = number_text(id);
    let text = join_text("regen stream distance is out of bounds: id=", number.as_str());
    let text = append_number(text, " input_end=", input_end);
    let text = append_number(text, " distance=", distance);
    let text = append_number(text, " target=", target);
    append_number(text, " streams=", streams)
}

/// Places the outputs of a transform from output `index` on: which streams are
/// written then, and which ones this transform writes.
pub open spec fn outputs_placed(
    id: u32,
    distances: Seq<u32>,
    index: nat,
    input_end: nat,
    written: Seq<bool>,
    placed: Seq<usize>,
) -> Result<(Seq<bool>, Seq<usize>), ErrorView>
    decreases distances.len() - index,
{
    if index >= distances.len() {
        Ok((written, placed))
    } else {
        let distance = distances[index as int] as nat;
        let target = input_end + distance;
        if target > usize::MAX {
            Err(plain(ErrorKind::IntegerOverflow))
        } else if target >= written.len() {
            Err(
                detailed(
                    ErrorKind::InvalidGraph,
                    distance_text(id as nat, input_end, distance, target, written.len()),
                ),
            )
        } else if written[target as int] {
            Err(detailed(ErrorKind::InvalidGraph, "duplicate regen stream distance"@))
        } else {
            outputs_placed(
                id,
                distances,
                index + 1,
                input_end,
                written.update(target as int, true),
                placed.push(target as usize),
            )
        }
    }
}

/// Places the transforms of a chunk from `index` on, the first of which reads from
/// stream `cursor` on.
pub open spec fn steps_placed(
    nodes: Seq<NodeView>,
    index: nat,
    cursor: nat,
    written: Seq<bool>,
    steps: Seq<StepView>,
) -> Result<PlanView, ErrorView>
    decreases nodes.len() - index,
{
    if index >= nodes.len() {
        Ok(PlanView { steps, regen_targets: written })
    } else {
        let node = nodes[index as int];
        match node.standard_id {
            None => Err(detailed(ErrorKind::Unsupported, "custom graph execution is unsupported"@)),
            Some(id) => match planned_input_count(id, node.variable_outputs as nat) {
                Err(error) => Err(error),
                Ok(count) => if cursor + count > usize::MAX {
                    Err(plain(ErrorKind::IntegerOverflow))
                } else {
                    match outputs_placed(
                        id,
                        node.regen_distances,
                        0,
                        cursor + count,
                        written,
                        Seq::empty(),
                    ) {
                        Err(error) => Err(error),
                        Ok((written, targets)) => steps_placed(
                            nodes,
                            index + 1,
                            cursor + count,
                            written,
                            steps.push(
                                StepView {
                                    standard_id: id,
                                    input_start: cursor as usize,
                                    input_count: count as usize,
                                    targets,
                                    variable_inputs: node.variable_outputs,
                                    dict_index: node.dict_index,
                                    header_start: node.header_start,
                                    header_size: node.header_size,
                                },
                            ),
                        ),
                    }
                },
            },
        }
    }
}

/// How the transforms of a chunk are placed among its streams.
pub open spec fn chunk_plan(chunk: ChunkView) -> Result<PlanView, ErrorView> {
    let streams = chunk.stored.len() + chunk.regenerated;
    if streams > usize::MAX {
        Err(plain(ErrorKind::IntegerOverflow))
    } else {
        steps_placed(chunk.nodes, 0, 0, Seq::new(streams as nat, |i: int| false), Seq::empty())
    }
}

/// Places the outputs of a transform.
fn place_outputs(id: u32, distances: &Vec<u32>, input_end: usize, written: &mut Vec<bool>) -> (result:
    Result<Targets, Error>)
    ensures
        match outputs_placed(
            id,
            distances@,
            0,
            input_end as nat,
            old(written)@,
            Seq::empty(),
        ) {
            Ok((after, placed)) => result is Ok && result->Ok_0@ == placed && final(written)@
                == after,
            Err(error) => result is Err && result->Err_0@ == error,
        },
{
    let mut targets = no_targets();
    let mut index: usize = 0;
    let ghost total = outputs_placed(
        id,
        distances@,
        0,
        input_end as nat,
        written@,
        Seq::empty(),
    );
    while index < distances.len()
        invariant
            index <= distances@.len(),
            total == outputs_placed(
                id,
                distances@,
                0,
                input_end as nat,
                old(written)@,
                Seq::empty(),
            ),
            total == outputs_placed(
                id,
                distances@,
                index as nat,
                input_end as nat,
                written@,
                targets@,
            ),
        decreases distances@.len() - index,
    {
        let distance: usize = distances[index] as usize;
        let target: usize = match input_end.checked_add(distance) {
            Some(target) => target,
            None => {
                return Err(Error::new(ErrorKind::IntegerOverflow));
            },
        };
        if target >= written.len() {
            let text = describe_distance(id as usize, input_end, distance, target, written.len());
            return Err(fail(ErrorKind::InvalidGraph, text.as_str()));
        }
        if written[target] {
            return Err(fail(ErrorKind::InvalidGraph, "duplicate regen stream distance"));
        }
        written.set(target, true);
        push_target(&mut targets, target);
        index = index + 1;
    }
    Ok(targets)
}

/// Places the transforms of a chunk among its streams.
pub fn build_chunk_execution_plan(chunk: &ChunkPlan) -> (result: Result<ChunkExecutionPlan, Error>)
    ensures
        outcome(result) == chunk_plan(chunk@),
{
    let streams: usize = match chunk.stored.len().checked_add(chunk.regenerated) {
        Some(streams) => streams,
        None => {
            return Err(Error::new(ErrorKind::IntegerOverflow));
        },
    };
    let mut regen_targets: Vec<bool> = vec![false; streams];
    let mut nodes: Vec<NodeExecutionPlan> = Vec::new();
    let mut cursor: usize = 0;
    let mut index: usize = 0;
    let ghost views = chunk@.nodes;
    proof {
        assert(regen_targets@ =~= Seq::new(streams as nat, |i: int| false));
        assert(step_views(nodes@) =~= Seq::empty());
    }
    while index < chunk.nodes.len()
        invariant
            index <= chunk.nodes@.len(),
            views == chunk@.nodes,
            chunk_plan(chunk@) == steps_placed(
                views,
                index as nat,
                cursor as nat,
                regen_targets@,
                step_views(nodes@),
            ),
        decreases chunk.nodes@.len() - index,
    {
        let node: &NodePlan = &chunk.nodes[index];
        proof {
            assert(views[index as int] == node@);
        }
        let standard_id: u32 = match node.standard_id {
            Some(standard_id) => standard_id,
            None => {
                return Err(
                    fail(ErrorKind::Unsupported, "custom graph execution is unsupported"),
                );
            },
        };
        let input_count: usize = count_planned_inputs(
            standard_id,
            node.variable_outputs as usize,
        )?;
        let input_end: usize = match cursor.checked_add(input_count) {
            Some(input_end) => input_end,
            None => {
                return Err(Error::new(ErrorKind::IntegerOverflow));
            },
        };
        let output_targets = place_outputs(
            standard_id,
            &node.regen_distances,
            input_end,
            &mut regen_targets,
        )?;
        let step = NodeExecutionPlan {
            standard_id,
            input_start: cursor,
            input_count,
            output_targets,
            variable_inputs: node.variable_outputs,
            dict_index: node.dict_index,
            header_start: node.transform_header_start,
            header_size: node.transform_header_size,
        };
        proof {
            assert(step_views(nodes@.push(step)) =~= step_views(nodes@).push(step@));
        }
        nodes.push(step);
        cursor = input_end;
        index = index + 1;
    }
    Ok(ChunkExecutionPlan { nodes, regen_targets })
}

/// Whether a place is among some targets.
spec fn target_at(targets: Seq<usize>, place: int) -> bool {
    exists|j: int| 0 <= j < targets.len() && #[trigger] targets[j] == place
}

/// Outputs of one transform: behind its inputs, no two in one place, none where `before`
/// says that another transform writes.
spec fn outputs_fit(
    placed: Seq<usize>,
    input_end: nat,
    before: Seq<bool>,
    written: Seq<bool>,
) -> bool {
    &&& before.len() == written.len()
    &&& forall|i: int|
        0 <= i < written.len() ==> #[trigger] written[i] == (before[i] || target_at(placed, i))
    &&& forall|j: int|
        0 <= j < placed.len() ==> input_end <= #[trigger] placed[j] < written.len()
            && written[placed[j] as int] && !before[placed[j] as int]
    &&& forall|j: int, k: int|
        0 <= j < k < placed.len() ==> #[trigger] placed[j] != #[trigger] placed[k]
}

proof fn lemma_outputs_fit(
    id: u32,
    distances: Seq<u32>,
    index: nat,
    input_end: nat,
    before: Seq<bool>,
    written: Seq<bool>,
    placed: Seq<usize>,
)
    requires
        outputs_fit(placed, input_end, before, written),
        outputs_placed(id, distances, index, input_end, written, placed) is Ok,
    ensures
        ({
            let (after, all) = outputs_placed(
                id,
                distances,
                index,
                input_end,
                written,
                placed,
            )->Ok_0;
            outputs_fit(all, input_end, before, after)
        }),
    decreases distances.len() - index,
{
    if index < distances.len() {
        let target = input_end + distances[index as int] as nat;
        let marked = written.update(target as int, true);
        let longer = placed.push(target as usize);
        assert forall|i: int| 0 <= i < marked.len() implies #[trigger] marked[i] == (before[i]
            || target_at(longer, i)) by {
            assert(longer[placed.len() as int] == target);
            if target_at(placed, i) {
                let j = choose|j: int| 0 <= j < placed.len() && #[trigger] placed[j] == i;
                assert(longer[j] == i);
            }
            if target_at(longer, i) {
                let j = choose|j: int| 0 <= j < longer.len() && #[trigger] longer[j] == i;
                assert(j < placed.len() ==> placed[j] == i);
            }
        }
        lemma_outputs_fit(
            id,
            distances,
            index + 1,
            input_end,
            before,
            marked,
            longer,
        );
    }
}

/// Whether one of the transforms writes the stream at a place.
pub open spec fn written_by(steps: Seq<StepView>, place: int) -> bool {
    exists|s: int, j: int|
        0 <= s < steps.len() && 0 <= j < steps[s].targets.len() && #[trigger] steps[s].targets[j]
            == place
}

/// Transforms in order: the first reads from the first stream on, each other one from
/// where the one before it ends, up to `cursor`; each writes behind what it reads itself,
/// no two outputs share a place, and the written streams are exactly these outputs.
pub open spec fn steps_in_order(steps: Seq<StepView>, cursor: nat, written: Seq<bool>) -> bool {
    &&& steps.len() == 0 ==> cursor == 0
    &&& steps.len() > 0 ==> steps[0].input_start == 0 && steps.last().input_start
        + steps.last().input_count == cursor
    &&& forall|s: int, t: int|
        0 <= s && t == s + 1 && t < steps.len() ==> (#[trigger] steps[s]).input_start
            + steps[s].input_count == (#[trigger] steps[t]).input_start
    &&& forall|s: int, j: int|
        0 <= s < steps.len() && 0 <= j < steps[s].targets.len() ==> steps[s].input_start
            + steps[s].input_count <= #[trigger] steps[s].targets[j] < written.len()
    &&& forall|s: int, j: int, t: int, k: int|
        0 <= s < steps.len() && 0 <= t < steps.len() && 0 <= j < steps[s].targets.len() && 0 <= k
            < steps[t].targets.len() && (s != t || j != k) ==> #[trigger] steps[s].targets[j]
            != #[trigger] steps[t].targets[k]
    &&& forall|i: int|
        0 <= i < written.len() ==> #[trigger] written[i] == written_by(steps, i)
}

proof fn lemma_steps_in_order(
    nodes: Seq<NodeView>,
    index: nat,
    cursor: nat,
    written: Seq<bool>,
    steps: Seq<StepView>,
)
    requires
        index <= nodes.len(),
        steps.len() == index,
        steps_in_order(steps, cursor, written),
        steps_placed(nodes, index, cursor, written, steps) is Ok,
    ensures
        ({
            let plan = steps_placed(nodes, index, cursor, written, steps)->Ok_0;
            &&& plan.steps.len() == nodes.len()
            &&& plan.regen_targets.len() == written.len()
            &&& exists|end: nat| #[trigger] steps_in_order(plan.steps, end, plan.regen_targets)
        }),
    decreases nodes.len() - index,
{
    if index < nodes.len() {
        let node = nodes[index as int];
        let id = node.standard_id->Some_0;
        let count = planned_input_count(id, node.variable_outputs as nat)->Ok_0;
        let end = cursor + count;
        let (after, targets) = outputs_placed(
            id,
            node.regen_distances,
            0,
            end,
            written,
            Seq::empty(),
        )->Ok_0;
        lemma_outputs_fit(id, node.regen_distances, 0, end, written, written, Seq::empty());
        let step = StepView {
            standard_id: id,
            input_start: cursor as usize,
            input_count: count as usize,
            targets,
            variable_inputs: node.variable_outputs,
            dict_index: node.dict_index,
            header_start: node.header_start,
            header_size: node.header_size,
        };
        let longer = steps.push(step);
        assert forall|s: int, j: int, t: int, k: int|
            0 <= s < longer.len() && 0 <= t < longer.len() && 0 <= j < longer[s].targets.len() && 0
                <= k < longer[t].targets.len() && (s != t || j
                != k) implies #[trigger] longer[s].targets[j] != #[trigger] longer[t].targets[k] by {
            if s < steps.len() {
                assert(longer[s] == steps[s]);
                assert(written_by(steps, steps[s].targets[j] as int));
                assert(written[steps[s].targets[j] as int]);
            } else {
                assert(longer[s].targets == targets);
            }
            if t < steps.len() {
                assert(longer[t] == steps[t]);
                assert(written_by(steps, steps[t].targets[k] as int));
                assert(written[steps[t].targets[k] as int]);
            } else {
                assert(longer[t].targets == targets);
            }
        }
        assert forall|s: int, j: int|
            0 <= s < longer.len() && 0 <= j
                < longer[s].targets.len() implies longer[s].input_start + longer[s].input_count
            <= #[trigger] longer[s].targets[j] < after.len() by {
            if s < steps.len() {
                assert(longer[s] == steps[s]);
            } else {
                assert(longer[s].targets == targets);
            }
        }
        assert forall|i: int| 0 <= i < after.len() implies #[trigger] after[i] == written_by(
            longer,
            i,
        ) by {
            if written[i] {
                let (s, j) = choose|s: int, j: int|
                    0 <= s < steps.len() && 0 <= j < steps[s].targets.len()
                        && #[trigger] steps[s].targets[j] == i;
                assert(longer[s].targets[j] == i);
            }
            if target_at(targets, i) {
                let j = choose|j: int| 0 <= j < targets.len() && #[trigger] targets[j] == i;
                assert(longer[steps.len() as int].targets[j] == i);
            }
            if written_by(longer, i) {
                let (s, j) = choose|s: int, j: int|
                    0 <= s < longer.len() && 0 <= j < longer[s].targets.len()
                        && #[trigger] longer[s].targets[j] == i;
                if s < steps.len() {
                    assert(steps[s].targets[j] == i);
                    assert(written_by(steps, i));
                } else {
                    assert(targets[j] == i);
                }
            }
        }
        lemma_steps_in_order(nodes, index + 1, end, after, longer);
    }
}

/// The transforms of a planned chunk form a graph without cycles: the streams that they
/// read follow one another from the first on without a gap, each transform writes behind
/// what it reads, and no stream is written twice. The plan marks exactly the written
/// streams.
pub proof fn law_planned_graph_is_acyclic(chunk: ChunkView)
    requires
        chunk_plan(chunk) is Ok,
    ensures
        ({
            let plan = chunk_plan(chunk)->Ok_0;
            &&& plan.steps.len() == chunk.nodes.len()
            &&& plan.regen_targets.len() == chunk.stored.len() + chunk.regenerated
            &&& exists|end: nat| #[trigger] steps_in_order(plan.steps, end, plan.regen_targets)
        }),
{
    let streams = (chunk.stored.len() + chunk.regenerated) as nat;
    lemma_steps_in_order(chunk.nodes, 0, 0, Seq::new(streams, |i: int| false), Seq::empty());
}

} // verus!
