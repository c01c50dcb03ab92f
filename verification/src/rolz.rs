//! The deprecated reduced offset LZ transform.

use vstd::prelude::*;
use vstd::slice::slice_subrange;

use crate::bytes::le_value;
use crate::deprecated_lz::{
    decode_deprecated_lz_entropy_payload_to_vec, entropy_list, le_u32_at, literal_payload,
    literal_range, parse_deprecated_lz_stored_stream, parse_legacy_literal_entropy_payload,
    read_deprecated_lz_le_u32, size_prefix, LiteralPayload,
};
use crate::error::{detailed, fail, outcome, plain, Error, ErrorKind, ErrorView};
use crate::limits::Limits;
use crate::lz::{append_lz_match, law_lz_match_is_periodic, lz_extend};
use crate::rolz_sequences::{decode_rolz_deprecated_seq_values, sequence_values};
use crate::rolz_table::{
    context_hash, context_of, no_history, recalled, remembered, rolz_deprecated_context,
    table_error, RolzDeprecatedTable, RolzHistory,
};
use crate::stream::{StreamInput, StreamView};

verus! {

pub const ROLZ_HEADER_LEN: usize = 15;

pub const ROLZ_CLUSTER_BYTES: usize = 32;

pub const ROLZ_LZ_MIN_LENGTH: usize = 7;

pub const ROLZ_REP_MIN_LENGTH: usize = 3;

pub const ROLZ_REP_BIAS: usize = 4;

/// The literals of a payload: one list, or a list for each cluster of preceding
/// bytes.
#[verifier::ext_equal]
pub enum RolzLiteralsView {
    Linear(Seq<u8>),
    Clustered { contexts: Seq<u8>, clusters: Seq<Seq<u8>>, total: nat },
}

impl RolzLiteralsView {
    /// How many literals there are.
    pub open spec fn count(self) -> nat {
        match self {
            RolzLiteralsView::Linear(bytes) => bytes.len(),
            RolzLiteralsView::Clustered { contexts, clusters, total } => total,
        }
    }
}

/// The lists of a payload.
#[verifier::ext_equal]
pub struct RolzView {
    pub literals: RolzLiteralsView,
    pub match_types: Seq<u8>,
    pub literal_lengths: Seq<usize>,
    pub match_lengths: Seq<usize>,
    pub match_codes: Seq<usize>,
}

/// The largest of some bytes.
pub open spec fn max_byte(bytes: Seq<u8>) -> nat
    decreases bytes.len(),
{
    if bytes.len() == 0 {
        0
    } else {
        let rest = max_byte(bytes.drop_last());
        if bytes.last() > rest {
            bytes.last() as nat
        } else {
            rest
        }
    }
}

proof fn lemma_max_byte(bytes: Seq<u8>, index: int)
    requires
        0 <= index < bytes.len(),
    ensures
        bytes[index] <= max_byte(bytes) <= 255,
    decreases bytes.len(),
{
    if bytes.len() > 1 {
        lemma_max_byte(bytes.drop_last(), 0);
    } else {
        assert(max_byte(bytes.drop_last()) == 0);
    }
    if index < bytes.len() - 1 {
        lemma_max_byte(bytes.drop_last(), index);
    }
}

/// The error of cluster sizes that do not add up.
pub open spec fn cluster_count_error() -> ErrorView {
    detailed(ErrorKind::Malformed, "rolz_deprecated literal cluster count is invalid"@)
}

/// Reads the last `left` clusters.
pub open spec fn clusters_from(
    payload: Seq<u8>,
    offset: nat,
    left: nat,
    total: nat,
    num_literals: nat,
    clusters: Seq<Seq<u8>>,
) -> Result<(Seq<Seq<u8>>, nat), ErrorView>
    decreases left,
{
    if left == 0 {
        if total != num_literals {
            Err(cluster_count_error())
        } else {
            Ok((clusters, offset))
        }
    } else {
        match le_u32_at(payload, offset, "rolz_deprecated literal cluster"@) {
            Err(error) => Err(error),
            Ok(count) => if total + count > usize::MAX {
                Err(plain(ErrorKind::IntegerOverflow))
            } else if total + count > num_literals {
                Err(cluster_count_error())
            } else {
                match literal_payload(payload, offset + 4, "rolz_deprecated literals"@) {
                    Err(error) => Err(error),
                    Ok((bytes, offset)) => if bytes.len() != count {
                        Err(cluster_count_error())
                    } else {
                        clusters_from(
                            payload,
                            offset,
                            (left - 1) as nat,
                            total + count,
                            num_literals,
                            clusters.push(bytes),
                        )
                    },
                }
            },
        }
    }
}

/// The clustered literals at `offset`, and the offset behind them.
pub open spec fn clustered_literals(
    payload: Seq<u8>,
    offset: nat,
    num_literals: nat,
    limits: Limits,
) -> Result<(RolzLiteralsView, nat), ErrorView> {
    let truncated = detailed(
        ErrorKind::Truncated,
        "rolz_deprecated literal clustering is truncated"@,
    );
    if offset >= payload.len() {
        Err(truncated)
    } else {
        let start = offset + 1;
        let end = start + payload[offset as int] + 1;
        let contexts = payload.subrange(start as int, end);
        let count = max_byte(contexts) + 1;
        if end > payload.len() {
            Err(truncated)
        } else if count > limits.max_buffer_bytes / ROLZ_CLUSTER_BYTES {
            Err(
                detailed(
                    ErrorKind::LimitExceeded,
                    "rolz_deprecated literal clusters exceed buffer limit"@,
                ),
            )
        } else {
            match clusters_from(payload, end as nat, count, 0, num_literals, Seq::empty()) {
                Err(error) => Err(error),
                Ok((clusters, offset)) => Ok(
                    (
                        RolzLiteralsView::Clustered { contexts, clusters, total: num_literals },
                        offset,
                    ),
                ),
            }
        }
    }
}

/// The literals at `offset`, and the offset behind them.
pub open spec fn rolz_literals(
    payload: Seq<u8>,
    offset: nat,
    num_literals: nat,
    limits: Limits,
) -> Result<(RolzLiteralsView, nat), ErrorView> {
    if num_literals == 0 {
        Ok((RolzLiteralsView::Linear(Seq::empty()), offset))
    } else if offset >= payload.len() {
        Err(
            detailed(
                ErrorKind::Truncated,
                "rolz_deprecated literal order flag is truncated"@,
            ),
        )
    } else if payload[offset as int] == 0 {
        match literal_payload(payload, offset + 1, "rolz_deprecated literals"@) {
            Err(error) => Err(error),
            Ok((bytes, offset)) => Ok((RolzLiteralsView::Linear(bytes), offset)),
        }
    } else if payload[offset as int] == 1 {
        clustered_literals(payload, offset + 1, num_literals, limits)
    } else {
        Err(detailed(ErrorKind::Malformed, "rolz_deprecated literal order flag is invalid"@))
    }
}

/// A payload starts with the one supported set of parameters: a context of two
/// bytes and twelve bits, rows of sixteen entries, least match lengths of three,
/// seven and three, and predicted match lengths.
pub open spec fn params_supported(payload: Seq<u8>) -> bool {
    &&& payload[0] == 2
    &&& payload[1] == 12
    &&& payload[2] == 4
    &&& payload[3] == 3
    &&& payload[4] != 0
    &&& payload[5] == 7
    &&& payload[6] == 3
}

/// Every match type is known.
pub open spec fn types_known(types: Seq<u8>) -> bool {
    forall|i: int| 0 <= i < types.len() ==> #[trigger] types[i] <= 3
}

/// The lists of values that follow the match types.
pub open spec fn rolz_sequences(
    payload: Seq<u8>,
    offset: nat,
    literals: RolzLiteralsView,
    types: Seq<u8>,
    limits: Limits,
) -> Result<RolzView, ErrorView> {
    match sequence_values(payload, offset, types, limits, "rolz_deprecated literal lengths"@) {
        Err(error) => Err(error),
        Ok((literal_lengths, offset)) => match sequence_values(
            payload,
            offset,
            types,
            limits,
            "rolz_deprecated match lengths"@,
        ) {
            Err(error) => Err(error),
            Ok((match_lengths, offset)) => match sequence_values(
                payload,
                offset,
                types,
                limits,
                "rolz_deprecated match codes"@,
            ) {
                Err(error) => Err(error),
                Ok((match_codes, offset)) => if offset != payload.len() {
                    Err(
                        detailed(
                            ErrorKind::Malformed,
                            "rolz_deprecated payload has trailing bytes"@,
                        ),
                    )
                } else {
                    Ok(
                        RolzView {
                            literals,
                            match_types: types,
                            literal_lengths,
                            match_lengths,
                            match_codes,
                        },
                    )
                },
            },
        },
    }
}

/// The lists that a payload holds.
pub open spec fn rolz_payload(payload: Seq<u8>, limits: Limits) -> Result<RolzView, ErrorView> {
    let num_literals = le_value(payload.subrange(7, 11));
    let num_sequences = le_value(payload.subrange(11, 15));
    if payload.len() < ROLZ_HEADER_LEN {
        Err(detailed(ErrorKind::Truncated, "rolz_deprecated header is truncated"@))
    } else if !params_supported(payload) {
        Err(detailed(ErrorKind::Unsupported, "rolz_deprecated parameters are unsupported"@))
    } else if num_sequences > limits.max_buffer_bytes / 16 {
        Err(
            detailed(
                ErrorKind::LimitExceeded,
                "rolz_deprecated sequence count exceeds buffer limit"@,
            ),
        )
    } else {
        match rolz_literals(payload, ROLZ_HEADER_LEN as nat, num_literals, limits) {
            Err(error) => Err(error),
            Ok((literals, offset)) => if literals.count() != num_literals {
                Err(detailed(ErrorKind::Malformed, "rolz_deprecated literal count is invalid"@))
            } else {
                match entropy_list(
                    payload,
                    offset,
                    num_sequences,
                    limits,
                    "rolz_deprecated match types"@,
                ) {
                    Err(error) => Err(error),
                    Ok((types, offset)) => if !types_known(types) {
                        Err(
                            detailed(
                                ErrorKind::Malformed,
                                "rolz_deprecated match type is invalid"@,
                            ),
                        )
                    } else {
                        rolz_sequences(payload, offset, literals, types, limits)
                    },
                }
            },
        }
    }
}

/// How far a decoding has come: literals taken in all and off each cluster, the
/// last offsets, the positions seen, and the output.
#[verifier::ext_equal]
pub struct RolzState {
    pub consumed: nat,
    pub positions: Seq<usize>,
    pub reps: (nat, nat, nat),
    pub history: RolzHistory,
    pub output: Seq<u8>,
}

/// Takes `left` literals, each off the cluster of the byte in front of it.
pub open spec fn clustered_from(
    contexts: Seq<u8>,
    clusters: Seq<Seq<u8>>,
    positions: Seq<usize>,
    output: Seq<u8>,
    left: nat,
) -> Result<(Seq<usize>, Seq<u8>), ErrorView>
    decreases left,
{
    if left == 0 {
        Ok((positions, output))
    } else {
        let context = if output.len() == 0 {
            0u8
        } else {
            output.last()
        };
        let cluster = contexts[context as int] as int;
        let position = positions[cluster];
        if context >= contexts.len() {
            Err(detailed(ErrorKind::Malformed, "rolz_deprecated literal context is invalid"@))
        } else if position >= clusters[cluster].len() {
            Err(detailed(ErrorKind::Malformed, "rolz_deprecated literals stream is too short"@))
        } else {
            clustered_from(
                contexts,
                clusters,
                positions.update(cluster, (position + 1) as usize),
                output.push(clusters[cluster][position as int]),
                (left - 1) as nat,
            )
        }
    }
}

/// Takes `len` literals: how far each cluster is used up, and the longer output.
pub open spec fn take_literals(
    literals: RolzLiteralsView,
    consumed: nat,
    positions: Seq<usize>,
    output: Seq<u8>,
    len: nat,
) -> Result<(Seq<usize>, Seq<u8>), ErrorView> {
    match literals {
        RolzLiteralsView::Linear(bytes) => match literal_range(bytes, consumed, len) {
            Err(error) => Err(error),
            Ok(more) => Ok((positions, output + more)),
        },
        RolzLiteralsView::Clustered { contexts, clusters, total } => if consumed + len
            > usize::MAX {
            Err(plain(ErrorKind::IntegerOverflow))
        } else if consumed + len > total {
            Err(detailed(ErrorKind::Malformed, "rolz_deprecated literal stream is too short"@))
        } else {
            clustered_from(contexts, clusters, positions, output, len)
        },
    }
}

/// Takes `len` literals where the output still has room for them.
pub open spec fn fit_literals(
    literals: RolzLiteralsView,
    consumed: nat,
    positions: Seq<usize>,
    output: Seq<u8>,
    len: nat,
    decoded_size: nat,
) -> Result<(Seq<usize>, Seq<u8>), ErrorView> {
    if output.len() + len > usize::MAX {
        Err(plain(ErrorKind::IntegerOverflow))
    } else if output.len() + len > decoded_size {
        Err(detailed(ErrorKind::Malformed, "rolz_deprecated literal length exceeds output size"@))
    } else {
        take_literals(literals, consumed, positions, output, len)
    }
}

/// Takes literals and remembers the positions at which they stand.
pub open spec fn literal_step(
    literals: RolzLiteralsView,
    state: RolzState,
    len: nat,
    decoded_size: nat,
) -> Result<RolzState, ErrorView> {
    match fit_literals(
        literals,
        state.consumed,
        state.positions,
        state.output,
        len,
        decoded_size,
    ) {
        Err(error) => Err(error),
        Ok((positions, output)) => Ok(
            RolzState {
                consumed: state.consumed + len,
                positions,
                history: literals_remembered(
                    state.history,
                    output,
                    state.output.len(),
                    output.len(),
                ),
                output,
                ..state
            },
        ),
    }
}

/// What is seen after literals at the positions from `start` up to `end`.
pub open spec fn literals_remembered(
    history: RolzHistory,
    output: Seq<u8>,
    start: nat,
    end: nat,
) -> RolzHistory
    decreases end,
{
    if end <= start || end <= 2 {
        history
    } else {
        let position = (end - 1) as nat;
        remembered(
            literals_remembered(history, output, start, position),
            context_hash(output, position),
            position,
            0,
        )
    }
}

/// The offset that a repeat code stands for: one of the last three, or near it.
pub open spec fn rep_offset(code: nat, reps: (nat, nat, nat)) -> Result<nat, ErrorView> {
    let last = if code % 4 == 0 {
        reps.0
    } else if code % 4 == 1 {
        reps.1
    } else {
        reps.2
    };
    if code == 0 {
        Ok(last)
    } else if code / 4 >= ROLZ_REP_BIAS {
        if last + code / 4 - ROLZ_REP_BIAS > usize::MAX {
            Err(plain(ErrorKind::IntegerOverflow))
        } else {
            Ok((last + code / 4 - ROLZ_REP_BIAS) as nat)
        }
    } else if last < ROLZ_REP_BIAS - code / 4 {
        Err(detailed(ErrorKind::Malformed, "rolz_deprecated rep offset is invalid"@))
    } else {
        Ok((last + code / 4 - ROLZ_REP_BIAS) as nat)
    }
}

/// The offset and the length of a match.
pub open spec fn resolved_match(
    match_type: u8,
    code: nat,
    encoded: nat,
    state: RolzState,
) -> Result<(nat, nat), ErrorView> {
    let start = state.output.len();
    if match_type == 1 {
        match context_of(state.output, start) {
            Err(error) => Err(error),
            Ok(context) => match recalled(state.history, context, code, encoded) {
                Err(error) => Err(error),
                Ok((position, length)) => if position >= start {
                    Err(detailed(ErrorKind::Malformed, "rolz_deprecated match index is invalid"@))
                } else {
                    Ok(((start - position) as nat, length))
                },
            },
        }
    } else if match_type == 0 {
        if code == 0 {
            Err(detailed(ErrorKind::Malformed, "rolz_deprecated lz offset is zero"@))
        } else if encoded + ROLZ_LZ_MIN_LENGTH > usize::MAX {
            Err(plain(ErrorKind::IntegerOverflow))
        } else {
            Ok((code, encoded + ROLZ_LZ_MIN_LENGTH as nat))
        }
    } else if code % 4 == 3 {
        Err(detailed(ErrorKind::Malformed, "rolz_deprecated rep code is invalid"@))
    } else if encoded + ROLZ_REP_MIN_LENGTH > usize::MAX {
        Err(plain(ErrorKind::IntegerOverflow))
    } else {
        match rep_offset(code, state.reps) {
            Err(error) => Err(error),
            Ok(offset) => Ok((offset, encoded + ROLZ_REP_MIN_LENGTH as nat)),
        }
    }
}

/// The last three offsets behind a match.
pub open spec fn next_reps(reps: (nat, nat, nat), match_type: u8, code: nat, offset: nat) -> (
    nat,
    nat,
    nat,
) {
    if match_type >= 2 && code % 4 == 0 {
        reps
    } else if match_type >= 2 && code % 4 == 1 {
        (offset, reps.0, reps.2)
    } else {
        (offset, reps.0, reps.1)
    }
}

/// What is seen behind a match.
pub open spec fn match_remembered(
    history: RolzHistory,
    output: Seq<u8>,
    match_type: u8,
    start: nat,
    length: nat,
) -> RolzHistory {
    if start < 2 {
        history
    } else {
        let once = remembered(history, context_hash(output, start), start, length);
        if match_type == 1 {
            once
        } else {
            remembered(
                once,
                context_hash(output, start + 1),
                start + 1,
                (length - 1) as nat,
            )
        }
    }
}

/// What a match makes of the state.
pub open spec fn match_step(
    match_type: u8,
    code: nat,
    encoded: nat,
    state: RolzState,
    decoded_size: nat,
) -> Result<RolzState, ErrorView> {
    let start = state.output.len();
    match resolved_match(match_type, code, encoded, state) {
        Err(error) => Err(error),
        Ok((offset, length)) => if offset == 0 {
            Err(detailed(ErrorKind::Malformed, "rolz_deprecated offset is zero"@))
        } else if offset > start {
            Err(detailed(ErrorKind::Malformed, "rolz_deprecated offset exceeds decoded prefix"@))
        } else if start + length > usize::MAX {
            Err(plain(ErrorKind::IntegerOverflow))
        } else if start + length > decoded_size {
            Err(
                detailed(
                    ErrorKind::Malformed,
                    "rolz_deprecated match length exceeds output size"@,
                ),
            )
        } else {
            let output = lz_extend(state.output, offset, length);
            Ok(
                RolzState {
                    reps: next_reps(state.reps, match_type, code, offset),
                    history: match_remembered(state.history, output, match_type, start, length),
                    output,
                    ..state
                },
            )
        },
    }
}

/// Decodes the sequences from `index` on.
pub open spec fn rolz_from(payload: RolzView, decoded_size: nat, index: nat, state: RolzState) -> Result<
    RolzState,
    ErrorView,
>
    decreases payload.match_types.len() - index,
{
    if index >= payload.match_types.len() {
        Ok(state)
    } else {
        let at = index as int;
        match literal_step(
            payload.literals,
            state,
            payload.literal_lengths[at] as nat,
            decoded_size,
        ) {
            Err(error) => Err(error),
            Ok(state) => match match_step(
                payload.match_types[at],
                payload.match_codes[at] as nat,
                payload.match_lengths[at] as nat,
                state,
                decoded_size,
            ) {
                Err(error) => Err(error),
                Ok(state) => rolz_from(payload, decoded_size, index + 1, state),
            },
        }
    }
}

/// The state in front of the first sequence.
pub open spec fn rolz_start() -> RolzState {
    RolzState {
        consumed: 0,
        positions: Seq::new(256, |i: int| 0usize),
        reps: (1, 4, 8),
        history: no_history(),
        output: Seq::empty(),
    }
}

/// The bytes that the lists of a payload stand for.
pub open spec fn rolz_decode(payload: RolzView, decoded_size: nat, limits: Limits) -> Result<
    Seq<u8>,
    ErrorView,
> {
    if payload.match_types.contains(1u8) && table_error(limits) is Some {
        Err(table_error(limits)->Some_0)
    } else {
        match rolz_from(payload, decoded_size, 0, rolz_start()) {
            Err(error) => Err(error),
            Ok(state) => {
                let rest = payload.literals.count() - state.consumed;
                if state.output.len() + rest > usize::MAX {
                    Err(plain(ErrorKind::IntegerOverflow))
                } else if state.output.len() + rest != decoded_size {
                    Err(
                        detailed(
                            ErrorKind::Malformed,
                            "rolz_deprecated output size does not match prefix"@,
                        ),
                    )
                } else {
                    match take_literals(
                        payload.literals,
                        state.consumed,
                        state.positions,
                        state.output,
                        rest as nat,
                    ) {
                        Err(error) => Err(error),
                        Ok((positions, output)) => Ok(output),
                    }
                }
            },
        }
    }
}

/// What a rolz_deprecated node produces.
pub open spec fn rolz_deprecated_node(source: StreamView, header: Seq<u8>, limits: Limits) -> Result<
    Seq<u8>,
    ErrorView,
> {
    if header.len() != 0 {
        Err(detailed(ErrorKind::Unsupported, "rolz_deprecated headers are unsupported"@))
    } else {
        match size_prefix(source, limits, "rolz_deprecated"@) {
            Err(error) => Err(error),
            Ok(size) => match rolz_payload(
                source.bytes.subrange(4, source.bytes.len() as int),
                limits,
            ) {
                Err(error) => Err(error),
                Ok(payload) => rolz_decode(payload, size, limits),
            },
        }
    }
}

proof fn lemma_clustered_len(
    contexts: Seq<u8>,
    clusters: Seq<Seq<u8>>,
    positions: Seq<usize>,
    output: Seq<u8>,
    left: nat,
)
    requires
        clustered_from(contexts, clusters, positions, output, left) is Ok,
    ensures
        clustered_from(contexts, clusters, positions, output, left)->Ok_0.1.len() == output.len()
            + left,
    decreases left,
{
    if left > 0 {
        let context = if output.len() == 0 {
            0u8
        } else {
            output.last()
        };
        let cluster = contexts[context as int] as int;
        let position = positions[cluster];
        lemma_clustered_len(
            contexts,
            clusters,
            positions.update(cluster, (position + 1) as usize),
            output.push(clusters[cluster][position as int]),
            (left - 1) as nat,
        );
    }
}

proof fn lemma_take_literals_len(
    literals: RolzLiteralsView,
    consumed: nat,
    positions: Seq<usize>,
    output: Seq<u8>,
    len: nat,
)
    requires
        take_literals(literals, consumed, positions, output, len) is Ok,
    ensures
        take_literals(literals, consumed, positions, output, len)->Ok_0.1.len() == output.len()
            + len,
        consumed + len <= literals.count(),
{
    match literals {
        RolzLiteralsView::Linear(bytes) => {},
        RolzLiteralsView::Clustered { contexts, clusters, total } => {
            lemma_clustered_len(contexts, clusters, positions, output, len);
        },
    }
}

proof fn lemma_rolz_consumed(payload: RolzView, decoded_size: nat, index: nat, state: RolzState)
    requires
        rolz_from(payload, decoded_size, index, state) is Ok,
        state.consumed <= payload.literals.count(),
    ensures
        rolz_from(payload, decoded_size, index, state)->Ok_0.consumed <= payload.literals.count(),
    decreases payload.match_types.len() - index,
{
    if index < payload.match_types.len() {
        let at = index as int;
        let len = payload.literal_lengths[at] as nat;
        let middle = literal_step(payload.literals, state, len, decoded_size)->Ok_0;
        lemma_take_literals_len(
            payload.literals,
            state.consumed,
            state.positions,
            state.output,
            len,
        );
        let next = match_step(
            payload.match_types[at],
            payload.match_codes[at] as nat,
            payload.match_lengths[at] as nat,
            middle,
            decoded_size,
        )->Ok_0;
        lemma_rolz_consumed(payload, decoded_size, index + 1, next);
    }
}

/// What is decoded has the size that was announced.
pub proof fn law_rolz_length_is_declared(source: StreamView, header: Seq<u8>, limits: Limits)
    requires
        rolz_deprecated_node(source, header, limits) is Ok,
    ensures
        rolz_deprecated_node(source, header, limits)->Ok_0.len() == le_value(
            source.bytes.subrange(0, 4),
        ),
{
    let size = size_prefix(source, limits, "rolz_deprecated"@)->Ok_0;
    let payload = rolz_payload(source.bytes.subrange(4, source.bytes.len() as int), limits)->Ok_0;
    lemma_rolz_consumed(payload, size, 0, rolz_start());
    let state = rolz_from(payload, size, 0, rolz_start())->Ok_0;
    let rest = (payload.literals.count() - state.consumed) as nat;
    lemma_take_literals_len(
        payload.literals,
        state.consumed,
        state.positions,
        state.output,
        rest,
    );
}

/// The lists of bytes that payloads stand for.
pub open spec fn contents(payloads: Seq<LiteralPayload<'_>>) -> Seq<Seq<u8>> {
    Seq::new(payloads.len(), |i: int| payloads[i].content())
}

/// The literals of a payload.
pub enum RolzDeprecatedLiterals<'a> {
    Linear(LiteralPayload<'a>),
    Clustered { contexts: &'a [u8], clusters: Vec<LiteralPayload<'a>>, total: usize },
}

impl<'a> View for RolzDeprecatedLiterals<'a> {
    type V = RolzLiteralsView;

    open spec fn view(&self) -> RolzLiteralsView {
        match self {
            RolzDeprecatedLiterals::Linear(payload) => RolzLiteralsView::Linear(payload.content()),
            RolzDeprecatedLiterals::Clustered { contexts, clusters, total } => {
                RolzLiteralsView::Clustered {
                    contexts: contexts@,
                    clusters: contents(clusters@),
                    total: *total as nat,
                }
            },
        }
    }
}

impl<'a> RolzDeprecatedLiterals<'a> {
    /// Every context has a cluster.
    pub open spec fn well_formed(self) -> bool {
        match self {
            RolzDeprecatedLiterals::Linear(payload) => true,
            RolzDeprecatedLiterals::Clustered { contexts, clusters, total } => {
                forall|i: int| 0 <= i < contexts@.len() ==> #[trigger] contexts@[i] < clusters@.len()
            },
        }
    }

    /// Counts the literals.
    pub fn byte_len(&self) -> (len: usize)
        ensures
            len == self@.count(),
    {
        match self {
            RolzDeprecatedLiterals::Linear(payload) => payload.byte_len(),
            RolzDeprecatedLiterals::Clustered { contexts: _, clusters: _, total } => *total,
        }
    }
}

/// Takes literals off the front of their lists.
pub struct RolzDeprecatedLiteralCursor<'a> {
    literals: RolzDeprecatedLiterals<'a>,
    consumed: usize,
    offsets: Vec<usize>,
}

impl<'a> RolzDeprecatedLiteralCursor<'a> {
    /// All literals.
    pub closed spec fn literals(self) -> RolzLiteralsView {
        self.literals@
    }

    /// How many literals were taken.
    pub closed spec fn consumed(self) -> nat {
        self.consumed as nat
    }

    /// How far each cluster is used up.
    pub closed spec fn positions(self) -> Seq<usize> {
        self.offsets@
    }

    /// No more was taken than there is.
    pub closed spec fn well_formed(self) -> bool {
        &&& self.literals.well_formed()
        &&& self.consumed <= self.literals@.count()
        &&& self.offsets@.len() == 256
    }

    pub fn new(literals: RolzDeprecatedLiterals<'a>) -> (cursor: Self)
        requires
            literals.well_formed(),
        ensures
            cursor.well_formed(),
            cursor.literals() == literals@,
            cursor.consumed() == 0,
            cursor.positions() == rolz_start().positions,
    {
        let offsets: Vec<usize> = vec![0; 256];
        proof {
            assert(offsets@ =~= rolz_start().positions);
        }
        RolzDeprecatedLiteralCursor { literals, consumed: 0, offsets }
    }

    /// Counts the literals that are left.
    pub fn remaining_len(&self) -> (len: usize)
        requires
            self.well_formed(),
        ensures
            len == self.literals().count() - self.consumed(),
    {
        self.literals.byte_len() - self.consumed
    }

    /// Appends the next `len` literals.
    pub fn extend_next(&mut self, len: usize, output: &mut Vec<u8>) -> (result: Result<(), Error>)
        requires
            old(self).well_formed(),
        ensures
            final(self).literals() == old(self).literals(),
            match take_literals(
                old(self).literals(),
                old(self).consumed(),
                old(self).positions(),
                old(output)@,
                len as nat,
            ) {
                Ok((positions, longer)) => result is Ok && final(self).well_formed()
                    && final(self).consumed() == old(self).consumed() + len
                    && final(self).positions() == positions && final(output)@ == longer,
                Err(error) => result is Err && result->Err_0@ == error,
            },
    {
        let end: usize = match self.consumed.checked_add(len) {
            Some(end) => end,
            None => {
                return Err(Error::new(ErrorKind::IntegerOverflow));
            },
        };
        let total: usize = self.literals.byte_len();
        match &self.literals {
            RolzDeprecatedLiterals::Linear(payload) => {
                if end > total {
                    return Err(
                        fail(ErrorKind::Malformed, "fastlz_deprecated literal stream is too short"),
                    );
                }
                payload.append_range(self.consumed, end, output);
            },
            RolzDeprecatedLiterals::Clustered { contexts, clusters, total: _ } => {
                if end > total {
                    return Err(
                        fail(ErrorKind::Malformed, "rolz_deprecated literal stream is too short"),
                    );
                }
                extend_clustered(contexts, clusters, &mut self.offsets, output, len)?;
            },
        }
        self.consumed = end;
        Ok(())
    }
}

/// Appends `len` literals, each off the cluster of the byte in front of it.
fn extend_clustered(
    contexts: &[u8],
    clusters: &Vec<LiteralPayload<'_>>,
    offsets: &mut Vec<usize>,
    output: &mut Vec<u8>,
    len: usize,
) -> (result: Result<(), Error>)
    requires
        old(offsets)@.len() == 256,
        forall|i: int| 0 <= i < contexts@.len() ==> #[trigger] contexts@[i] < clusters@.len(),
    ensures
        final(offsets)@.len() == 256,
        match clustered_from(
            contexts@,
            contents(clusters@),
            old(offsets)@,
            old(output)@,
            len as nat,
        ) {
            Ok((positions, longer)) => result is Ok && final(offsets)@ == positions
                && final(output)@ == longer,
            Err(error) => result is Err && result->Err_0@ == error,
        },
{
    let ghost total = clustered_from(
        contexts@,
        contents(clusters@),
        offsets@,
        output@,
        len as nat,
    );
    let mut left: usize = len;
    while left > 0
        invariant
            offsets@.len() == 256,
            forall|i: int| 0 <= i < contexts@.len() ==> #[trigger] contexts@[i] < clusters@.len(),
            total == clustered_from(
                contexts@,
                contents(clusters@),
                old(offsets)@,
                old(output)@,
                len as nat,
            ),
            total == clustered_from(
                contexts@,
                contents(clusters@),
                offsets@,
                output@,
                left as nat,
            ),
        decreases left,
    {
        let context: u8 = if output.len() == 0 {
            0
        } else {
            output[output.len() - 1]
        };
        if context as usize >= contexts.len() {
            return Err(fail(ErrorKind::Malformed, "rolz_deprecated literal context is invalid"));
        }
        let cluster: usize = contexts[context as usize] as usize;
        let payload: &LiteralPayload<'_> = &clusters[cluster];
        let offset: usize = offsets[cluster];
        proof {
            assert(contents(clusters@)[cluster as int] == payload.content());
        }
        if offset >= payload.byte_len() {
            return Err(fail(ErrorKind::Malformed, "rolz_deprecated literals stream is too short"));
        }
        let byte: u8 = payload.byte_at(offset);
        offsets.set(cluster, offset + 1);
        output.push(byte);
        left = left - 1;
    }
    Ok(())
}

/// The lists of a payload.
pub struct RolzDeprecatedPayload<'a> {
    literals: RolzDeprecatedLiterals<'a>,
    match_types: Vec<u8>,
    literal_lengths: Vec<usize>,
    match_lengths: Vec<usize>,
    match_codes: Vec<usize>,
}

impl<'a> View for RolzDeprecatedPayload<'a> {
    type V = RolzView;

    closed spec fn view(&self) -> RolzView {
        RolzView {
            literals: self.literals@,
            match_types: self.match_types@,
            literal_lengths: self.literal_lengths@,
            match_lengths: self.match_lengths@,
            match_codes: self.match_codes@,
        }
    }
}

impl<'a> RolzDeprecatedPayload<'a> {
    /// The lists go together.
    pub closed spec fn well_formed(self) -> bool {
        &&& self.literals.well_formed()
        &&& types_known(self.match_types@)
        &&& self.literal_lengths@.len() == self.match_types@.len()
        &&& self.match_lengths@.len() == self.match_types@.len()
        &&& self.match_codes@.len() == self.match_types@.len()
    }
}

/// Finds the largest of some bytes.
fn largest(bytes: &[u8]) -> (max: u8)
    ensures
        max as nat == max_byte(bytes@),
{
    let mut max: u8 = 0;
    let mut index: usize = 0;
    while index < bytes.len()
        invariant
            index <= bytes@.len(),
            max as nat == max_byte(bytes@.take(index as int)),
        decreases bytes@.len() - index,
    {
        proof {
            assert(bytes@.take(index + 1).drop_last() =~= bytes@.take(index as int));
        }
        if bytes[index] > max {
            max = bytes[index];
        }
        index = index + 1;
    }
    proof {
        assert(bytes@.take(index as int) =~= bytes@);
    }
    max
}

/// Reads the clustered literals at `*offset`.
fn parse_rolz_deprecated_o1_literals<'a>(
    payload: &'a [u8],
    offset: &mut usize,
    num_literals: usize,
    limits: Limits,
) -> (result: Result<RolzDeprecatedLiterals<'a>, Error>)
    requires
        *old(offset) <= payload@.len(),
    ensures
        *final(offset) <= payload@.len(),
        match result {
            Ok(literals) => clustered_literals(
                payload@,
                *old(offset) as nat,
                num_literals as nat,
                limits,
            ) == Ok::<(RolzLiteralsView, nat), ErrorView>((literals@, *final(offset) as nat))
                && literals.well_formed(),
            Err(error) => clustered_literals(
                payload@,
                *old(offset) as nat,
                num_literals as nat,
                limits,
            ) == Err::<(RolzLiteralsView, nat), ErrorView>(error@),
        },
{
    if *offset >= payload.len() {
        return Err(
            fail(ErrorKind::Truncated, "rolz_deprecated literal clustering is truncated"),
        );
    }
    let map_len: usize = payload[*offset] as usize + 1;
    let start: usize = *offset + 1;
    if payload.len() - start < map_len {
        return Err(
            fail(ErrorKind::Truncated, "rolz_deprecated literal clustering is truncated"),
        );
    }
    let contexts = slice_subrange(payload, start, start + map_len);
    *offset = start + map_len;
    let count: usize = largest(contexts) as usize + 1;
    if count > limits.max_buffer_bytes / ROLZ_CLUSTER_BYTES {
        return Err(
            fail(ErrorKind::LimitExceeded, "rolz_deprecated literal clusters exceed buffer limit"),
        );
    }
    let mut clusters: Vec<LiteralPayload<'a>> = Vec::new();
    let mut total: usize = 0;
    let ghost first = *offset as nat;
    let ghost all = clusters_from(
        payload@,
        first,
        count as nat,
        0,
        num_literals as nat,
        Seq::empty(),
    );
    proof {
        assert(contents(clusters@) =~= Seq::empty());
    }
    proof {
        assert(payload@.len() == payload.len());
    }
    while clusters.len() < count
        invariant
            *offset <= payload@.len() <= usize::MAX,
            clusters@.len() <= count,
            all == clusters_from(
                payload@,
                first,
                count as nat,
                0,
                num_literals as nat,
                Seq::empty(),
            ),
            all == clusters_from(
                payload@,
                *offset as nat,
                (count - clusters@.len()) as nat,
                total as nat,
                num_literals as nat,
                contents(clusters@),
            ),
            match clustered_literals(
                payload@,
                *old(offset) as nat,
                num_literals as nat,
                limits,
            ) {
                Ok((view, end)) => all is Ok && view == (RolzLiteralsView::Clustered {
                    contexts: contexts@,
                    clusters: all->Ok_0.0,
                    total: num_literals as nat,
                }) && end == all->Ok_0.1,
                Err(error) => all is Err && all->Err_0 == error,
            },
        decreases count - clusters@.len(),
    {
        let size: usize = read_deprecated_lz_le_u32(
            payload,
            *offset,
            "rolz_deprecated literal cluster",
        )?;
        *offset = *offset + 4;
        total = match total.checked_add(size) {
            Some(total) => total,
            None => {
                return Err(Error::new(ErrorKind::IntegerOverflow));
            },
        };
        if total > num_literals {
            return Err(
                fail(ErrorKind::Malformed, "rolz_deprecated literal cluster count is invalid"),
            );
        }
        let cluster = parse_legacy_literal_entropy_payload(
            payload,
            offset,
            "rolz_deprecated literals",
        )?;
        if cluster.byte_len() != size {
            return Err(
                fail(ErrorKind::Malformed, "rolz_deprecated literal cluster count is invalid"),
            );
        }
        proof {
            assert(contents(clusters@.push(cluster)) =~= contents(clusters@).push(
                cluster.content(),
            ));
        }
        clusters.push(cluster);
    }
    if total != num_literals {
        return Err(fail(ErrorKind::Malformed, "rolz_deprecated literal cluster count is invalid"));
    }
    proof {
        assert forall|i: int| 0 <= i < contexts@.len() implies #[trigger] contexts@[i]
            < clusters@.len() by {
            lemma_max_byte(contexts@, i);
        }
    }
    Ok(RolzDeprecatedLiterals::Clustered { contexts, clusters, total })
}

/// Reads the literals at `*offset`.
fn parse_rolz_deprecated_literals<'a>(
    payload: &'a [u8],
    offset: &mut usize,
    num_literals: usize,
    limits: Limits,
) -> (result: Result<RolzDeprecatedLiterals<'a>, Error>)
    requires
        *old(offset) <= payload@.len(),
    ensures
        *final(offset) <= payload@.len(),
        match result {
            Ok(literals) => rolz_literals(
                payload@,
                *old(offset) as nat,
                num_literals as nat,
                limits,
            ) == Ok::<(RolzLiteralsView, nat), ErrorView>((literals@, *final(offset) as nat))
                && literals.well_formed(),
            Err(error) => rolz_literals(
                payload@,
                *old(offset) as nat,
                num_literals as nat,
                limits,
            ) == Err::<(RolzLiteralsView, nat), ErrorView>(error@),
        },
{
    if num_literals == 0 {
        let none = slice_subrange(payload, 0, 0);
        proof {
            assert(none@ =~= Seq::empty());
        }
        return Ok(RolzDeprecatedLiterals::Linear(LiteralPayload::Raw(none)));
    }
    if *offset >= payload.len() {
        return Err(
            fail(ErrorKind::Truncated, "rolz_deprecated literal order flag is truncated"),
        );
    }
    let order: u8 = payload[*offset];
    *offset = *offset + 1;
    if order == 0 {
        let literals = parse_legacy_literal_entropy_payload(
            payload,
            offset,
            "rolz_deprecated literals",
        )?;
        return Ok(RolzDeprecatedLiterals::Linear(literals));
    }
    if order == 1 {
        return parse_rolz_deprecated_o1_literals(payload, offset, num_literals, limits);
    }
    Err(fail(ErrorKind::Malformed, "rolz_deprecated literal order flag is invalid"))
}

/// Checks that a payload starts with the one supported set of parameters.
fn parse_rolz_deprecated_params(payload: &[u8]) -> (result: Result<(), Error>)
    requires
        payload@.len() >= ROLZ_HEADER_LEN,
    ensures
        match result {
            Ok(_) => params_supported(payload@),
            Err(error) => !params_supported(payload@) && error@ == detailed(
                ErrorKind::Unsupported,
                "rolz_deprecated parameters are unsupported"@,
            ),
        },
{
    if payload[0] != 2 || payload[1] != 12 || payload[2] != 4 || payload[3] != 3 || payload[4] == 0
        || payload[5] != 7 || payload[6] != 3 {
        return Err(fail(ErrorKind::Unsupported, "rolz_deprecated parameters are unsupported"));
    }
    Ok(())
}

/// Splits a payload into its lists.
pub fn parse_rolz_deprecated_payload<'a>(payload: &'a [u8], limits: Limits) -> (result: Result<
    RolzDeprecatedPayload<'a>,
    Error,
>)
    ensures
        outcome(result) == rolz_payload(payload@, limits),
        result is Ok ==> result->Ok_0.well_formed(),
{
    if payload.len() < ROLZ_HEADER_LEN {
        return Err(fail(ErrorKind::Truncated, "rolz_deprecated header is truncated"));
    }
    parse_rolz_deprecated_params(payload)?;
    let num_literals: usize = read_deprecated_lz_le_u32(payload, 7, "rolz_deprecated literals")?;
    let num_sequences: usize = read_deprecated_lz_le_u32(payload, 11, "rolz_deprecated sequences")?;
    if num_sequences > limits.max_buffer_bytes / 16 {
        return Err(
            fail(ErrorKind::LimitExceeded, "rolz_deprecated sequence count exceeds buffer limit"),
        );
    }
    let mut offset: usize = ROLZ_HEADER_LEN;
    let literals = parse_rolz_deprecated_literals(payload, &mut offset, num_literals, limits)?;
    if literals.byte_len() != num_literals {
        return Err(fail(ErrorKind::Malformed, "rolz_deprecated literal count is invalid"));
    }
    let match_types = decode_deprecated_lz_entropy_payload_to_vec(
        payload,
        &mut offset,
        num_sequences,
        limits,
        "rolz_deprecated match types",
    )?;
    let ghost total = rolz_payload(payload@, limits);
    let mut index: usize = 0;
    while index < match_types.len()
        invariant
            index <= match_types@.len(),
            total == rolz_payload(payload@, limits),
            !types_known(match_types@) ==> total == Err::<RolzView, ErrorView>(
                detailed(ErrorKind::Malformed, "rolz_deprecated match type is invalid"@),
            ),
            forall|i: int| 0 <= i < index ==> #[trigger] match_types@[i] <= 3,
        decreases match_types@.len() - index,
    {
        if match_types[index] > 3 {
            return Err(fail(ErrorKind::Malformed, "rolz_deprecated match type is invalid"));
        }
        index = index + 1;
    }
    let literal_lengths = decode_rolz_deprecated_seq_values(
        payload,
        &mut offset,
        match_types.as_slice(),
        limits,
        "rolz_deprecated literal lengths",
    )?;
    let match_lengths = decode_rolz_deprecated_seq_values(
        payload,
        &mut offset,
        match_types.as_slice(),
        limits,
        "rolz_deprecated match lengths",
    )?;
    let match_codes = decode_rolz_deprecated_seq_values(
        payload,
        &mut offset,
        match_types.as_slice(),
        limits,
        "rolz_deprecated match codes",
    )?;
    if offset != payload.len() {
        return Err(fail(ErrorKind::Malformed, "rolz_deprecated payload has trailing bytes"));
    }
    Ok(
        RolzDeprecatedPayload {
            literals,
            match_types,
            literal_lengths,
            match_lengths,
            match_codes,
        },
    )
}

/// Appends literals where the output still has room for them.
fn append_rolz_deprecated_literals(
    literals: &mut RolzDeprecatedLiteralCursor<'_>,
    output: &mut Vec<u8>,
    len: usize,
    decoded_size: usize,
) -> (result: Result<(), Error>)
    requires
        old(literals).well_formed(),
    ensures
        final(literals).literals() == old(literals).literals(),
        match fit_literals(
            old(literals).literals(),
            old(literals).consumed(),
            old(literals).positions(),
            old(output)@,
            len as nat,
            decoded_size as nat,
        ) {
            Ok((positions, longer)) => result is Ok && final(literals).well_formed()
                && final(literals).consumed() == old(literals).consumed() + len
                && final(literals).positions() == positions && final(output)@ == longer,
            Err(error) => result is Err && result->Err_0@ == error,
        },
{
    let output_end: usize = match output.len().checked_add(len) {
        Some(output_end) => output_end,
        None => {
            return Err(Error::new(ErrorKind::IntegerOverflow));
        },
    };
    if output_end > decoded_size {
        return Err(
            fail(ErrorKind::Malformed, "rolz_deprecated literal length exceeds output size"),
        );
    }
    literals.extend_next(len, output)
}

/// Remembers the positions of literals from `start` on.
fn insert_rolz_deprecated_literals(
    table: &mut RolzDeprecatedTable,
    output: &[u8],
    start: usize,
    Ghost(history): Ghost<RolzHistory>,
)
    requires
        start <= output@.len(),
        old(table).holds(history),
    ensures
        final(table).holds(
            literals_remembered(history, output@, start as nat, output@.len()),
        ),
{
    let mut position: usize = if start < 2 {
        2
    } else {
        start
    };
    proof {
        assert(literals_remembered(history, output@, start as nat, position as nat) == history) by {
            if position != start {
                assert(literals_remembered(history, output@, start as nat, 2) == history);
            }
        }
        if output@.len() < 2 {
            assert(literals_remembered(history, output@, start as nat, output@.len()) == history);
        }
    }
    while position < output.len()
        invariant
            2 <= position,
            start <= position,
            position <= output@.len() || output@.len() < 2,
            output@.len() < 2 ==> literals_remembered(
                history,
                output@,
                start as nat,
                output@.len(),
            ) == history && literals_remembered(history, output@, start as nat, position as nat)
                == history,
            table.holds(literals_remembered(history, output@, start as nat, position as nat)),
        decreases output@.len() - position,
    {
        let context: usize = match rolz_deprecated_context(output, position) {
            Ok(context) => context,
            Err(_) => 0,
        };
        table.put(
            context,
            position,
            0,
            Ghost(literals_remembered(history, output@, start as nat, position as nat)),
        );
        position = position + 1;
    }
}

/// Remembers the positions at which a match stands.
fn insert_rolz_deprecated_match(
    table: &mut RolzDeprecatedTable,
    output: &[u8],
    match_type: u8,
    start: usize,
    length: usize,
    Ghost(history): Ghost<RolzHistory>,
)
    requires
        start + length == output@.len(),
        length >= 2,
        old(table).holds(history),
    ensures
        final(table).holds(
            match_remembered(history, output@, match_type, start as nat, length as nat),
        ),
{
    if start < 2 {
        return ;
    }
    proof {
        assert(output@.len() == output.len());
    }
    let context: usize = match rolz_deprecated_context(output, start) {
        Ok(context) => context,
        Err(_) => 0,
    };
    table.put(context, start, length, Ghost(history));
    if match_type != 1 {
        let next: usize = match rolz_deprecated_context(output, start + 1) {
            Ok(next) => next,
            Err(_) => 0,
        };
        table.put(
            next,
            start + 1,
            length - 1,
            Ghost(remembered(history, context as nat, start as nat, length as nat)),
        );
    }
}

/// Finds the offset that a repeat code stands for.
fn rolz_deprecated_rep_offset(code: usize, reps: (usize, usize, usize)) -> (result: Result<
    usize,
    Error,
>)
    requires
        code % 4 != 3,
    ensures
        match result {
            Ok(offset) => rep_offset(code as nat, (reps.0 as nat, reps.1 as nat, reps.2 as nat))
                == Ok::<nat, ErrorView>(offset as nat),
            Err(error) => rep_offset(code as nat, (reps.0 as nat, reps.1 as nat, reps.2 as nat))
                == Err::<nat, ErrorView>(error@),
        },
{
    let last: usize = if code % 4 == 0 {
        reps.0
    } else if code % 4 == 1 {
        reps.1
    } else {
        reps.2
    };
    if code == 0 {
        return Ok(last);
    }
    let delta: usize = code / 4;
    if delta >= ROLZ_REP_BIAS {
        return match last.checked_add(delta - ROLZ_REP_BIAS) {
            Some(offset) => Ok(offset),
            None => Err(Error::new(ErrorKind::IntegerOverflow)),
        };
    }
    if last < ROLZ_REP_BIAS - delta {
        return Err(fail(ErrorKind::Malformed, "rolz_deprecated rep offset is invalid"));
    }
    Ok(last - (ROLZ_REP_BIAS - delta))
}

/// The state that a match is resolved in.
spec fn match_state(reps: (usize, usize, usize), history: RolzHistory, output: Seq<u8>) -> RolzState {
    RolzState {
        consumed: 0,
        positions: Seq::empty(),
        reps: (reps.0 as nat, reps.1 as nat, reps.2 as nat),
        history,
        output,
    }
}

/// Finds the position of a match among those seen in its context.
fn resolve_rolz_deprecated_rolz_match(
    table: &RolzDeprecatedTable,
    output: &[u8],
    code: usize,
    encoded: usize,
    reps: (usize, usize, usize),
    Ghost(history): Ghost<RolzHistory>,
) -> (result: Result<(usize, usize), Error>)
    requires
        table.holds(history),
    ensures
        match result {
            Ok((offset, length)) => resolved_match(
                1,
                code as nat,
                encoded as nat,
                match_state(reps, history, output@),
            ) == Ok::<(nat, nat), ErrorView>((offset as nat, length as nat)),
            Err(error) => resolved_match(
                1,
                code as nat,
                encoded as nat,
                match_state(reps, history, output@),
            ) == Err::<(nat, nat), ErrorView>(error@),
        },
{
    let start: usize = output.len();
    let context: usize = rolz_deprecated_context(output, start)?;
    let (position, length) = table.get(context, code, encoded, Ghost(history))?;
    if position >= start {
        return Err(fail(ErrorKind::Malformed, "rolz_deprecated match index is invalid"));
    }
    Ok((start - position, length))
}

/// Finds the offset and the length of a match that needs no context.
fn resolve_rolz_deprecated_match(
    match_type: u8,
    code: usize,
    encoded: usize,
    reps: (usize, usize, usize),
    Ghost(history): Ghost<RolzHistory>,
    Ghost(output): Ghost<Seq<u8>>,
) -> (result: Result<(usize, usize), Error>)
    requires
        match_type != 1,
    ensures
        match result {
            Ok((offset, length)) => resolved_match(
                match_type,
                code as nat,
                encoded as nat,
                match_state(reps, history, output),
            ) == Ok::<(nat, nat), ErrorView>((offset as nat, length as nat)),
            Err(error) => resolved_match(
                match_type,
                code as nat,
                encoded as nat,
                match_state(reps, history, output),
            ) == Err::<(nat, nat), ErrorView>(error@),
        },
{
    if match_type == 0 {
        if code == 0 {
            return Err(fail(ErrorKind::Malformed, "rolz_deprecated lz offset is zero"));
        }
        return match encoded.checked_add(ROLZ_LZ_MIN_LENGTH) {
            Some(length) => Ok((code, length)),
            None => Err(Error::new(ErrorKind::IntegerOverflow)),
        };
    }
    if code % 4 == 3 {
        return Err(fail(ErrorKind::Malformed, "rolz_deprecated rep code is invalid"));
    }
    let length: usize = match encoded.checked_add(ROLZ_REP_MIN_LENGTH) {
        Some(length) => length,
        None => {
            return Err(Error::new(ErrorKind::IntegerOverflow));
        },
    };
    let offset: usize = rolz_deprecated_rep_offset(code, reps)?;
    Ok((offset, length))
}

/// Moves an offset to the front of the last three.
fn update_rolz_deprecated_reps(
    reps: (usize, usize, usize),
    match_type: u8,
    code: usize,
    offset: usize,
) -> (next: (usize, usize, usize))
    ensures
        (next.0 as nat, next.1 as nat, next.2 as nat) == next_reps(
            (reps.0 as nat, reps.1 as nat, reps.2 as nat),
            match_type,
            code as nat,
            offset as nat,
        ),
{
    if match_type >= 2 && code % 4 == 0 {
        reps
    } else if match_type >= 2 && code % 4 == 1 {
        (offset, reps.0, reps.2)
    } else {
        (offset, reps.0, reps.1)
    }
}

/// Tells whether some match needs a context.
fn needs_table(match_types: &Vec<u8>) -> (needed: bool)
    ensures
        needed == match_types@.contains(1u8),
{
    let mut index: usize = 0;
    while index < match_types.len()
        invariant
            index <= match_types@.len(),
            forall|i: int| 0 <= i < index ==> #[trigger] match_types@[i] != 1,
        decreases match_types@.len() - index,
    {
        if match_types[index] == 1 {
            return true;
        }
        index = index + 1;
    }
    false
}

/// Decodes the lists of a payload.
pub fn decode_rolz_deprecated_payload(
    payload: RolzDeprecatedPayload<'_>,
    decoded_size: usize,
    limits: Limits,
) -> (result: Result<Vec<u8>, Error>)
    requires
        payload.well_formed(),
    ensures
        outcome(result) == rolz_decode(payload@, decoded_size as nat, limits),
{
    let ghost view = payload@;
    let ghost size = decoded_size as nat;
    let has_table: bool = needs_table(&payload.match_types);
    let mut table = if has_table {
        RolzDeprecatedTable::new(limits)?
    } else {
        RolzDeprecatedTable::absent()
    };
    let mut output: Vec<u8> = Vec::new();
    let mut literals = RolzDeprecatedLiteralCursor::new(payload.literals);
    let mut reps: (usize, usize, usize) = (1, 4, 8);
    let ghost mut history = no_history();
    let count: usize = payload.match_types.len();
    proof {
        assert(output@ =~= Seq::empty());
    }
    let mut index: usize = 0;
    while index < count
        invariant
            index <= count,
            view == payload@,
            size == decoded_size,
            count == payload.match_types@.len(),
            payload.literal_lengths@.len() == count,
            payload.match_lengths@.len() == count,
            payload.match_codes@.len() == count,
            types_known(payload.match_types@),
            has_table == payload.match_types@.contains(1u8),
            has_table ==> table_error(limits) is None,
            has_table ==> table.holds(history),
            literals.well_formed(),
            literals.literals() == view.literals,
            rolz_from(view, size, 0, rolz_start()) == rolz_from(
                view,
                size,
                index as nat,
                RolzState {
                    consumed: literals.consumed(),
                    positions: literals.positions(),
                    reps: (reps.0 as nat, reps.1 as nat, reps.2 as nat),
                    history,
                    output: output@,
                },
            ),
        decreases count - index,
    {
        let ghost before = RolzState {
            consumed: literals.consumed(),
            positions: literals.positions(),
            reps: (reps.0 as nat, reps.1 as nat, reps.2 as nat),
            history,
            output: output@,
        };
        let literal_start: usize = output.len();
        let literal_len: usize = payload.literal_lengths[index];
        append_rolz_deprecated_literals(&mut literals, &mut output, literal_len, decoded_size)?;
        proof {
            lemma_take_literals_len(
                view.literals,
                before.consumed,
                before.positions,
                before.output,
                literal_len as nat,
            );
        }
        if has_table {
            insert_rolz_deprecated_literals(
                &mut table,
                output.as_slice(),
                literal_start,
                Ghost(history),
            );
        }
        proof {
            history = literals_remembered(
                history,
                output@,
                literal_start as nat,
                output@.len(),
            );
        }
        let ghost middle = RolzState {
            consumed: literals.consumed(),
            positions: literals.positions(),
            reps: before.reps,
            history,
            output: output@,
        };
        proof {
            assert(literal_step(view.literals, before, literal_len as nat, size) == Ok::<
                RolzState,
                ErrorView,
            >(middle));
        }
        let match_type: u8 = payload.match_types[index];
        let code: usize = payload.match_codes[index];
        let encoded: usize = payload.match_lengths[index];
        let start: usize = output.len();
        proof {
            assert(match_type <= 3);
            assert(resolved_match(match_type, code as nat, encoded as nat, middle)
                == resolved_match(
                match_type,
                code as nat,
                encoded as nat,
                match_state(reps, history, output@),
            ));
        }
        let (offset, length) = if match_type == 1 {
            proof {
                assert(payload.match_types@[index as int] == 1u8);
            }
            resolve_rolz_deprecated_rolz_match(
                &table,
                output.as_slice(),
                code,
                encoded,
                reps,
                Ghost(history),
            )?
        } else {
            resolve_rolz_deprecated_match(
                match_type,
                code,
                encoded,
                reps,
                Ghost(history),
                Ghost(output@),
            )?
        };
        if offset == 0 {
            return Err(fail(ErrorKind::Malformed, "rolz_deprecated offset is zero"));
        }
        if offset > output.len() {
            return Err(
                fail(ErrorKind::Malformed, "rolz_deprecated offset exceeds decoded prefix"),
            );
        }
        let match_end: usize = match output.len().checked_add(length) {
            Some(match_end) => match_end,
            None => {
                return Err(Error::new(ErrorKind::IntegerOverflow));
            },
        };
        if match_end > decoded_size {
            return Err(
                fail(ErrorKind::Malformed, "rolz_deprecated match length exceeds output size"),
            );
        }
        reps = update_rolz_deprecated_reps(reps, match_type, code, offset);
        append_lz_match(&mut output, start, offset, length);
        proof {
            law_lz_match_is_periodic(middle.output, offset as nat, length as nat);
            assert(length >= 3);
        }
        if has_table {
            insert_rolz_deprecated_match(
                &mut table,
                output.as_slice(),
                match_type,
                start,
                length,
                Ghost(history),
            );
        }
        proof {
            history = match_remembered(
                history,
                output@,
                match_type,
                start as nat,
                length as nat,
            );
            assert(match_step(match_type, code as nat, encoded as nat, middle, size) == Ok::<
                RolzState,
                ErrorView,
            >(
                RolzState {
                    consumed: literals.consumed(),
                    positions: literals.positions(),
                    reps: (reps.0 as nat, reps.1 as nat, reps.2 as nat),
                    history,
                    output: output@,
                },
            ));
        }
        index = index + 1;
    }
    let remaining: usize = literals.remaining_len();
    let output_end: usize = match output.len().checked_add(remaining) {
        Some(output_end) => output_end,
        None => {
            return Err(Error::new(ErrorKind::IntegerOverflow));
        },
    };
    if output_end != decoded_size {
        return Err(
            fail(ErrorKind::Malformed, "rolz_deprecated output size does not match prefix"),
        );
    }
    literals.extend_next(remaining, &mut output)?;
    Ok(output)
}

/// Decodes a rolz_deprecated node.
pub fn decode_rolz_deprecated_node(source: StreamInput<'_>, header: &[u8], limits: Limits) -> (result:
    Result<Vec<u8>, Error>)
    ensures
        outcome(result) == rolz_deprecated_node(source@, header@, limits),
{
    if header.len() != 0 {
        return Err(fail(ErrorKind::Unsupported, "rolz_deprecated headers are unsupported"));
    }
    let (decoded_size, payload) = parse_deprecated_lz_stored_stream(
        source,
        limits,
        "rolz_deprecated",
    )?;
    let lists = parse_rolz_deprecated_payload(payload, limits)?;
    decode_rolz_deprecated_payload(lists, decoded_size, limits)
}

} // verus!
