//! What the lists of a rolz_deprecated node say of its output.

use vstd::prelude::*;

use crate::deprecated_lz::literal_range;
use crate::error::ErrorView;
use crate::limits::Limits;
use crate::lz_factors::{lemma_extended, lemma_repeated, repeats};
use crate::rolz::{
    clustered_from, literal_step, literals_remembered, match_remembered, match_step, next_reps,
    resolved_match, rolz_decode, rolz_from, rolz_start, take_literals, types_known,
    RolzLiteralsView, RolzState, RolzView,
};
use crate::rolz_table::{context_hash, remembered, table_error, RolzHistory};

verus! {

/// The context of a position: 12 bits of a product of the two bytes in front of it.
pub open spec fn two_byte_context(text: Seq<u8>, position: nat) -> nat {
    let pair = text[position - 2] as nat + 256 * text[position - 1] as nat;
    (pair * 65_536 * 506_832_829) % 0x1_0000_0000 / 0x10_0000
}

/// The places of some that stand in a context, the latest first.
pub open spec fn places_in(text: Seq<u8>, places: Seq<(nat, nat)>, context: nat) -> Seq<(nat, nat)>
    decreases places.len(),
{
    if places.len() == 0 {
        Seq::empty()
    } else {
        let rest = places_in(text, places.drop_last(), context);
        if two_byte_context(text, places.last().0) == context {
            seq![places.last()] + rest
        } else {
            rest
        }
    }
}

/// A place, and the match length that it predicts, up to 255.
pub open spec fn predicting(position: nat, length: nat) -> (nat, nat) {
    (
        position,
        if length > 255 {
            255
        } else {
            length
        },
    )
}

/// The places behind literals: each that has two bytes in front of it, predicting nothing.
pub open spec fn literal_places(places: Seq<(nat, nat)>, start: nat, end: nat) -> Seq<(nat, nat)>
    decreases end,
{
    if end <= start || end <= 2 {
        places
    } else {
        literal_places(places, start, (end - 1) as nat).push(((end - 1) as nat, 0))
    }
}

/// The places behind a match: where it starts, and the place behind that unless the match was
/// one of the context's.
pub open spec fn match_places(
    places: Seq<(nat, nat)>,
    match_type: u8,
    start: nat,
    length: nat,
) -> Seq<(nat, nat)> {
    if start < 2 {
        places
    } else if match_type == 1 {
        places.push(predicting(start, length))
    } else {
        places.push(predicting(start, length)).push(predicting(start + 1, (length - 1) as nat))
    }
}

/// How far each cluster is used up behind the literals of `text` from `start` to `end`, each
/// the next of the cluster that the byte in front of it chooses.
pub open spec fn clusters_read(
    contexts: Seq<u8>,
    clusters: Seq<Seq<u8>>,
    used: Seq<usize>,
    text: Seq<u8>,
    start: nat,
    end: nat,
) -> Option<Seq<usize>>
    decreases end - start,
{
    if end <= start {
        Some(used)
    } else {
        let before = if start == 0 {
            0
        } else {
            text[start - 1] as int
        };
        let cluster = contexts[before] as int;
        if before < contexts.len() && used[cluster] < clusters[cluster].len() && text[start as int]
            == clusters[cluster][used[cluster] as int] {
            clusters_read(
                contexts,
                clusters,
                used.update(cluster, (used[cluster] + 1) as usize),
                text,
                start + 1,
                end,
            )
        } else {
            None
        }
    }
}

/// How far each cluster is used up where the bytes of `text` from `start` to `end` are the
/// next literals.
pub open spec fn literals_read(
    literals: RolzLiteralsView,
    taken: nat,
    used: Seq<usize>,
    text: Seq<u8>,
    start: nat,
    end: nat,
) -> Option<Seq<usize>> {
    match literals {
        RolzLiteralsView::Linear(bytes) => if taken + (end - start) <= bytes.len()
            && text.subrange(start as int, end as int) == bytes.subrange(
            taken as int,
            taken + (end - start),
        ) {
            Some(used)
        } else {
            None
        },
        RolzLiteralsView::Clustered { contexts, clusters, total } => if taken + (end - start)
            <= total {
            clusters_read(contexts, clusters, used, text, start, end)
        } else {
            None
        },
    }
}

/// Which of the last three offsets a code names.
pub open spec fn named_offset(code: nat, last: (nat, nat, nat)) -> nat {
    if code % 4 == 0 {
        last.0
    } else if code % 4 == 1 {
        last.1
    } else {
        last.2
    }
}

/// The last three offsets with one in front: the one that a code names moves up, any other
/// pushes the last one out.
pub open spec fn offsets_after(
    last: (nat, nat, nat),
    match_type: u8,
    code: nat,
    offset: nat,
) -> (nat, nat, nat) {
    if match_type < 2 || code % 4 == 2 {
        (offset, last.0, last.1)
    } else if code % 4 == 1 {
        (offset, last.0, last.2)
    } else {
        last
    }
}

/// The length that a place predicts and a number say together: the number counts from three,
/// leaves the predicted length out, and is zero for it.
pub open spec fn told_length(predicted: nat, number: nat) -> nat {
    if number + 3 > predicted {
        number + 3
    } else if number > 0 {
        (number + 2) as nat
    } else {
        predicted
    }
}

/// The distance and the length of a match at `start`: of type 0 as told, at least seven; of
/// type 1 to one of the last sixteen places in the same context; of any other near one of the
/// last three offsets, at least three.
pub open spec fn told_match(
    text: Seq<u8>,
    start: nat,
    match_type: u8,
    code: nat,
    number: nat,
    last: (nat, nat, nat),
    places: Seq<(nat, nat)>,
) -> Option<(nat, nat)> {
    if match_type == 0 {
        Some((code, number + 7))
    } else if match_type == 1 {
        let row = places_in(text, places, two_byte_context(text, start));
        if start >= 2 && code < 16 && code < row.len() && row[code as int].0 < start {
            Some(
                (
                    (start - row[code as int].0) as nat,
                    told_length(row[code as int].1, number),
                ),
            )
        } else {
            None
        }
    } else if code % 4 == 3 {
        None
    } else if code == 0 {
        Some((last.0, number + 3))
    } else if named_offset(code, last) + code / 4 >= 4 {
        Some(((named_offset(code, last) + code / 4 - 4) as nat, number + 3))
    } else {
        None
    }
}

/// What is left of the lists, and what was seen.
pub struct RolzCursor {
    pub taken: nat,
    pub used: Seq<usize>,
    pub last: (nat, nat, nat),
    pub places: Seq<(nat, nat)>,
}

/// Whether `text`, from `position` on, is what the sequences from `index` on say: literals,
/// then a match; and the literals that are left at the end.
pub open spec fn rolz_fits(
    payload: RolzView,
    text: Seq<u8>,
    index: nat,
    cursor: RolzCursor,
    position: nat,
) -> bool
    decreases payload.match_types.len() - index,
{
    if index >= payload.match_types.len() {
        &&& position <= text.len()
        &&& cursor.taken + (text.len() - position) == payload.literals.count()
        &&& literals_read(
            payload.literals,
            cursor.taken,
            cursor.used,
            text,
            position,
            text.len(),
        ) is Some
    } else {
        let at = index as int;
        let match_type = payload.match_types[at];
        let code = payload.match_codes[at] as nat;
        let literals = payload.literal_lengths[at] as nat;
        let middle = position + literals;
        let places = literal_places(cursor.places, position, middle);
        let used = literals_read(
            payload.literals,
            cursor.taken,
            cursor.used,
            text,
            position,
            middle,
        );
        match told_match(
            text,
            middle,
            match_type,
            code,
            payload.match_lengths[at] as nat,
            cursor.last,
            places,
        ) {
            None => false,
            Some((distance, length)) => {
                &&& middle + length <= text.len()
                &&& used is Some
                &&& repeats(text, middle, middle + length, distance)
                &&& rolz_fits(
                    payload,
                    text,
                    index + 1,
                    RolzCursor {
                        taken: cursor.taken + literals,
                        used: used->Some_0,
                        last: offsets_after(cursor.last, match_type, code, distance),
                        places: match_places(places, match_type, middle, length),
                    },
                    middle + length,
                )
            },
        }
    }
}

/// The start: nothing is used up or seen, and the last offsets are 1, 4 and 8.
pub open spec fn cursor_start() -> RolzCursor {
    RolzCursor {
        taken: 0,
        used: Seq::new(256, |i: int| 0usize),
        last: (1, 4, 8),
        places: Seq::empty(),
    }
}

/// Whether a history is that of some places.
spec fn history_of(text: Seq<u8>, places: Seq<(nat, nat)>, history: RolzHistory) -> bool {
    &&& history.len() == 4096
    &&& forall|context: int|
        0 <= context < 4096 ==> #[trigger] history[context] == places_in(
            text,
            places,
            context as nat,
        )
}

/// Whether the state of the decoder is that of a cursor.
spec fn state_of(
    text: Seq<u8>,
    cursor: RolzCursor,
    position: nat,
    state: RolzState,
) -> bool {
    &&& state.consumed == cursor.taken
    &&& state.positions == cursor.used
    &&& state.reps == cursor.last
    &&& state.output == text.take(position as int)
    &&& history_of(text, cursor.places, state.history)
}

proof fn lemma_context(text: Seq<u8>, end: nat, position: nat)
    requires
        2 <= position <= end <= text.len(),
    ensures
        context_hash(text.take(end as int), position) == two_byte_context(text, position),
        two_byte_context(text, position) < 4096,
{
    let front = text.take(end as int);
    reveal(context_hash);
    assert(front[position - 2] == text[position - 2]);
    assert(front[position - 1] == text[position - 1]);
}

proof fn lemma_remembered(
    text: Seq<u8>,
    end: nat,
    places: Seq<(nat, nat)>,
    history: RolzHistory,
    position: nat,
    length: nat,
)
    requires
        2 <= position <= end <= text.len(),
        history_of(text, places, history),
    ensures
        history_of(
            text,
            places.push(predicting(position, length)),
            remembered(
                history,
                context_hash(text.take(end as int), position),
                position,
                length,
            ),
        ),
{
    lemma_context(text, end, position);
    let hash = two_byte_context(text, position);
    let place = predicting(position, length);
    let more = places.push(place);
    assert(more.drop_last() =~= places);
    let after = remembered(history, hash, position, length);
    assert forall|context: int| 0 <= context < 4096 implies #[trigger] after[context] == places_in(
        text,
        more,
        context as nat,
    ) by {
        assert(history[context] == places_in(text, places, context as nat));
        if context == hash {
            assert(after[context] =~= seq![place] + history[context]);
        }
    }
}

proof fn lemma_literal_places(
    text: Seq<u8>,
    end: nat,
    places: Seq<(nat, nat)>,
    history: RolzHistory,
    start: nat,
    stop: nat,
)
    requires
        stop <= end <= text.len(),
        history_of(text, places, history),
    ensures
        history_of(
            text,
            literal_places(places, start, stop),
            literals_remembered(history, text.take(end as int), start, stop),
        ),
    decreases stop,
{
    if stop > start && stop > 2 {
        let position = (stop - 1) as nat;
        lemma_literal_places(text, end, places, history, start, position);
        lemma_remembered(
            text,
            end,
            literal_places(places, start, position),
            literals_remembered(history, text.take(end as int), start, position),
            position,
            0,
        );
    }
}

proof fn lemma_match_places(
    text: Seq<u8>,
    end: nat,
    places: Seq<(nat, nat)>,
    history: RolzHistory,
    match_type: u8,
    start: nat,
    length: nat,
)
    requires
        start + length == end,
        end <= text.len(),
        length >= 1,
        history_of(text, places, history),
    ensures
        history_of(
            text,
            match_places(places, match_type, start, length),
            match_remembered(history, text.take(end as int), match_type, start, length),
        ),
{
    if start >= 2 {
        let output = text.take(end as int);
        lemma_remembered(text, end, places, history, start, length);
        if match_type != 1 {
            let once = remembered(history, context_hash(output, start), start, length);
            lemma_remembered(
                text,
                end,
                places.push(predicting(start, length)),
                once,
                start + 1,
                (length - 1) as nat,
            );
        }
    }
}

proof fn lemma_clustered_prefix(
    contexts: Seq<u8>,
    clusters: Seq<Seq<u8>>,
    used: Seq<usize>,
    output: Seq<u8>,
    left: nat,
)
    requires
        clustered_from(contexts, clusters, used, output, left) is Ok,
    ensures
        ({
            let more = clustered_from(contexts, clusters, used, output, left)->Ok_0.1;
            &&& more.len() == output.len() + left
            &&& more.take(output.len() as int) == output
        }),
    decreases left,
{
    if left > 0 {
        let context = if output.len() == 0 {
            0u8
        } else {
            output.last()
        };
        let cluster = contexts[context as int] as int;
        let position = used[cluster];
        let longer = output.push(clusters[cluster][position as int]);
        lemma_clustered_prefix(
            contexts,
            clusters,
            used.update(cluster, (position + 1) as usize),
            longer,
            (left - 1) as nat,
        );
        let more = clustered_from(contexts, clusters, used, output, left)->Ok_0.1;
        assert(more.take(output.len() as int) =~= more.take(longer.len() as int).take(
            output.len() as int,
        ));
        assert(longer.take(output.len() as int) =~= output);
    } else {
        assert(output.take(output.len() as int) =~= output);
    }
}

proof fn lemma_clustered(
    contexts: Seq<u8>,
    clusters: Seq<Seq<u8>>,
    used: Seq<usize>,
    text: Seq<u8>,
    start: nat,
    end: nat,
)
    requires
        start <= end <= text.len(),
    ensures
        ({
            let result = clustered_from(
                contexts,
                clusters,
                used,
                text.take(start as int),
                (end - start) as nat,
            );
            let read = clusters_read(contexts, clusters, used, text, start, end);
            &&& read is Some ==> result == Ok::<(Seq<usize>, Seq<u8>), ErrorView>(
                (read->Some_0, text.take(end as int)),
            )
            &&& result is Ok && result->Ok_0.1 == text.take(end as int) ==> read == Some(
                result->Ok_0.0,
            )
        }),
    decreases end - start,
{
    let output = text.take(start as int);
    if start < end {
        let context = if output.len() == 0 {
            0u8
        } else {
            output.last()
        };
        let before = if start == 0 {
            0
        } else {
            text[start - 1] as int
        };
        assert(context as int == before);
        let cluster = contexts[before] as int;
        let position = used[cluster];
        let next = used.update(cluster, (position + 1) as usize);
        let longer = output.push(clusters[cluster][position as int]);
        let result = clustered_from(contexts, clusters, used, output, (end - start) as nat);
        if before < contexts.len() && position < clusters[cluster].len() {
            if text[start as int] == clusters[cluster][position as int] {
                assert(longer =~= text.take(start as int + 1));
                lemma_clustered(contexts, clusters, next, text, start + 1, end);
            } else if result is Ok {
                lemma_clustered_prefix(
                    contexts,
                    clusters,
                    next,
                    longer,
                    (end - start - 1) as nat,
                );
                let more = result->Ok_0.1;
                assert(more.take(longer.len() as int)[start as int] == longer[start as int]);
                assert(more[start as int] == clusters[cluster][position as int]);
                if more == text.take(end as int) {
                    assert(text.take(end as int)[start as int] == text[start as int]);
                }
            }
        }
    }
}

proof fn lemma_take_prefix(
    literals: RolzLiteralsView,
    taken: nat,
    used: Seq<usize>,
    output: Seq<u8>,
    len: nat,
)
    requires
        take_literals(literals, taken, used, output, len) is Ok,
    ensures
        ({
            let more = take_literals(literals, taken, used, output, len)->Ok_0.1;
            &&& more.len() == output.len() + len
            &&& more.take(output.len() as int) == output
        }),
{
    match literals {
        RolzLiteralsView::Linear(bytes) => {
            let part = literal_range(bytes, taken, len)->Ok_0;
            assert((output + part).take(output.len() as int) =~= output);
        },
        RolzLiteralsView::Clustered { contexts, clusters, total } => {
            lemma_clustered_prefix(contexts, clusters, used, output, len);
        },
    }
}

proof fn lemma_take(
    literals: RolzLiteralsView,
    taken: nat,
    used: Seq<usize>,
    text: Seq<u8>,
    start: nat,
    end: nat,
)
    requires
        start <= end <= text.len(),
        literals.count() <= usize::MAX,
    ensures
        ({
            let result = take_literals(
                literals,
                taken,
                used,
                text.take(start as int),
                (end - start) as nat,
            );
            let read = literals_read(literals, taken, used, text, start, end);
            &&& read is Some ==> result == Ok::<(Seq<usize>, Seq<u8>), ErrorView>(
                (read->Some_0, text.take(end as int)),
            )
            &&& result is Ok && result->Ok_0.1 == text.take(end as int) ==> read == Some(
                result->Ok_0.0,
            )
        }),
{
    let output = text.take(start as int);
    let len = (end - start) as nat;
    match literals {
        RolzLiteralsView::Linear(bytes) => {
            if taken + len <= bytes.len() {
                let part = bytes.subrange(taken as int, taken + len as int);
                assert(text.take(end as int) =~= output + text.subrange(
                    start as int,
                    end as int,
                ));
                if output + part == text.take(end as int) {
                    assert forall|i: int| 0 <= i < len implies part[i] == text.subrange(
                        start as int,
                        end as int,
                    )[i] by {
                        assert((output + part)[start + i] == text.take(end as int)[start + i]);
                    }
                    assert(part =~= text.subrange(start as int, end as int));
                }
            }
        },
        RolzLiteralsView::Clustered { contexts, clusters, total } => {
            lemma_clustered(contexts, clusters, used, text, start, end);
        },
    }
}

proof fn lemma_told(
    text: Seq<u8>,
    start: nat,
    match_type: u8,
    code: nat,
    number: nat,
    last: (nat, nat, nat),
    places: Seq<(nat, nat)>,
    state: RolzState,
)
    requires
        start <= text.len() <= usize::MAX,
        match_type <= 3,
        state.output == text.take(start as int),
        state.reps == last,
        history_of(text, places, state.history),
    ensures
        ({
            let told = told_match(text, start, match_type, code, number, last, places);
            let result = resolved_match(match_type, code, number, state);
            &&& result is Ok && result->Ok_0.0 > 0 ==> told == Some(result->Ok_0)
            &&& told is Some && told->Some_0.0 > 0 && told->Some_0.0 <= start
                && told->Some_0.1 + start <= usize::MAX && number + 7 <= usize::MAX ==> result == Ok::<
                (nat, nat),
                ErrorView,
            >(told->Some_0)
            &&& told is Some ==> offsets_after(last, match_type, code, told->Some_0.0)
                == next_reps(last, match_type, code, told->Some_0.0)
        }),
{
    if match_type == 1 && start >= 2 {
        lemma_context(text, start, start);
        let context = two_byte_context(text, start);
        assert(state.history[context as int] == places_in(text, places, context));
    }
}

proof fn lemma_step_prefix(
    payload: RolzView,
    decoded_size: nat,
    index: nat,
    state: RolzState,
)
    requires
        rolz_from(payload, decoded_size, index, state) is Ok,
    ensures
        ({
            let end = rolz_from(payload, decoded_size, index, state)->Ok_0;
            &&& state.output.len() <= end.output.len()
            &&& end.output.take(state.output.len() as int) == state.output
        }),
    decreases payload.match_types.len() - index,
{
    if index < payload.match_types.len() {
        let at = index as int;
        let between = literal_step(
            payload.literals,
            state,
            payload.literal_lengths[at] as nat,
            decoded_size,
        )->Ok_0;
        lemma_take_prefix(
            payload.literals,
            state.consumed,
            state.positions,
            state.output,
            payload.literal_lengths[at] as nat,
        );
        let code = payload.match_codes[at] as nat;
        let number = payload.match_lengths[at] as nat;
        let after = match_step(
            payload.match_types[at],
            code,
            number,
            between,
            decoded_size,
        )->Ok_0;
        let (offset, length) = resolved_match(
            payload.match_types[at],
            code,
            number,
            between,
        )->Ok_0;
        lemma_extended(between.output, offset, length);
        lemma_step_prefix(payload, decoded_size, index + 1, after);
        let end = rolz_from(payload, decoded_size, index, state)->Ok_0;
        assert(end.output.take(state.output.len() as int) =~= end.output.take(
            after.output.len() as int,
        ).take(between.output.len() as int).take(state.output.len() as int));
    } else {
        assert(state.output.take(state.output.len() as int) =~= state.output);
    }
}

/// What a decoder makes of its last state.
spec fn finishes(
    payload: RolzView,
    decoded_size: nat,
    state: Result<RolzState, ErrorView>,
    text: Seq<u8>,
) -> bool {
    match state {
        Err(_) => false,
        Ok(state) => {
            let rest = payload.literals.count() - state.consumed;
            let last = take_literals(
                payload.literals,
                state.consumed,
                state.positions,
                state.output,
                rest as nat,
            );
            &&& rest >= 0
            &&& state.output.len() + rest == decoded_size
            &&& last is Ok
            &&& last->Ok_0.1 == text
        },
    }
}

proof fn lemma_finish_prefix(
    payload: RolzView,
    decoded_size: nat,
    index: nat,
    state: RolzState,
    text: Seq<u8>,
)
    requires
        finishes(payload, decoded_size, rolz_from(payload, decoded_size, index, state), text),
    ensures
        text.len() == decoded_size,
        state.output.len() <= text.len(),
        text.take(state.output.len() as int) == state.output,
{
    lemma_step_prefix(payload, decoded_size, index, state);
    let end = rolz_from(payload, decoded_size, index, state)->Ok_0;
    let rest = payload.literals.count() - end.consumed;
    lemma_take_prefix(
        payload.literals,
        end.consumed,
        end.positions,
        end.output,
        rest as nat,
    );
    assert(text.take(state.output.len() as int) =~= text.take(end.output.len() as int).take(
        state.output.len() as int,
    ));
}

#[verifier::rlimit(40)]
proof fn lemma_fits(
    payload: RolzView,
    decoded_size: nat,
    text: Seq<u8>,
    index: nat,
    cursor: RolzCursor,
    position: nat,
    state: RolzState,
)
    requires
        payload.literals.count() <= usize::MAX,
        types_known(payload.match_types),
        text.len() <= usize::MAX,
        position <= text.len(),
        state_of(text, cursor, position, state),
        finishes(payload, decoded_size, rolz_from(payload, decoded_size, index, state), text),
    ensures
        rolz_fits(payload, text, index, cursor, position),
    decreases payload.match_types.len() - index,
{
    lemma_finish_prefix(payload, decoded_size, index, state, text);
    if index >= payload.match_types.len() {
        let rest = payload.literals.count() - state.consumed;
        assert(text.take(text.len() as int) =~= text);
        lemma_take(payload.literals, cursor.taken, cursor.used, text, position, text.len());
    } else {
        let at = index as int;
        let match_type = payload.match_types[at];
        let code = payload.match_codes[at] as nat;
        let number = payload.match_lengths[at] as nat;
        let literals = payload.literal_lengths[at] as nat;
        let between = literal_step(payload.literals, state, literals, decoded_size)->Ok_0;
        let after = match_step(match_type, code, number, between, decoded_size)->Ok_0;
        let middle = position + literals;
        lemma_take_prefix(
            payload.literals,
            state.consumed,
            state.positions,
            state.output,
            literals,
        );
        let (offset, length) = resolved_match(match_type, code, number, between)->Ok_0;
        lemma_extended(between.output, offset, length);
        lemma_finish_prefix(payload, decoded_size, index + 1, after, text);
        assert(between.output =~= text.take(middle as int)) by {
            assert(text.take(middle as int) =~= text.take(after.output.len() as int).take(
                middle as int,
            ));
        }
        lemma_take(payload.literals, cursor.taken, cursor.used, text, position, middle);
        let places = literal_places(cursor.places, position, middle);
        lemma_literal_places(text, middle, cursor.places, state.history, position, middle);
        lemma_told(text, middle, match_type, code, number, cursor.last, places, between);
        let end = middle + length;
        assert(after.output == text.take(end as int));
        assert(repeats(text, middle, end, offset)) by {
            assert forall|k: int| middle <= k < end implies #[trigger] text[k] == text[k
                - offset] by {
                assert(after.output[k] == after.output[k - offset]);
            }
        }
        assert(length >= 1) by {
            if match_type == 1 {
                assert(length == told_length(
                    places_in(text, places, two_byte_context(text, middle))[code as int].1,
                    number,
                ));
            }
        }
        lemma_match_places(text, end, places, between.history, match_type, middle, length);
        let next = RolzCursor {
            taken: cursor.taken + literals,
            used: between.positions,
            last: offsets_after(cursor.last, match_type, code, offset),
            places: match_places(places, match_type, middle, length),
        };
        lemma_fits(payload, decoded_size, text, index + 1, next, end, after);
    }
}

#[verifier::rlimit(40)]
proof fn lemma_decoded(
    payload: RolzView,
    text: Seq<u8>,
    index: nat,
    cursor: RolzCursor,
    position: nat,
    state: RolzState,
)
    requires
        payload.literals.count() <= usize::MAX,
        types_known(payload.match_types),
        forall|i: int|
            0 <= i < payload.match_types.len() ==> #[trigger] payload.match_lengths[i] + 7
                <= usize::MAX,
        payload.match_lengths.len() == payload.match_types.len(),
        text.len() <= usize::MAX,
        position <= text.len(),
        state_of(text, cursor, position, state),
        rolz_fits(payload, text, index, cursor, position),
    ensures
        finishes(payload, text.len(), rolz_from(payload, text.len(), index, state), text),
    decreases payload.match_types.len() - index,
{
    if index >= payload.match_types.len() {
        assert(text.take(text.len() as int) =~= text);
        lemma_take(payload.literals, cursor.taken, cursor.used, text, position, text.len());
    } else {
        let at = index as int;
        let match_type = payload.match_types[at];
        let code = payload.match_codes[at] as nat;
        let number = payload.match_lengths[at] as nat;
        let literals = payload.literal_lengths[at] as nat;
        let middle = position + literals;
        let places = literal_places(cursor.places, position, middle);
        let (distance, length) = told_match(
            text,
            middle,
            match_type,
            code,
            number,
            cursor.last,
            places,
        )->Some_0;
        let end = middle + length;
        lemma_take(payload.literals, cursor.taken, cursor.used, text, position, middle);
        let between = literal_step(payload.literals, state, literals, text.len())->Ok_0;
        assert(literal_step(payload.literals, state, literals, text.len()) is Ok);
        assert(between.output == text.take(middle as int));
        lemma_literal_places(text, middle, cursor.places, state.history, position, middle);
        lemma_told(text, middle, match_type, code, number, cursor.last, places, between);
        lemma_repeated(text, middle, length, distance);
        assert(length >= 1);
        lemma_match_places(text, end, places, between.history, match_type, middle, length);
        let after = match_step(match_type, code, number, between, text.len())->Ok_0;
        assert(match_step(match_type, code, number, between, text.len()) is Ok);
        let next = RolzCursor {
            taken: cursor.taken + literals,
            used: between.positions,
            last: offsets_after(cursor.last, match_type, code, distance),
            places: match_places(places, match_type, middle, length),
        };
        lemma_decoded(payload, text, index + 1, next, end, after);
    }
}

proof fn lemma_start(text: Seq<u8>)
    ensures
        state_of(text, cursor_start(), 0, rolz_start()),
{
    assert(text.take(0) =~= Seq::<u8>::empty());
    assert(rolz_start().positions =~= cursor_start().used);
}

/// What the lists of a rolz_deprecated node decode to is what their sequences say.
pub proof fn law_rolz_output_fits_its_sequences(
    payload: RolzView,
    decoded_size: nat,
    limits: Limits,
)
    requires
        payload.literals.count() <= usize::MAX,
        types_known(payload.match_types),
        decoded_size <= usize::MAX,
        rolz_decode(payload, decoded_size, limits) is Ok,
    ensures
        rolz_decode(payload, decoded_size, limits)->Ok_0.len() == decoded_size,
        rolz_fits(
            payload,
            rolz_decode(payload, decoded_size, limits)->Ok_0,
            0,
            cursor_start(),
            0,
        ),
{
    let text = rolz_decode(payload, decoded_size, limits)->Ok_0;
    let end = rolz_from(payload, decoded_size, 0, rolz_start())->Ok_0;
    lemma_consumed(payload, decoded_size, 0, rolz_start());
    lemma_start(text);
    lemma_finish_prefix(payload, decoded_size, 0, rolz_start(), text);
    lemma_fits(payload, decoded_size, text, 0, cursor_start(), 0, rolz_start());
}

proof fn lemma_consumed(
    payload: RolzView,
    decoded_size: nat,
    index: nat,
    state: RolzState,
)
    requires
        state.consumed <= payload.literals.count(),
        rolz_from(payload, decoded_size, index, state) is Ok,
    ensures
        rolz_from(payload, decoded_size, index, state)->Ok_0.consumed <= payload.literals.count(),
    decreases payload.match_types.len() - index,
{
    if index < payload.match_types.len() {
        let at = index as int;
        let between = literal_step(
            payload.literals,
            state,
            payload.literal_lengths[at] as nat,
            decoded_size,
        )->Ok_0;
        let after = match_step(
            payload.match_types[at],
            payload.match_codes[at] as nat,
            payload.match_lengths[at] as nat,
            between,
            decoded_size,
        )->Ok_0;
        lemma_consumed(payload, decoded_size, index + 1, after);
    }
}

/// Bytes that were cut into literals and matches come back from the lists that say so, where
/// the limits leave room for the places of each context.
pub proof fn law_rolz_gives_back_what_was_cut(
    payload: RolzView,
    limits: Limits,
    text: Seq<u8>,
)
    requires
        payload.literals.count() <= usize::MAX,
        types_known(payload.match_types),
        payload.match_lengths.len() == payload.match_types.len(),
        forall|i: int|
            0 <= i < payload.match_types.len() ==> #[trigger] payload.match_lengths[i] + 7
                <= usize::MAX,
        text.len() <= usize::MAX,
        payload.match_types.contains(1u8) ==> table_error(limits) is None,
        rolz_fits(payload, text, 0, cursor_start(), 0),
    ensures
        rolz_decode(payload, text.len(), limits) == Ok::<Seq<u8>, ErrorView>(text),
{
    lemma_start(text);
    lemma_decoded(payload, text, 0, cursor_start(), 0, rolz_start());
}

} // verus!
