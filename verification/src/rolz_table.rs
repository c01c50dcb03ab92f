//! Recent positions by the two bytes in front of them, for the deprecated reduced
//! offset LZ transform.

use vstd::prelude::*;

use crate::error::{detailed, fail, plain, Error, ErrorKind, ErrorView};
use crate::limits::Limits;

verus! {

pub const ROLZ_CONTEXTS: usize = 4096;

pub const ROLZ_ROW: usize = 16;

pub const ROLZ_ENTRY_BYTES: usize = 16;

pub const ROLZ_MIN_LENGTH: usize = 3;

/// Which positions were seen in each context, newest first, each with the match
/// length that it predicts.
pub type RolzHistory = Seq<Seq<(nat, nat)>>;

/// Nothing was seen yet.
pub open spec fn no_history() -> RolzHistory {
    Seq::new(ROLZ_CONTEXTS as nat, |context: int| Seq::empty())
}

/// What is seen after `position`, with `length` predicted, came up in `context`.
pub open spec fn remembered(
    history: RolzHistory,
    context: nat,
    position: nat,
    length: nat,
) -> RolzHistory {
    let predicted = if length > 255 {
        255
    } else {
        length
    };
    history.update(context as int, seq![(position, predicted)] + history[context as int])
}

/// The context of a position: a hash of the two bytes in front of it.
#[verifier::opaque]
pub open spec fn context_hash(output: Seq<u8>, position: nat) -> nat {
    let value = output[position - 2] as nat + 256 * output[position - 1] as nat;
    value * 0x10000 * 506832829 % 0x1_0000_0000 / 0x10_0000
}

/// The context of a position, where there is one.
pub open spec fn context_of(output: Seq<u8>, position: nat) -> Result<nat, ErrorView> {
    if position < 2 || position > output.len() {
        Err(detailed(ErrorKind::Malformed, "rolz_deprecated context is unavailable"@))
    } else {
        Ok(context_hash(output, position))
    }
}

/// Hashes the two bytes in front of a position.
pub fn rolz_deprecated_context(output: &[u8], position: usize) -> (result: Result<usize, Error>)
    ensures
        match result {
            Ok(context) => context_of(output@, position as nat) == Ok::<nat, ErrorView>(
                context as nat,
            ) && context < ROLZ_CONTEXTS,
            Err(error) => context_of(output@, position as nat) == Err::<nat, ErrorView>(error@),
        },
{
    if position < 2 || position > output.len() {
        return Err(fail(ErrorKind::Malformed, "rolz_deprecated context is unavailable"));
    }
    proof {
        reveal(context_hash);
    }
    let value: u64 = output[position - 2] as u64 + 256 * output[position - 1] as u64;
    let hash: u64 = value * 0x10000 * 506832829 % 0x1_0000_0000 / 0x10_0000;
    Ok(hash as usize)
}

/// The length of a match, of which `expected` was predicted.
pub open spec fn match_length(expected: nat, encoded: nat) -> Result<nat, ErrorView> {
    if encoded + ROLZ_MIN_LENGTH > usize::MAX {
        Err(plain(ErrorKind::IntegerOverflow))
    } else if encoded + ROLZ_MIN_LENGTH > expected {
        Ok(encoded + ROLZ_MIN_LENGTH as nat)
    } else if encoded > 0 {
        Ok((encoded + ROLZ_MIN_LENGTH - 1) as nat)
    } else {
        Ok(expected)
    }
}

/// Decodes the length of a match, of which `expected` was predicted.
fn rolz_deprecated_decode_match_length(expected: u8, encoded: usize) -> (result: Result<
    usize,
    Error,
>)
    ensures
        match result {
            Ok(length) => match_length(expected as nat, encoded as nat) == Ok::<nat, ErrorView>(
                length as nat,
            ),
            Err(error) => match_length(expected as nat, encoded as nat) == Err::<nat, ErrorView>(
                error@,
            ),
        },
{
    let longer: usize = match encoded.checked_add(ROLZ_MIN_LENGTH) {
        Some(longer) => longer,
        None => {
            return Err(Error::new(ErrorKind::IntegerOverflow));
        },
    };
    if longer > expected as usize {
        return Ok(longer);
    }
    if encoded > 0 {
        return Ok(longer - 1);
    }
    Ok(expected as usize)
}

/// The position and the length that the `index`-th newest entry of a context gives.
pub open spec fn recalled(
    history: RolzHistory,
    context: nat,
    index: nat,
    encoded: nat,
) -> Result<(nat, nat), ErrorView> {
    if index >= ROLZ_ROW {
        Err(detailed(ErrorKind::Malformed, "rolz_deprecated match code is invalid"@))
    } else if index >= history[context as int].len() {
        Err(detailed(ErrorKind::Malformed, "rolz_deprecated match index is invalid"@))
    } else {
        let (position, predicted) = history[context as int][index as int];
        match match_length(predicted, encoded) {
            Err(error) => Err(error),
            Ok(length) => Ok((position, length)),
        }
    }
}

/// The error of a table that is too large, if any.
pub open spec fn table_error(limits: Limits) -> Option<ErrorView> {
    if ROLZ_CONTEXTS * ROLZ_ROW > limits.max_buffer_bytes / ROLZ_ENTRY_BYTES {
        Some(detailed(ErrorKind::LimitExceeded, "rolz_deprecated table exceeds buffer limit"@))
    } else {
        None
    }
}

/// A ring of entries for each context: one more than a position, or zero, and the
/// match length that it predicts.
pub struct RolzDeprecatedTable {
    heads: Vec<usize>,
    entries: Vec<(usize, u8)>,
}

/// Entry `index` of a context's history, in the shape that a ring holds it.
spec fn slot(history: RolzHistory, context: int, index: int) -> (nat, nat) {
    if index < history[context].len() {
        (history[context][index].0 + 1, history[context][index].1)
    } else {
        (0, 0)
    }
}

impl RolzDeprecatedTable {
    /// The `index`-th newest entry of a context's ring.
    spec fn ring(self, context: int, index: int) -> (nat, nat) {
        let entry = self.entries@[16 * context + (self.heads@[context] + index) % 16];
        (entry.0 as nat, entry.1 as nat)
    }

    /// The rings hold the newest entries of a history.
    pub closed spec fn holds(self, history: RolzHistory) -> bool {
        &&& self.heads@.len() == 4096
        &&& self.entries@.len() == 65536
        &&& history.len() == 4096
        &&& forall|context: int|
            0 <= context < 4096 ==> 0 <= #[trigger] self.heads@[context] < 16
        &&& forall|context: int, index: int|
            0 <= context < 4096 && 0 <= index < 16 ==> #[trigger] self.ring(context, index)
                == slot(history, context, index)
    }

    /// There is no ring for any context.
    pub closed spec fn without_rings(self) -> bool {
        self.heads@.len() == 0 && self.entries@.len() == 0
    }

    /// A table without rings, which holds no history, not even an empty one.
    pub fn absent() -> (table: Self)
        ensures
            table.without_rings(),
            forall|history: RolzHistory| !#[trigger] table.holds(history),
    {
        RolzDeprecatedTable { heads: Vec::new(), entries: Vec::new() }
    }

    /// A table in which nothing was seen.
    pub fn new(limits: Limits) -> (result: Result<Self, Error>)
        ensures
            match result {
                Ok(table) => table_error(limits) is None && table.holds(no_history()),
                Err(error) => table_error(limits) == Some(error@),
            },
    {
        if ROLZ_CONTEXTS * ROLZ_ROW > limits.max_buffer_bytes / ROLZ_ENTRY_BYTES {
            return Err(fail(ErrorKind::LimitExceeded, "rolz_deprecated table exceeds buffer limit"));
        }
        let heads: Vec<usize> = vec![0; ROLZ_CONTEXTS];
        let mut entries: Vec<(usize, u8)> = Vec::new();
        while entries.len() < ROLZ_CONTEXTS * ROLZ_ROW
            invariant
                entries@.len() <= 65536,
                forall|i: int| 0 <= i < entries@.len() ==> #[trigger] entries@[i] == (0usize, 0u8),
            decreases 65536 - entries@.len(),
        {
            entries.push((0, 0));
        }
        let table = RolzDeprecatedTable { heads, entries };
        proof {
            assert forall|context: int, index: int|
                0 <= context < 4096 && 0 <= index < 16 implies #[trigger] table.ring(context, index)
                == slot(no_history(), context, index) by {
                assert(0 <= 16 * context + (table.heads@[context] + index) % 16 < 65536);
            }
        }
        Ok(table)
    }

    /// The position and the length that the `index`-th newest entry of a context gives.
    pub fn get(
        &self,
        context: usize,
        index: usize,
        encoded: usize,
        Ghost(history): Ghost<RolzHistory>,
    ) -> (result: Result<(usize, usize), Error>)
        requires
            self.holds(history),
            context < ROLZ_CONTEXTS,
        ensures
            match result {
                Ok((position, length)) => recalled(
                    history,
                    context as nat,
                    index as nat,
                    encoded as nat,
                ) == Ok::<(nat, nat), ErrorView>((position as nat, length as nat)),
                Err(error) => recalled(history, context as nat, index as nat, encoded as nat)
                    == Err::<(nat, nat), ErrorView>(error@),
            },
    {
        if index >= ROLZ_ROW {
            return Err(fail(ErrorKind::Malformed, "rolz_deprecated match code is invalid"));
        }
        let head: usize = self.heads[context];
        proof {
            assert(self.ring(context as int, index as int) == slot(
                history,
                context as int,
                index as int,
            ));
        }
        let (next, predicted) = self.entries[context * ROLZ_ROW + (head + index) % ROLZ_ROW];
        if next == 0 {
            return Err(fail(ErrorKind::Malformed, "rolz_deprecated match index is invalid"));
        }
        let length: usize = rolz_deprecated_decode_match_length(predicted, encoded)?;
        Ok((next - 1, length))
    }

    /// Remembers a position in a context.
    pub fn put(
        &mut self,
        context: usize,
        position: usize,
        length: usize,
        Ghost(history): Ghost<RolzHistory>,
    )
        requires
            old(self).holds(history),
            context < ROLZ_CONTEXTS,
            position < usize::MAX,
        ensures
            final(self).holds(remembered(history, context as nat, position as nat, length as nat)),
    {
        let ghost before = *self;
        let predicted: u8 = if length > 255 {
            255
        } else {
            length as u8
        };
        let head: usize = (self.heads[context] + (ROLZ_ROW - 1)) % ROLZ_ROW;
        self.heads.set(context, head);
        self.entries.set(context * ROLZ_ROW + head, (position + 1, predicted));
        proof {
            let after = remembered(history, context as nat, position as nat, length as nat);
            assert forall|other: int, index: int|
                0 <= other < 4096 && 0 <= index < 16 implies #[trigger] self.ring(other, index)
                == slot(after, other, index) by {
                if other == context {
                    if index > 0 {
                        assert(before.ring(other, index - 1) == slot(history, other, index - 1));
                        assert((head + index) % 16 == (before.heads@[other] + (index - 1)) % 16);
                        assert((head + index) % 16 != head);
                        assert(after[other][index] == history[other][index - 1] || index
                            >= after[other].len());
                    }
                } else {
                    assert(before.ring(other, index) == slot(history, other, index));
                    assert(after[other] == history[other]);
                    assert(16 * other + (self.heads@[other] + index) % 16 != 16 * context + head);
                }
            }
        }
    }
}

} // verus!
