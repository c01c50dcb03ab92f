//! Text for error messages.

use vstd::prelude::*;

use crate::error::{Error, ErrorKind, ErrorView};
use crate::stream::join_text;

verus! {

/// The decimal digits of a number.
pub open spec fn decimal_text(value: nat) -> Seq<char>
    decreases value,
{
    if value < 10 {
        seq![digit_char(value)]
    } else {
        decimal_text(value / 10) + seq![digit_char(value % 10)]
    }
}

/// The character of a digit.
pub open spec fn digit_char(digit: nat) -> char {
    (48 + digit) as char
}

fn digit_text(digit: usize) -> (text: &'static str)
    requires
        digit < 10,
    ensures
        text@ == seq![digit_char(digit as nat)],
{
    proof {
        reveal_strlit("0");
        reveal_strlit("1");
        reveal_strlit("2");
        reveal_strlit("3");
        reveal_strlit("4");
        reveal_strlit("5");
        reveal_strlit("6");
        reveal_strlit("7");
        reveal_strlit("8");
        reveal_strlit("9");
    }
    match digit {
        0 => "0",
        1 => "1",
        2 => "2",
        3 => "3",
        4 => "4",
        5 => "5",
        6 => "6",
        7 => "7",
        8 => "8",
        _ => "9",
    }
}

/// Writes a number in decimal digits.
pub(crate) fn number_text(value: usize) -> (text: String)
    ensures
        text@ == decimal_text(value as nat),
    decreases value,
{
    if value < 10 {
        return digit_text(value).to_owned();
    }
    let front = number_text(value / 10);
    join_text(front.as_str(), digit_text(value % 10))
}

/// The name of a kind of error.
pub open spec fn kind_name(kind: ErrorKind) -> Seq<char> {
    match kind {
        ErrorKind::Truncated => "Truncated"@,
        ErrorKind::Malformed => "Malformed"@,
        ErrorKind::Unsupported => "Unsupported"@,
        ErrorKind::LimitExceeded => "LimitExceeded"@,
        ErrorKind::ChecksumMismatch => "ChecksumMismatch"@,
        ErrorKind::InvalidGraph => "InvalidGraph"@,
        ErrorKind::InvalidType => "InvalidType"@,
        ErrorKind::IntegerOverflow => "IntegerOverflow"@,
    }
}

/// An error in words: its kind, where it lies, and the explanation, as far as they are
/// known.
pub open spec fn error_text(error: ErrorView) -> Seq<char> {
    let place = match error.offset {
        Some(offset) => " at byte "@ + decimal_text(offset as nat),
        None => Seq::empty(),
    };
    let reason = match error.detail {
        Some(detail) => ": "@ + detail,
        None => Seq::empty(),
    };
    kind_name(error.kind) + place + reason
}

impl ErrorKind {
    /// The name of the kind.
    pub fn name(&self) -> (name: &'static str)
        ensures
            name@ == kind_name(*self),
    {
        match self {
            ErrorKind::Truncated => "Truncated",
            ErrorKind::Malformed => "Malformed",
            ErrorKind::Unsupported => "Unsupported",
            ErrorKind::LimitExceeded => "LimitExceeded",
            ErrorKind::ChecksumMismatch => "ChecksumMismatch",
            ErrorKind::InvalidGraph => "InvalidGraph",
            ErrorKind::InvalidType => "InvalidType",
            ErrorKind::IntegerOverflow => "IntegerOverflow",
        }
    }
}

impl Error {
    /// The error in words.
    pub fn message(&self) -> (text: String)
        ensures
            text@ == error_text(self@),
    {
        let mut text = self.kind().name().to_owned();
        let ghost name = text@;
        if let Some(offset) = self.offset() {
            let number = number_text(offset);
            let place = join_text(" at byte ", number.as_str());
            text = join_text(text.as_str(), place.as_str());
        }
        proof {
            assert(name + Seq::empty() =~= name);
        }
        let ghost placed = text@;
        if let Some(detail) = self.detail() {
            let reason = join_text(": ", detail);
            text = join_text(text.as_str(), reason.as_str());
        }
        proof {
            assert(placed + Seq::empty() =~= placed);
        }
        text
    }
}

} // verus!
