//! Typed errors: a kind, an optional byte offset, an optional explanation.

use vstd::prelude::*;

verus! {

/// What went wrong, without the particulars.
#[derive(Clone, Copy, Debug, PartialEq, Eq, Structural)]
pub enum ErrorKind {
    Truncated,
    Malformed,
    Unsupported,
    LimitExceeded,
    ChecksumMismatch,
    InvalidGraph,
    InvalidType,
    IntegerOverflow,
}

/// A decoding error.
#[derive(Clone, Debug, PartialEq, Eq)]
pub struct Error {
    kind: ErrorKind,
    offset: Option<usize>,
    detail: Option<String>,
}

/// The mathematical content of an [`Error`].
#[verifier::ext_equal]
pub struct ErrorView {
    pub kind: ErrorKind,
    pub offset: Option<usize>,
    pub detail: Option<Seq<char>>,
}

impl View for Error {
    type V = ErrorView;

    closed spec fn view(&self) -> ErrorView {
        ErrorView {
            kind: self.kind,
            offset: self.offset,
            detail: match self.detail {
                Some(text) => Some(text@),
                None => None,
            },
        }
    }
}

/// An error of a kind, with neither offset nor explanation.
pub open spec fn plain(kind: ErrorKind) -> ErrorView {
    ErrorView { kind, offset: None, detail: None }
}

/// An error of a kind with an explanation.
pub open spec fn detailed(kind: ErrorKind, detail: Seq<char>) -> ErrorView {
    ErrorView { kind, offset: None, detail: Some(detail) }
}

/// An error of a kind at a byte offset.
pub open spec fn located(kind: ErrorKind, offset: int) -> ErrorView {
    ErrorView { kind, offset: Some(offset as usize), detail: None }
}

/// An error of a kind at a byte offset, with an explanation.
pub open spec fn located_detailed(kind: ErrorKind, offset: int, detail: Seq<char>) -> ErrorView {
    ErrorView { kind, offset: Some(offset as usize), detail: Some(detail) }
}

/// `String::from` on a string slice: a string of the same characters.
pub assume_specification<'a>[ <std::string::String as std::convert::From<&'a str>>::from ](
    text: &str,
) -> (owned: std::string::String)
    ensures
        owned@ == text@,
;

impl Error {
    pub fn new(kind: ErrorKind) -> (error: Self)
        ensures
            error@ == plain(kind),
    {
        Error { kind, offset: None, detail: None }
    }

    pub fn at(kind: ErrorKind, offset: usize) -> (error: Self)
        ensures
            error@ == located(kind, offset as int),
    {
        Error { kind, offset: Some(offset), detail: None }
    }

    /// Explains an error, by what `detail` converts to.
    #[must_use]
    pub fn with_detail<T: Into<String>>(self, detail: T) -> (error: Self)
        ensures
            exists|text: String| #[trigger]
                call_ensures(T::into, (detail,), text) && error@ == (ErrorView {
                    detail: Some(text@),
                    ..self@
                }),
    {
        Error { kind: self.kind, offset: self.offset, detail: Some(detail.into()) }
    }

    pub fn kind(&self) -> (kind: ErrorKind)
        ensures
            kind == self@.kind,
    {
        self.kind
    }

    pub fn offset(&self) -> (offset: Option<usize>)
        ensures
            offset == self@.offset,
    {
        self.offset
    }

    pub fn detail(&self) -> (detail: Option<&str>)
        ensures
            match detail {
                Some(text) => self@.detail == Some(text@),
                None => self@.detail is None,
            },
    {
        match &self.detail {
            Some(text) => Some(text.as_str()),
            None => None,
        }
    }
}

/// Builds an error of a kind with an explanation.
pub(crate) fn fail(kind: ErrorKind, detail: &str) -> (error: Error)
    ensures
        error@ == detailed(kind, detail@),
{
    Error::new(kind).with_detail(detail)
}

/// The view of a fallible result whose success value has a view.
pub open spec fn outcome<T: View>(result: Result<T, Error>) -> Result<T::V, ErrorView> {
    match result {
        Ok(value) => Ok(value@),
        Err(error) => Err(error@),
    }
}

/// The view of a fallible result whose success value stands for itself.
pub open spec fn plain_outcome<T>(result: Result<T, Error>) -> Result<T, ErrorView> {
    match result {
        Ok(value) => Ok(value),
        Err(error) => Err(error@),
    }
}

/// The error, if any, of a fallible result.
pub open spec fn error_of<T>(result: Result<T, Error>) -> Option<ErrorView> {
    match result {
        Ok(_) => None,
        Err(error) => Some(error@),
    }
}

/// Decoding behind more bytes comes to what decoding behind fewer comes to, or to an
/// integer overflow.
pub open spec fn same_or_overflow(
    fewer: Result<Seq<u8>, ErrorView>,
    more: Result<Seq<u8>, ErrorView>,
) -> bool {
    more == fewer || more == Err::<Seq<u8>, ErrorView>(plain(ErrorKind::IntegerOverflow))
}

/// A call that appends what `decoded` says to a buffer, or fails as `decoded`
/// says and leaves the buffer as it was.
pub open spec fn appends(
    decoded: Result<Seq<u8>, ErrorView>,
    before: Seq<u8>,
    after: Seq<u8>,
    error: Option<ErrorView>,
) -> bool {
    match decoded {
        Ok(bytes) => error is None && after == before + bytes,
        Err(failure) => error == Some(failure) && after == before,
    }
}

/// A call that appends what `decoded` says to a buffer, or fails as `decoded` says and
/// has appended `left` by then.
pub open spec fn leaves(
    decoded: Result<Seq<u8>, ErrorView>,
    left: Seq<u8>,
    before: Seq<u8>,
    after: Seq<u8>,
    error: Option<ErrorView>,
) -> bool {
    match decoded {
        Ok(bytes) => error is None && after == before + bytes,
        Err(failure) => error == Some(failure) && after == before + left,
    }
}

} // verus!
