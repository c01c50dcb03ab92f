//! Inspecting frames.

use ozlrip::parse::inspect_frame;
use ozlrip::{ErrorKind, Limits};

#[test]
fn rejects_truncated_magic() {
    let err = inspect_frame(&[0x28, 0x5a], Limits::default()).unwrap_err();
    assert_eq!(err.kind(), ErrorKind::Truncated);
    assert_eq!(err.offset(), Some(0));
}

#[test]
fn rejects_unknown_magic() {
    let err = inspect_frame(b"not-openzl", Limits::default()).unwrap_err();
    assert_eq!(err.kind(), ErrorKind::Unsupported);
    assert_eq!(err.offset(), Some(0));
}

#[test]
fn rejects_overlong_varint() {
    let input = [0x28, 0x5a, 0x4c, 0x29, 0x80, 0x80, 0x80, 0x80, 0x80];
    let err = inspect_frame(&input, Limits::default()).unwrap_err();
    assert_eq!(err.kind(), ErrorKind::Malformed);
    assert_eq!(err.offset(), Some(4));
}

#[test]
fn enforces_frame_limit_before_parsing() {
    let limits = Limits {
        max_frame_bytes: 1,
        ..Limits::default()
    };
    let err = inspect_frame(&[0; 2], limits).unwrap_err();
    assert_eq!(err.kind(), ErrorKind::LimitExceeded);
}
