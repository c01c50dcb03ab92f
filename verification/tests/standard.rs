//! Transform identifiers.

use ozlrip::standard::validate_transform_id;
use ozlrip::ErrorKind;

#[test]
fn rejects_reserved_transform_zero() {
    let err = validate_transform_id(0, 26).unwrap_err();
    assert_eq!(err.kind(), ErrorKind::Unsupported);
}

#[test]
fn enforces_standard_transform_min_version() {
    let err = validate_transform_id(66, 25).unwrap_err();
    assert_eq!(err.kind(), ErrorKind::Unsupported);
    validate_transform_id(66, 26).unwrap();

    let err = validate_transform_id(67, 26).unwrap_err();
    assert_eq!(err.kind(), ErrorKind::Unsupported);
    validate_transform_id(67, 27).unwrap();
}
