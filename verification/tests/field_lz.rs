//! Field LZ streams.

use ozlrip::field_lz::{decode_to_output, decode_within};
use ozlrip::ErrorKind;

#[test]
fn decodes_overlapping_explicit_offset_match() {
    let mut output = Vec::with_capacity(16);
    let token = 3 | (4 << 2) | (4 << 6);

    decode_to_output(
        b"abcdWXYZ",
        &u16::to_le_bytes(token),
        &u32::to_le_bytes(4),
        &[],
        &[],
        1,
        16,
        &mut output,
        0,
    )
    .unwrap();

    assert_eq!(output, b"abcdabcdabcdWXYZ");
}

#[test]
fn decodes_long_overlapping_repeat() {
    let mut output = Vec::with_capacity(1024);
    let token = 3 | (15 << 2) | (15 << 6);

    decode_to_output(
        b"0123456789abcdef!",
        &u16::to_le_bytes(token),
        &u32::to_le_bytes(16),
        &u32::to_le_bytes(1),
        &u32::to_le_bytes(476),
        1,
        512,
        &mut output,
        0,
    )
    .unwrap();

    assert_eq!(&output[..16], b"0123456789abcdef");
    assert_eq!(output[16..511], b"0123456789abcdef".repeat(31)[..495]);
    assert_eq!(output[511], b'!');
}

#[test]
fn decodes_with_nonzero_output_base() {
    let mut output = Vec::from(&b"pre"[..]);
    output.reserve_exact(8);
    let token = 3 | (3 << 2);

    decode_to_output(
        b"abcz",
        &u16::to_le_bytes(token),
        &u32::to_le_bytes(3),
        &[],
        &[],
        1,
        8,
        &mut output,
        3,
    )
    .unwrap();

    assert_eq!(output, b"preabcabcaz");
}

#[test]
fn rejects_extra_numeric_values() {
    let mut output = Vec::with_capacity(8);
    let token = 3 | (4 << 2);

    let err = decode_to_output(
        b"abcd",
        &u16::to_le_bytes(token),
        &[4, 0, 0, 0, 7, 0, 0, 0],
        &[],
        &[],
        1,
        8,
        &mut output,
        0,
    )
    .unwrap_err();

    assert_eq!(err.kind(), ErrorKind::Malformed);
}

#[test]
fn field_lz_output_is_written_at_its_end_only() {
    let mut output = b"pre".to_vec();
    output.reserve_exact(8);
    for base in [0usize, 4] {
        let err =
            decode_to_output(b"abc", &[], &[], &[], &[], 1, 3, &mut output, base).unwrap_err();
        assert_eq!(err.kind(), ErrorKind::InvalidGraph);
        assert_eq!(err.detail(), Some("field_lz output spare capacity is invalid"));
        assert_eq!(output, b"pre");
    }
}

#[test]
fn field_lz_output_fits_its_capacity() {
    let mut output = Vec::new();
    let err = decode_to_output(b"abc", &[], &[], &[], &[], 1, 3, &mut output, 0).unwrap_err();
    assert_eq!(err.kind(), ErrorKind::InvalidGraph);
    assert_eq!(err.detail(), Some("field_lz output spare capacity is invalid"));
    let mut output = b"pre".to_vec();
    let err = decode_within(b"abc", &[], &[], &[], &[], 1, 3, &mut output, 3, 5).unwrap_err();
    assert_eq!(err.kind(), ErrorKind::InvalidGraph);
    assert_eq!(output, b"pre");
    decode_within(b"abc", &[], &[], &[], &[], 1, 3, &mut output, 3, 6).unwrap();
    assert_eq!(output, b"preabc");
}
