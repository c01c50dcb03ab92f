//! LZ streams.

use ozlrip::lz::{
    append_nonoverlapping_match, decode_u8_u16_u16_to_output, decode_u8_u16_u16_within,
};
use ozlrip::ErrorKind;

#[test]
fn decodes_validated_u8_u16_u16_lz_into_spare_capacity() {
    let literals = b"abcxyZ";
    let offsets = [3, 2];
    let literal_lengths = [3, 0, 2, 0];
    let match_lengths = [3, 0, 4, 0];
    let mut output = b"pre".to_vec();
    output.reserve_exact(13);

    decode_u8_u16_u16_to_output(
        literals,
        &offsets,
        &literal_lengths,
        &match_lengths,
        2,
        13,
        &mut output,
        3,
    )
    .unwrap();

    assert_eq!(output, b"preabcabcxyxyxyZ");
}

#[test]
fn rejects_malformed_lz_before_mutating_output() {
    let literals = b"a";
    let offsets = [1];
    let literal_lengths = [2, 0];
    let match_lengths = [0, 0];
    let mut output = b"pre".to_vec();
    output.reserve_exact(8);

    let err = decode_u8_u16_u16_to_output(
        literals,
        &offsets,
        &literal_lengths,
        &match_lengths,
        1,
        2,
        &mut output,
        3,
    )
    .unwrap_err();

    assert_eq!(err.kind(), ErrorKind::Malformed);
    assert_eq!(output, b"pre");
}

#[test]
fn appends_nonoverlapping_match_from_spare_capacity() {
    let mut output = b"abcdef".to_vec();
    output.reserve_exact(3);

    append_nonoverlapping_match(&mut output, 2, 3);

    assert_eq!(output, b"abcdefcde");
}

#[test]
fn lz_output_is_written_at_its_end_only() {
    let mut output = b"pre".to_vec();
    output.reserve_exact(13);
    for base in [0usize, 2, 4] {
        let err = decode_u8_u16_u16_to_output(
            b"abc", &[3], &[3, 0], &[3, 0], 1, 6, &mut output, base,
        )
        .unwrap_err();
        assert_eq!(err.kind(), ErrorKind::InvalidGraph);
        assert_eq!(err.detail(), Some("lz output spare capacity is invalid"));
        assert_eq!(output, b"pre");
    }
}

#[test]
fn lz_output_fits_its_capacity() {
    let mut output = Vec::new();
    let err =
        decode_u8_u16_u16_to_output(b"abc", &[3], &[3, 0], &[3, 0], 1, 6, &mut output, 0)
            .unwrap_err();
    assert_eq!(err.kind(), ErrorKind::InvalidGraph);
    assert_eq!(err.detail(), Some("lz output spare capacity is invalid"));
    let mut output = b"pre".to_vec();
    let err =
        decode_u8_u16_u16_within(b"abc", &[3], &[3, 0], &[3, 0], 1, 6, &mut output, 3, 8)
            .unwrap_err();
    assert_eq!(err.kind(), ErrorKind::InvalidGraph);
    assert_eq!(output, b"pre");
    decode_u8_u16_u16_within(b"abc", &[3], &[3, 0], &[3, 0], 1, 6, &mut output, 3, 9).unwrap();
    assert_eq!(output, b"preabcabc");
}
