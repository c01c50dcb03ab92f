//! Dictionary bundles.

use ozlrip::dict::{
    parse_fat_bundle, BUNDLE_INFO_MAGIC, FAT_BUNDLE_FLAG, PACKED_DICT_MAGIC, UNIQUE_ID_BYTES,
};
use ozlrip::standard;
use ozlrip::ErrorKind;

const BUNDLE_ID: [u8; UNIQUE_ID_BYTES] = [7; UNIQUE_ID_BYTES];
const DICT_ID: [u8; UNIQUE_ID_BYTES] = [9; UNIQUE_ID_BYTES];

fn bundle_with_dict(codec_id: u32, custom: bool, content: &[u8]) -> Vec<u8> {
    let mut bundle = Vec::new();
    bundle.extend_from_slice(&BUNDLE_INFO_MAGIC.to_le_bytes());
    bundle.extend_from_slice(&BUNDLE_ID);
    bundle.push(FAT_BUNDLE_FLAG);
    bundle.extend_from_slice(&1u32.to_le_bytes());
    bundle.extend_from_slice(&DICT_ID);
    bundle.extend_from_slice(&PACKED_DICT_MAGIC.to_le_bytes());
    bundle.extend_from_slice(&DICT_ID);
    bundle.extend_from_slice(&codec_id.to_le_bytes());
    bundle.push(u8::from(custom));
    bundle.extend_from_slice(&u32::try_from(content.len()).unwrap().to_le_bytes());
    bundle.extend_from_slice(content);
    bundle
}

fn zstd_envelope(version: u32, raw_dict: &[u8]) -> Vec<u8> {
    let mut content = Vec::new();
    content.extend_from_slice(&version.to_le_bytes());
    content.extend_from_slice(&1i32.to_le_bytes());
    content.extend_from_slice(raw_dict);
    content
}

#[test]
fn rejects_empty_bundle() {
    let err = parse_fat_bundle(&[]).err().unwrap();

    assert_eq!(err.kind(), ErrorKind::Truncated);
}

#[test]
fn rejects_bad_bundle_magic() {
    let mut bundle = Vec::new();
    bundle.extend_from_slice(&0u32.to_le_bytes());

    let err = parse_fat_bundle(&bundle).err().unwrap();

    assert_eq!(err.kind(), ErrorKind::Malformed);
}

#[test]
fn rejects_non_fat_bundle() {
    let mut bundle = Vec::new();
    bundle.extend_from_slice(&BUNDLE_INFO_MAGIC.to_le_bytes());
    bundle.extend_from_slice(&BUNDLE_ID);
    bundle.push(0);
    bundle.extend_from_slice(&0u32.to_le_bytes());

    let err = parse_fat_bundle(&bundle).err().unwrap();

    assert_eq!(err.kind(), ErrorKind::Unsupported);
}

#[test]
fn rejects_dictionary_id_mismatch() {
    let mut bundle = bundle_with_dict(standard::ZSTD_ID, false, &zstd_envelope(1, b"dict"));
    let packed_id = 4 + UNIQUE_ID_BYTES + 1 + 4 + UNIQUE_ID_BYTES + 4;
    bundle[packed_id] ^= 1;

    let err = parse_fat_bundle(&bundle).err().unwrap();

    assert_eq!(err.kind(), ErrorKind::Malformed);
}

#[test]
fn rejects_custom_dictionary_materializer() {
    let content = zstd_envelope(1, b"dict");
    let bundle = bundle_with_dict(standard::ZSTD_ID, true, &content);

    let err = parse_fat_bundle(&bundle).err().unwrap();

    assert_eq!(err.kind(), ErrorKind::Unsupported);
}

#[test]
fn rejects_non_zstd_materializer() {
    let bundle = bundle_with_dict(standard::LZ4_ID, false, b"dict");

    let err = parse_fat_bundle(&bundle).err().unwrap();

    assert_eq!(err.kind(), ErrorKind::Unsupported);
}

#[test]
fn rejects_bad_zstd_envelope_version() {
    let bundle = bundle_with_dict(standard::ZSTD_ID, false, &zstd_envelope(2, b"dict"));

    let err = parse_fat_bundle(&bundle).err().unwrap();

    assert_eq!(err.kind(), ErrorKind::Malformed);
}
