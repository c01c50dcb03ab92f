//! Standard transform identifiers and the format version each one needs.

use vstd::prelude::*;

use crate::error::{detailed, fail, Error, ErrorKind, ErrorView};

verus! {

pub const DELTA_INT_ID: u32 = 1;
pub const ZIGZAG_ID: u32 = 3;
pub const TRANSPOSE_SPLIT_ID: u32 = 4;
pub const CONVERT_SERIAL_TO_STRUCT_ID: u32 = 5;
pub const CONVERT_STRUCT_TO_SERIAL_ID: u32 = 6;
pub const CONVERT_STRUCT_TO_NUM_LE_ID: u32 = 7;
pub const CONVERT_NUM_TO_STRUCT_LE_ID: u32 = 8;
pub const CONVERT_SERIAL_TO_NUM_LE_ID: u32 = 9;
pub const CONVERT_NUM_TO_SERIAL_LE_ID: u32 = 10;
pub const CONVERT_STRING_TO_SERIAL_ID: u32 = 11;
pub const SEPARATE_STRING_COMPONENTS_ID: u32 = 12;
pub const CONVERT_STRUCT_TO_NUM_BE_ID: u32 = 13;
pub const CONVERT_SERIAL_TO_NUM_BE_ID: u32 = 14;
pub const SENTINEL_ID: u32 = 18;
pub const LZ_ID: u32 = 19;
pub const ZSTD_ID: u32 = 22;
pub const FIELD_LZ_ID: u32 = 24;
pub const QUANTIZE_OFFSETS_ID: u32 = 25;
pub const QUANTIZE_LENGTHS_ID: u32 = 26;
pub const BITPACK_SERIAL_ID: u32 = 27;
pub const BITPACK_INT_ID: u32 = 28;
pub const FLATPACK_ID: u32 = 29;
pub const TRANSPOSE_SPLIT2_ID: u32 = 30;
pub const TRANSPOSE_SPLIT4_ID: u32 = 31;
pub const TRANSPOSE_SPLIT8_ID: u32 = 32;
pub const BITUNPACK_ID: u32 = 34;
pub const RANGE_PACK_ID: u32 = 35;
pub const TOKENIZE_FIXED_ID: u32 = 36;
pub const TOKENIZE_NUMERIC_ID: u32 = 37;
pub const SPLITN_ID: u32 = 40;
pub const SPLIT_BY_STRUCT_ID: u32 = 41;
pub const DISPATCH_N_BY_TAG_ID: u32 = 42;
pub const CONSTANT_SERIAL_ID: u32 = 44;
pub const CONSTANT_FIXED_ID: u32 = 45;
pub const SPLITN_STRUCT_ID: u32 = 47;
pub const SPLITN_NUM_ID: u32 = 48;
pub const FSE_V2_ID: u32 = 49;
pub const HUFFMAN_V2_ID: u32 = 50;
pub const FSE_NCOUNT_ID: u32 = 52;
pub const DIVIDE_BY_ID: u32 = 53;
pub const DISPATCH_STRING_ID: u32 = 54;
pub const CONCAT_SERIAL_ID: u32 = 55;
pub const CONCAT_NUM_ID: u32 = 57;
pub const CONCAT_STRUCT_ID: u32 = 58;
pub const PARSE_INT_ID: u32 = 60;
pub const LZ4_ID: u32 = 62;
pub const BIT_SPLIT_ID: u32 = 63;
pub const PARTITION_ID: u32 = 64;
pub const MUX_LENGTHS_ID: u32 = 65;
pub const SPARSE_NUM_ID: u32 = 66;
pub const PIVCO_HUFFMAN_ID: u32 = 67;

/// The format version that introduced each standard transform.
pub open spec fn spec_min_version(id: u32) -> Option<u32> {
    if 1 <= id <= 3 || 5 <= id <= 10 || 15 <= id <= 17 || 20 <= id <= 32 {
        Some(3)
    } else if id == 33 {
        Some(4)
    } else if id == 34 {
        Some(6)
    } else if 35 <= id <= 37 {
        Some(8)
    } else if 40 <= id <= 43 {
        Some(9)
    } else if id == 11 || id == 12 || id == 38 || 44 <= id <= 46 {
        Some(11)
    } else if id == 4 || id == 47 || id == 48 {
        Some(14)
    } else if 49 <= id <= 52 {
        Some(15)
    } else if 53 <= id <= 56 {
        Some(16)
    } else if id == 57 || id == 58 {
        Some(17)
    } else if id == 59 {
        Some(18)
    } else if id == 60 {
        Some(19)
    } else if id == 61 {
        Some(20)
    } else if id == 13 || id == 14 {
        Some(21)
    } else if id == 62 {
        Some(23)
    } else if id == 18 || id == 19 || 63 <= id <= 65 {
        Some(24)
    } else if id == 66 {
        Some(26)
    } else if id == 67 {
        Some(27)
    } else {
        None
    }
}

/// Returns the format version that introduced the standard transform `id`, or
/// `None` for an identifier that no version defines.
pub fn min_version(id: u32) -> (version: Option<u32>)
    ensures
        version == spec_min_version(id),
{
    match id {
        1..=3 | 5..=10 | 15..=17 | 20..=32 => Some(3),
        33 => Some(4),
        34 => Some(6),
        35..=37 => Some(8),
        40..=43 => Some(9),
        11 | 12 | 38 | 44..=46 => Some(11),
        4 | 47 | 48 => Some(14),
        49..=52 => Some(15),
        53..=56 => Some(16),
        57 | 58 => Some(17),
        59 => Some(18),
        60 => Some(19),
        61 => Some(20),
        13 | 14 => Some(21),
        62 => Some(23),
        18 | 19 | 63..=65 => Some(24),
        66 => Some(26),
        67 => Some(27),
        _ => None,
    }
}

/// The error, if any, of using transform `id` in a frame of a format version.
pub open spec fn transform_id_error(id: u32, format_version: u32) -> Option<ErrorView> {
    match spec_min_version(id) {
        None => Some(
            detailed(ErrorKind::Unsupported, "unknown OpenZL standard transform ID"@),
        ),
        Some(minimum) => if format_version < minimum {
            Some(
                detailed(
                    ErrorKind::Unsupported,
                    "standard transform ID is not available in this format version"@,
                ),
            )
        } else {
            None
        },
    }
}

/// Checks that transform `id` exists in a frame of the given format version.
pub fn validate_transform_id(id: u32, format_version: u32) -> (result: Result<(), Error>)
    ensures
        match result {
            Ok(_) => transform_id_error(id, format_version) is None,
            Err(error) => transform_id_error(id, format_version) == Some(error@),
        },
{
    match min_version(id) {
        None => Err(fail(ErrorKind::Unsupported, "unknown OpenZL standard transform ID")),
        Some(minimum) => {
            if format_version < minimum {
                return Err(
                    fail(
                        ErrorKind::Unsupported,
                        "standard transform ID is not available in this format version",
                    ),
                );
            }
            Ok(())
        },
    }
}

/// A transform that a format version admits, every later version admits too.
pub proof fn law_transform_stays_available(id: u32, version: u32, later: u32)
    requires
        transform_id_error(id, version) is None,
        version <= later,
    ensures
        transform_id_error(id, later) is None,
{
}

} // verus!
