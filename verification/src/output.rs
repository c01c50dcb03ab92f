//! Checks on what a frame decodes to.

use vstd::prelude::*;

use crate::codecs::{hash_bytes, xxh3_hash};
use crate::error::{detailed, fail, Error, ErrorKind, ErrorView};
use crate::frame_plan::{FrameInfo, FrameInfoView};
use crate::limits::{check_output_limit, output_limit_error, Limits};

verus! {

/// The error, if any, of decoding `total` bytes out of a frame of `frame_bytes` bytes.
pub open spec fn output_size_error(
    total: nat,
    frame_bytes: nat,
    info: FrameInfoView,
    limits: Limits,
) -> Option<ErrorView> {
    if !limits.admits(total as int) {
        Some(output_limit_error())
    } else if info.output_sizes.len() > 0 && (info.output_sizes[0] matches Some(size) && size
        != total) {
        Some(detailed(ErrorKind::Malformed, "decoded output size mismatch"@))
    } else if total > frame_bytes * limits.max_expansion_ratio {
        Some(detailed(ErrorKind::LimitExceeded, "expansion ratio exceeded"@))
    } else {
        None
    }
}

/// Checks how many bytes a frame decoded to.
pub fn check_output_size(total: usize, frame_bytes: usize, info: &FrameInfo, limits: Limits) -> (result:
    Result<(), Error>)
    ensures
        match result {
            Ok(_) => output_size_error(total as nat, frame_bytes as nat, info@, limits) is None,
            Err(error) => output_size_error(total as nat, frame_bytes as nat, info@, limits)
                == Some(error@),
        },
{
    check_output_limit(total, limits)?;
    if info.output_sizes.len() > 0 {
        match info.output_sizes[0] {
            Some(size) => {
                if size != total as u64 {
                    return Err(fail(ErrorKind::Malformed, "decoded output size mismatch"));
                }
            },
            None => {},
        }
    }
    match frame_bytes.checked_mul(limits.max_expansion_ratio) {
        Some(most) => {
            if total > most {
                return Err(fail(ErrorKind::LimitExceeded, "expansion ratio exceeded"));
            }
        },
        None => {},
    }
    Ok(())
}

/// The error, if any, of a decoded chunk with a stated checksum.
pub open spec fn decoded_checksum_error(decoded: Seq<u8>, stated: Option<u32>) -> Option<ErrorView> {
    match stated {
        Some(checksum) => if xxh3_hash(decoded) % 0x1_0000_0000 != checksum {
            Some(detailed(ErrorKind::ChecksumMismatch, "decoded checksum mismatch"@))
        } else {
            None
        },
        None => None,
    }
}

/// Checks a decoded chunk against its stated checksum.
pub fn verify_decoded_checksum(decoded: &[u8], stated: Option<u32>) -> (result: Result<(), Error>)
    ensures
        match result {
            Ok(_) => decoded_checksum_error(decoded@, stated) is None,
            Err(error) => decoded_checksum_error(decoded@, stated) == Some(error@),
        },
{
    match stated {
        Some(checksum) => {
            if hash_bytes(decoded) % 0x1_0000_0000 != checksum as u64 {
                return Err(fail(ErrorKind::ChecksumMismatch, "decoded checksum mismatch"));
            }
            Ok(())
        },
        None => Ok(()),
    }
}

} // verus!
