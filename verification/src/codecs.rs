//! What the zstd and lz4 decoders and the frame checksum compute.

use vstd::prelude::*;

use crate::bytes::{read_var_u64, var_u64};
use crate::error::{detailed, fail, outcome, plain_outcome, Error, ErrorKind, ErrorView};
use crate::limits::{check_output_limit, output_limit_error, Limits};

verus! {

/// Why a zstd frame cannot be decoded.
#[derive(Clone, Copy, Debug, PartialEq, Eq, Structural)]
pub enum ZstdFailure {
    OutputTooSmall,
    Other,
}

/// What a zstd frame without its magic number decodes to, within a limit.
pub uninterp spec fn zstd_frame(frame: Seq<u8>, limit: nat) -> Result<Seq<u8>, ZstdFailure>;

/// What a zstd frame without its magic number decodes to with a dictionary, within
/// a limit.
pub uninterp spec fn zstd_dictionary_frame(
    frame: Seq<u8>,
    dictionary: Seq<u8>,
    limit: nat,
) -> Result<Seq<u8>, ZstdFailure>;

/// Whether some bytes are a zstd dictionary.
pub uninterp spec fn zstd_dictionary(bytes: Seq<u8>) -> bool;

/// What an lz4 block leaves in a buffer of `size` zeros, and how many bytes of it
/// are output.
pub uninterp spec fn lz4_block(block: Seq<u8>, size: nat) -> Option<(Seq<u8>, nat)>;

/// The 64-bit XXH3 hash of some bytes.
pub uninterp spec fn xxh3_hash(bytes: Seq<u8>) -> u64;

/// The view of a decoded zstd frame.
pub open spec fn zstd_view(result: Result<Vec<u8>, ZstdFailure>) -> Result<Seq<u8>, ZstdFailure> {
    match result {
        Ok(bytes) => Ok(bytes@),
        Err(failure) => Err(failure),
    }
}

/// Decodes a zstd frame, by `DecompressContext::decompress_after_magic_into` of
/// `zrip` on a context without a dictionary: no more than `limit` bytes come out.
#[verifier::external_body]
fn run_zstd(frame: &[u8], limit: usize) -> (result: Result<Vec<u8>, ZstdFailure>)
    ensures
        zstd_view(result) == zstd_frame(frame@, limit as nat),
        result is Ok ==> result->Ok_0@.len() <= limit,
{
    let mut output = Vec::new();
    match zrip::DecompressContext::new().decompress_after_magic_into(frame, &mut output, limit) {
        Ok(_) => Ok(output),
        Err(zrip::DecompressError::OutputTooSmall) => Err(ZstdFailure::OutputTooSmall),
        Err(_) => Err(ZstdFailure::Other),
    }
}

/// Decodes a zstd frame with a dictionary, by
/// `DecompressContext::decompress_after_magic_into` of `zrip` on a context with the
/// dictionary that `Dictionary::from_bytes` makes of the bytes: no more than `limit`
/// bytes come out. Bytes that are no dictionary fail.
#[verifier::external_body]
fn run_zstd_with_dictionary(frame: &[u8], dictionary: &[u8], limit: usize) -> (result: Result<
    Vec<u8>,
    ZstdFailure,
>)
    ensures
        zstd_view(result) == zstd_dictionary_frame(frame@, dictionary@, limit as nat),
        result is Ok ==> result->Ok_0@.len() <= limit,
{
    let dictionary = zrip::Dictionary::from_bytes(dictionary).map_err(|_| ZstdFailure::Other)?;
    let mut context = zrip::DecompressContext::with_dict(dictionary);
    let mut output = Vec::new();
    match context.decompress_after_magic_into(frame, &mut output, limit) {
        Ok(_) => Ok(output),
        Err(zrip::DecompressError::OutputTooSmall) => Err(ZstdFailure::OutputTooSmall),
        Err(_) => Err(ZstdFailure::Other),
    }
}

/// Tells whether `Dictionary::from_bytes` of `zrip` accepts some bytes.
#[verifier::external_body]
pub(crate) fn is_zstd_dictionary(bytes: &[u8]) -> (accepted: bool)
    ensures
        accepted == zstd_dictionary(bytes@),
{
    zrip::Dictionary::from_bytes(bytes).is_ok()
}

/// Decodes an lz4 block, by `block::decompress_into` of `lz4rip` into a buffer of
/// `size` zeros.
#[verifier::external_body]
fn run_lz4(block: &[u8], size: usize) -> (result: Option<(Vec<u8>, usize)>)
    ensures
        match result {
            Some((buffer, written)) => lz4_block(block@, size as nat) == Some(
                (buffer@, written as nat),
            ) && buffer@.len() == size,
            None => lz4_block(block@, size as nat) is None,
        },
{
    let mut buffer = vec![0; size];
    match lz4rip::block::decompress_into(block, &mut buffer) {
        Ok(written) => Some((buffer, written)),
        Err(_) => None,
    }
}

/// Hashes some bytes, by `xxh3::xxh3_64` of `xxhash_rust`.
#[verifier::external_body]
pub(crate) fn hash_bytes(bytes: &[u8]) -> (hash: u64)
    ensures
        hash == xxh3_hash(bytes@),
{
    xxhash_rust::xxh3::xxh3_64(bytes)
}

/// The error that a failed zstd frame comes back as.
pub open spec fn zstd_error(failure: ZstdFailure) -> ErrorView {
    match failure {
        ZstdFailure::OutputTooSmall => output_limit_error(),
        ZstdFailure::Other => detailed(ErrorKind::Malformed, "OpenZL zstd frame failed"@),
    }
}

/// Makes an error of a failed zstd frame.
pub fn map_zstd_error(failure: ZstdFailure) -> (error: Error)
    ensures
        error@ == zstd_error(failure),
{
    match failure {
        ZstdFailure::OutputTooSmall => {
            fail(ErrorKind::LimitExceeded, "decoded output limit exceeded")
        },
        ZstdFailure::Other => fail(ErrorKind::Malformed, "OpenZL zstd frame failed"),
    }
}

/// What a decoded zstd frame comes to under the limits.
pub open spec fn zstd_within(decoded: Result<Seq<u8>, ZstdFailure>, limits: Limits) -> Result<
    Seq<u8>,
    ErrorView,
> {
    match decoded {
        Err(failure) => Err(zstd_error(failure)),
        Ok(bytes) => if bytes.len() > limits.max_buffer_bytes {
            Err(output_limit_error())
        } else {
            Ok(bytes)
        },
    }
}

/// Holds a decoded zstd frame to the limits.
pub fn finish_zstd(decoded: Result<Vec<u8>, ZstdFailure>, limits: Limits) -> (result: Result<
    Vec<u8>,
    Error,
>)
    ensures
        outcome(result) == zstd_within(zstd_view(decoded), limits),
{
    match decoded {
        Err(failure) => Err(map_zstd_error(failure)),
        Ok(bytes) => {
            if bytes.len() > limits.max_buffer_bytes {
                return Err(fail(ErrorKind::LimitExceeded, "decoded output limit exceeded"));
            }
            Ok(bytes)
        },
    }
}

/// What a zstd frame without its magic number comes to, with a dictionary or
/// without.
pub open spec fn zstd_magicless(
    frame: Seq<u8>,
    dictionary: Option<Seq<u8>>,
    limits: Limits,
) -> Result<Seq<u8>, ErrorView> {
    zstd_within(
        match dictionary {
            Some(dictionary) => zstd_dictionary_frame(
                frame,
                dictionary,
                limits.max_decoded_bytes as nat,
            ),
            None => zstd_frame(frame, limits.max_decoded_bytes as nat),
        },
        limits,
    )
}

/// Decodes a zstd frame without its magic number.
pub fn decode_zstd_magicless(frame: &[u8], limits: Limits) -> (result: Result<Vec<u8>, Error>)
    ensures
        outcome(result) == zstd_magicless(frame@, None, limits),
        result is Ok ==> limits.admits(result->Ok_0@.len() as int),
{
    finish_zstd(run_zstd(frame, limits.max_decoded_bytes), limits)
}

/// Decodes a zstd frame without its magic number with a dictionary.
pub fn decode_zstd_magicless_with_dictionary(
    frame: &[u8],
    dictionary: &[u8],
    limits: Limits,
) -> (result: Result<Vec<u8>, Error>)
    ensures
        outcome(result) == zstd_magicless(frame@, Some(dictionary@), limits),
        result is Ok ==> limits.admits(result->Ok_0@.len() as int),
{
    finish_zstd(run_zstd_with_dictionary(frame, dictionary, limits.max_decoded_bytes), limits)
}

/// The one integer that a header holds.
pub open spec fn single_varint(header: Seq<u8>) -> Result<usize, ErrorView> {
    match var_u64(header, 0) {
        Err(error) => Err(error),
        Ok((value, end)) => if end != header.len() {
            Err(detailed(ErrorKind::Malformed, "unexpected transform header bytes"@))
        } else if value > usize::MAX {
            Err(detailed(ErrorKind::LimitExceeded, "transform header value is too large"@))
        } else {
            Ok(value as usize)
        },
    }
}

/// Reads the one integer that a header holds.
pub fn read_single_varint_header(header: &[u8]) -> (result: Result<usize, Error>)
    ensures
        plain_outcome(result) == single_varint(header@),
{
    let mut offset: usize = 0;
    let value: u64 = read_var_u64(header, &mut offset)?;
    if offset != header.len() {
        return Err(fail(ErrorKind::Malformed, "unexpected transform header bytes"));
    }
    if value > usize::MAX as u64 {
        return Err(fail(ErrorKind::LimitExceeded, "transform header value is too large"));
    }
    Ok(value as usize)
}

/// What a decoded lz4 block of `size` bytes comes to.
pub open spec fn lz4_within(decoded: Option<(Seq<u8>, nat)>, size: nat) -> Result<
    Seq<u8>,
    ErrorView,
> {
    match decoded {
        None => Err(detailed(ErrorKind::Malformed, "OpenZL lz4 block failed"@)),
        Some((buffer, written)) => if written != size {
            Err(detailed(ErrorKind::Malformed, "OpenZL lz4 output size mismatch"@))
        } else {
            Ok(buffer)
        },
    }
}

/// Holds a decoded lz4 block to the size that was announced.
pub fn finish_lz4(decoded: Option<(Vec<u8>, usize)>, size: usize) -> (result: Result<
    Vec<u8>,
    Error,
>)
    ensures
        outcome(result) == lz4_within(
            match decoded {
                Some((buffer, written)) => Some((buffer@, written as nat)),
                None => None,
            },
            size as nat,
        ),
{
    match decoded {
        None => Err(fail(ErrorKind::Malformed, "OpenZL lz4 block failed")),
        Some((buffer, written)) => {
            if written != size {
                return Err(fail(ErrorKind::Malformed, "OpenZL lz4 output size mismatch"));
            }
            Ok(buffer)
        },
    }
}

/// What an lz4 node produces.
pub open spec fn lz4_node(stored: Seq<u8>, header: Seq<u8>, limits: Limits) -> Result<
    Seq<u8>,
    ErrorView,
> {
    match single_varint(header) {
        Err(error) => Err(error),
        Ok(size) => if !limits.admits(size as int) {
            Err(output_limit_error())
        } else {
            lz4_within(lz4_block(stored, size as nat), size as nat)
        },
    }
}

/// Decodes an lz4 node.
pub fn decode_lz4_chunk(stored: &[u8], header: &[u8], limits: Limits) -> (result: Result<
    Vec<u8>,
    Error,
>)
    ensures
        outcome(result) == lz4_node(stored@, header@, limits),
        match single_varint(header@) {
            Ok(size) => result is Ok ==> result->Ok_0@.len() == size,
            Err(_) => result is Err,
        },
{
    let size: usize = read_single_varint_header(header)?;
    check_output_limit(size, limits)?;
    finish_lz4(run_lz4(stored, size), size)
}

} // verus!
