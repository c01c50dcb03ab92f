//! Defensive bounds on what a frame may ask of the decoder.

use vstd::prelude::*;

use crate::error::{detailed, fail, Error, ErrorKind, ErrorView};

verus! {

/// Parser, graph, allocation and expansion limits. A frame has at most `u32::MAX`
/// transforms and as many streams even where `max_nodes` and `max_streams` are larger, and
/// no more than a thirty-second of `usize::MAX`, as the distances between streams take up
/// to 32 bits and are counted by the bit.
#[derive(Clone, Copy, Debug, PartialEq, Eq, Structural)]
pub struct Limits {
    pub max_frame_bytes: usize,
    pub max_decoded_bytes: usize,
    pub max_chunks: usize,
    pub max_nodes: usize,
    pub max_streams: usize,
    pub max_transform_header_bytes: usize,
    pub max_stored_stream_bytes: usize,
    pub max_buffer_bytes: usize,
    /// Not read by this library, so lowering it refuses nothing: the streams of a chunk
    /// stand in one row in which every transform writes behind what it reads, and no depth
    /// is counted.
    pub max_graph_depth: usize,
    pub max_expansion_ratio: usize,
}

/// The default limits.
pub open spec fn strict_limits() -> Limits {
    Limits {
        max_frame_bytes: 67_108_864,
        max_decoded_bytes: 67_108_864,
        max_chunks: 16_384,
        max_nodes: 65_536,
        max_streams: 131_072,
        max_transform_header_bytes: 16_777_216,
        max_stored_stream_bytes: 67_108_864,
        max_buffer_bytes: 67_108_864,
        max_graph_depth: 1024,
        max_expansion_ratio: 256,
    }
}

/// Tighter limits for hostile input.
pub open spec fn paranoid_limits() -> Limits {
    Limits {
        max_frame_bytes: 16_777_216,
        max_decoded_bytes: 16_777_216,
        max_chunks: 4096,
        max_nodes: 16_384,
        max_streams: 32_768,
        max_transform_header_bytes: 4_194_304,
        max_stored_stream_bytes: 16_777_216,
        max_buffer_bytes: 16_777_216,
        max_graph_depth: 256,
        max_expansion_ratio: 64,
    }
}

impl Limits {
    pub fn strict() -> (limits: Self)
        ensures
            limits == strict_limits(),
    {
        Limits {
            max_frame_bytes: 64 * 1024 * 1024,
            max_decoded_bytes: 64 * 1024 * 1024,
            max_chunks: 16_384,
            max_nodes: 65_536,
            max_streams: 131_072,
            max_transform_header_bytes: 16 * 1024 * 1024,
            max_stored_stream_bytes: 64 * 1024 * 1024,
            max_buffer_bytes: 64 * 1024 * 1024,
            max_graph_depth: 1024,
            max_expansion_ratio: 256,
        }
    }

    pub fn paranoid() -> (limits: Self)
        ensures
            limits == paranoid_limits(),
    {
        Limits {
            max_frame_bytes: 16 * 1024 * 1024,
            max_decoded_bytes: 16 * 1024 * 1024,
            max_chunks: 4096,
            max_nodes: 16_384,
            max_streams: 32_768,
            max_transform_header_bytes: 4 * 1024 * 1024,
            max_stored_stream_bytes: 16 * 1024 * 1024,
            max_buffer_bytes: 16 * 1024 * 1024,
            max_graph_depth: 256,
            max_expansion_ratio: 64,
        }
    }

    /// Whether a decoded buffer of `len` bytes is within the decoded-size and
    /// buffer limits.
    pub open spec fn admits(self, len: int) -> bool {
        len <= self.max_decoded_bytes && len <= self.max_buffer_bytes
    }
}

impl Default for Limits {
    fn default() -> (limits: Self)
        ensures
            limits == strict_limits(),
    {
        Limits::strict()
    }
}

/// The error for a decoded buffer that the limits do not admit.
pub open spec fn output_limit_error() -> ErrorView {
    detailed(ErrorKind::LimitExceeded, "decoded output limit exceeded"@)
}

/// Checks a decoded buffer size against the limits.
pub(crate) fn check_output_limit(len: usize, limits: Limits) -> (result: Result<(), Error>)
    ensures
        match result {
            Ok(_) => limits.admits(len as int),
            Err(error) => !limits.admits(len as int) && error@ == output_limit_error(),
        },
{
    if len > limits.max_decoded_bytes || len > limits.max_buffer_bytes {
        return Err(fail(ErrorKind::LimitExceeded, "decoded output limit exceeded"));
    }
    Ok(())
}

} // verus!
