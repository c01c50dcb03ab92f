//! What a parsed frame holds: its metadata, and where its chunks lie.

use vstd::prelude::*;
use vstd::slice::slice_subrange;

use crate::error::{located, Error, ErrorKind, ErrorView};

verus! {

/// The type of a value that a frame regenerates.
#[derive(Clone, Copy, Debug, PartialEq, Eq, Structural)]
pub enum FrameValueType {
    Serial,
    Struct,
    Numeric,
    String,
}

/// What a frame says of itself.
#[derive(Clone, Debug, PartialEq, Eq)]
pub struct FrameInfo {
    pub format_version: u32,
    pub frame_bytes: usize,
    pub header_bytes: usize,
    pub decoded_bytes: Option<usize>,
    pub chunks: usize,
    pub inputs: usize,
    pub output_types: Vec<FrameValueType>,
    pub output_sizes: Vec<Option<u64>>,
    pub output_elements: Vec<Option<u64>>,
    pub transforms: usize,
    pub stored_streams: usize,
    pub regenerated_streams: usize,
    pub has_decoded_checksum: bool,
    pub has_encoded_checksum: bool,
    pub has_comment: bool,
    pub dictionary_bundle_id: Option<Vec<u8>>,
}

/// The mathematical content of a [`FrameInfo`].
#[verifier::ext_equal]
pub struct FrameInfoView {
    pub format_version: u32,
    pub frame_bytes: usize,
    pub header_bytes: usize,
    pub decoded_bytes: Option<usize>,
    pub chunks: usize,
    pub inputs: usize,
    pub output_types: Seq<FrameValueType>,
    pub output_sizes: Seq<Option<u64>>,
    pub output_elements: Seq<Option<u64>>,
    pub transforms: usize,
    pub stored_streams: usize,
    pub regenerated_streams: usize,
    pub has_decoded_checksum: bool,
    pub has_encoded_checksum: bool,
    pub has_comment: bool,
    pub dictionary_bundle_id: Option<Seq<u8>>,
}

impl View for FrameInfo {
    type V = FrameInfoView;

    open spec fn view(&self) -> FrameInfoView {
        FrameInfoView {
            format_version: self.format_version,
            frame_bytes: self.frame_bytes,
            header_bytes: self.header_bytes,
            decoded_bytes: self.decoded_bytes,
            chunks: self.chunks,
            inputs: self.inputs,
            output_types: self.output_types@,
            output_sizes: self.output_sizes@,
            output_elements: self.output_elements@,
            transforms: self.transforms,
            stored_streams: self.stored_streams,
            regenerated_streams: self.regenerated_streams,
            has_decoded_checksum: self.has_decoded_checksum,
            has_encoded_checksum: self.has_encoded_checksum,
            has_comment: self.has_comment,
            dictionary_bundle_id: match self.dictionary_bundle_id {
                Some(id) => Some(id@),
                None => None,
            },
        }
    }
}

/// Where some bytes of a frame lie.
#[derive(Clone, Copy, Debug, PartialEq, Eq, Structural)]
pub struct ByteRange {
    pub start: usize,
    pub end: usize,
}

/// The bytes of a range, or why there are none.
pub open spec fn range_bytes(range: ByteRange, input: Seq<u8>) -> Result<Seq<u8>, ErrorView> {
    if range.start > range.end || range.end > input.len() {
        Err(located(ErrorKind::Truncated, range.start as int))
    } else {
        Ok(input.subrange(range.start as int, range.end as int))
    }
}

impl ByteRange {
    /// The bytes of the range.
    pub fn as_slice<'a>(&self, input: &'a [u8]) -> (result: Result<&'a [u8], Error>)
        ensures
            match result {
                Ok(bytes) => range_bytes(*self, input@) == Ok::<Seq<u8>, ErrorView>(bytes@),
                Err(error) => range_bytes(*self, input@) == Err::<Seq<u8>, ErrorView>(error@),
            },
    {
        if self.start > self.end || self.end > input.len() {
            return Err(Error::at(ErrorKind::Truncated, self.start));
        }
        Ok(slice_subrange(input, self.start, self.end))
    }
}

/// A transform of a chunk. Its outputs stand `regen_distances` streams behind its
/// last input.
#[derive(Debug)]
pub struct NodePlan {
    pub standard_id: Option<u32>,
    pub variable_outputs: u32,
    pub regen_distances: Vec<u32>,
    pub dict_index: Option<u32>,
    pub transform_header_start: usize,
    pub transform_header_size: usize,
}

/// The mathematical content of a [`NodePlan`].
#[verifier::ext_equal]
pub struct NodeView {
    pub standard_id: Option<u32>,
    pub variable_outputs: u32,
    pub regen_distances: Seq<u32>,
    pub dict_index: Option<u32>,
    pub header_start: usize,
    pub header_size: usize,
}

impl View for NodePlan {
    type V = NodeView;

    open spec fn view(&self) -> NodeView {
        NodeView {
            standard_id: self.standard_id,
            variable_outputs: self.variable_outputs,
            regen_distances: self.regen_distances@,
            dict_index: self.dict_index,
            header_start: self.transform_header_start,
            header_size: self.transform_header_size,
        }
    }
}

/// The contents of a list of transforms.
pub open spec fn node_views(nodes: Seq<NodePlan>) -> Seq<NodeView> {
    Seq::new(nodes.len(), |i: int| nodes[i]@)
}

/// A chunk: its transforms, and where its stored streams and the transform headers
/// lie.
#[derive(Debug)]
pub struct ChunkPlan {
    pub nodes: Vec<NodePlan>,
    pub stored: Vec<ByteRange>,
    pub regenerated: usize,
    pub headers: ByteRange,
    pub decoded_checksum: Option<u32>,
}

/// The mathematical content of a [`ChunkPlan`].
#[verifier::ext_equal]
pub struct ChunkView {
    pub nodes: Seq<NodeView>,
    pub stored: Seq<ByteRange>,
    pub regenerated: usize,
    pub headers: ByteRange,
    pub decoded_checksum: Option<u32>,
}

impl View for ChunkPlan {
    type V = ChunkView;

    open spec fn view(&self) -> ChunkView {
        ChunkView {
            nodes: node_views(self.nodes@),
            stored: self.stored@,
            regenerated: self.regenerated,
            headers: self.headers,
            decoded_checksum: self.decoded_checksum,
        }
    }
}

impl ChunkPlan {
    /// Tells whether the chunk has transforms.
    pub fn has_nodes(&self) -> (has: bool)
        ensures
            has == (self@.nodes.len() > 0),
    {
        self.nodes.len() > 0
    }

    /// Where a stored stream lies.
    pub fn stored_stream_range(&self, index: usize) -> (range: Option<ByteRange>)
        ensures
            range == (if index < self@.stored.len() {
                Some(self@.stored[index as int])
            } else {
                None
            }),
    {
        if index < self.stored.len() {
            Some(self.stored[index])
        } else {
            None
        }
    }
}

/// The contents of a list of chunks.
pub open spec fn chunk_views(chunks: Seq<ChunkPlan>) -> Seq<ChunkView> {
    Seq::new(chunks.len(), |i: int| chunks[i]@)
}

/// A parsed frame.
#[derive(Debug)]
pub struct FramePlan {
    pub info: FrameInfo,
    pub chunks: Vec<ChunkPlan>,
}

/// The mathematical content of a [`FramePlan`].
#[verifier::ext_equal]
pub struct FrameView {
    pub info: FrameInfoView,
    pub chunks: Seq<ChunkView>,
}

impl View for FramePlan {
    type V = FrameView;

    open spec fn view(&self) -> FrameView {
        FrameView { info: self.info@, chunks: chunk_views(self.chunks@) }
    }
}

} // verus!
