//! The decoder as a whole.

use ozlrip::codecs::{finish_lz4, finish_zstd, ZstdFailure};
use ozlrip::decode_plan::{decode_plan, decode_plan_with_execution_mode, PlanExecutionMode};
use ozlrip::dict::DictionaryStore;
use ozlrip::direct_append::{prepare_chunk_execution_plans, prepare_direct_append_chunk_plans};
use ozlrip::frame_plan::{ByteRange, ChunkPlan, NodePlan};
use ozlrip::graph::{build_chunk_execution_plan, standard_node_input_count};
use ozlrip::parse::parse_frame_plan;
use ozlrip::scratch::DecodeScratch;
use ozlrip::standard;
use ozlrip::{
    Decoder, Error, ErrorKind, FrameValueType, Limits, Options,
    DEFAULT_PLAN_CACHE_MAX_FRAME_BYTES,
};

fn push_var_u64(out: &mut Vec<u8>, mut value: u64) {
    while value >= 0x80 {
        out.push(u8::try_from(value & 0x7f).unwrap() | 0x80);
        value >>= 7;
    }
    out.push(u8::try_from(value).unwrap());
}

fn header(version: u32, decoded_len: usize) -> Vec<u8> {
    let mut input = (0xd7b1_a5c0u32 + version).to_le_bytes().to_vec();
    input.push(0);
    input.push(1);
    push_var_u64(&mut input, u64::try_from(decoded_len + 1).unwrap());
    input
}

fn stored_frame(bytes: &[u8]) -> Vec<u8> {
    let mut input = header(21, bytes.len());
    input.push(1);
    input.push(1);
    push_var_u64(&mut input, u64::try_from(bytes.len()).unwrap());
    input.extend_from_slice(bytes);
    input.push(0);
    input
}

fn transform_frame(id: u8, transform_header: &[u8], stored: &[u8], decoded_len: usize) -> Vec<u8> {
    let mut input = header(21, decoded_len);
    input.extend_from_slice(&[2, 1, 0, id]);
    if transform_header.is_empty() {
        input.push(0);
    } else {
        input.push(1);
        push_var_u64(&mut input, u64::try_from(transform_header.len() - 1).unwrap());
    }
    input.extend_from_slice(&[0, 0, 0]);
    push_var_u64(&mut input, u64::try_from(stored.len()).unwrap());
    input.extend_from_slice(transform_header);
    input.extend_from_slice(stored);
    input.push(0);
    input
}

/// A zstd transform behind which a conversion stands.
fn converted_zstd_frame(bytes: &[u8]) -> Vec<u8> {
    let compressed = zrip::compress(bytes, 1).unwrap();
    let mut stored = vec![1];
    stored.extend_from_slice(&compressed[4..]);
    let mut input = header(21, bytes.len());
    // Two transforms, one stored stream; the identifiers 22 and 5 take six bits each.
    input.extend_from_slice(&[3, 1, 0]);
    let ids = 22u16 | (5 << 6);
    input.extend_from_slice(&ids.to_le_bytes());
    input.extend_from_slice(&[0, 0, 0]);
    // Each output stands right behind its input.
    input.push(0);
    push_var_u64(&mut input, u64::try_from(stored.len()).unwrap());
    input.extend_from_slice(&stored);
    input.push(0);
    input
}

#[test]
fn every_entry_point_decodes_a_frame() {
    let frame = stored_frame(b"bytes");
    assert_eq!(ozlrip::decode(&frame).unwrap(), b"bytes");
    let mut dst = b"some ".to_vec();
    assert_eq!(ozlrip::decode_into(&frame, &mut dst).unwrap(), 5);
    assert_eq!(dst, b"some bytes");
    let options = Options {
        limits: Limits::strict(),
        plan_cache_max_frame_bytes: 0,
        ..Options::default()
    };
    assert_eq!(ozlrip::decode_with_options(&frame, options).unwrap(), b"bytes");
    let mut dst = Vec::new();
    assert_eq!(ozlrip::decode_into_with_options(&frame, &mut dst, options).unwrap(), 5);
    assert_eq!(dst, b"bytes");
}

#[test]
fn inspection_reads_what_a_frame_says_of_itself() {
    let frame = transform_frame(44, &[3], b"x", 3);
    let info = ozlrip::inspect(&frame).unwrap();
    assert_eq!(info.format_version, 21);
    assert_eq!(info.frame_bytes, frame.len());
    assert_eq!(info.decoded_bytes, Some(3));
    assert_eq!(info.chunks, 1);
    assert_eq!(info.transforms, 1);
    assert_eq!(info.stored_streams, 1);
    assert_eq!(info.regenerated_streams, 1);
    assert_eq!(info.output_types, [FrameValueType::Serial]);
    assert_eq!(info.output_sizes, [Some(3)]);
    assert!(!info.has_decoded_checksum);
    assert_eq!(info.dictionary_bundle_id, None);
    assert_eq!(ozlrip::inspect_with_options(&frame, Options::default()).unwrap(), info);
    assert_eq!(Decoder::new().inspect(&frame).unwrap(), info);
    assert_eq!(parse_frame_plan(&frame, Limits::default()).unwrap().info, info);
}

#[test]
fn defaults_are_strict() {
    assert_eq!(Limits::default(), Limits::strict());
    assert_eq!(Limits::paranoid().max_chunks, 4096);
    assert_eq!(Limits::paranoid().max_expansion_ratio, 64);
    let options = Options::default();
    assert_eq!(options.limits, Limits::strict());
    assert_eq!(options.plan_cache_max_frame_bytes, DEFAULT_PLAN_CACHE_MAX_FRAME_BYTES);
    assert_eq!(DEFAULT_PLAN_CACHE_MAX_FRAME_BYTES, 4_194_304);
    let decoder = Decoder::default();
    assert_eq!(decoder.options(), options);
    assert_eq!(decoder.limits(), Limits::strict());
}

#[test]
fn a_kept_plan_changes_nothing() {
    let frames = [
        stored_frame(b"stored"),
        transform_frame(44, &[6], b"x", 6),
        converted_zstd_frame(b"zstd, then a conversion"),
    ];
    for frame in frames {
        let once = ozlrip::decode(&frame).unwrap();
        let mut keeping = Decoder::new();
        let mut forgetting = Decoder::with_options(Options {
            plan_cache_max_frame_bytes: 0,
            ..Options::default()
        });
        for _ in 0..3 {
            assert_eq!(keeping.decode(&frame).unwrap(), once);
            assert_eq!(forgetting.decode(&frame).unwrap(), once);
        }
    }
}

#[test]
fn a_frame_that_fails_fails_again() {
    let frame = transform_frame(44, &[6], b"x", 5);
    let mut decoder = Decoder::new();
    let first = decoder.decode(&frame).unwrap_err();
    let second = decoder.decode(&frame).unwrap_err();
    assert_eq!(first, second);
    assert_eq!(first.detail(), Some("decoded output size mismatch"));
    assert_eq!(decoder.decode(&stored_frame(b"next")).unwrap(), b"next");
}

#[test]
fn writing_directly_gives_what_collecting_gives() {
    let frame = converted_zstd_frame(b"zstd, then a conversion");
    let plan = parse_frame_plan(&frame, Limits::default()).unwrap();
    let direct = prepare_direct_append_chunk_plans(&plan).unwrap().unwrap();
    let collected = prepare_chunk_execution_plans(&plan).unwrap();
    let store = DictionaryStore::new();
    let mut scratch = DecodeScratch::new();
    for mode in [
        PlanExecutionMode::ComputeDirectAppend,
        PlanExecutionMode::UseDirectAppend(&direct),
        PlanExecutionMode::UseChunkPlans(&collected),
    ] {
        let mut dst = b"front: ".to_vec();
        let written = decode_plan_with_execution_mode(
            &frame,
            &plan,
            mode,
            &mut dst,
            Limits::default(),
            &mut scratch,
            &store,
        )
        .unwrap();
        assert_eq!(written, 23);
        assert_eq!(dst, b"front: zstd, then a conversion");
    }
}

#[test]
fn chunks_nodes_and_streams_are_limited() {
    let frame = transform_frame(44, &[3], b"x", 3);
    for limits in [
        Limits { max_frame_bytes: frame.len() - 1, ..Limits::default() },
        Limits { max_chunks: 0, ..Limits::default() },
        Limits { max_nodes: 0, ..Limits::default() },
        Limits { max_streams: 1, ..Limits::default() },
        Limits { max_stored_stream_bytes: 0, ..Limits::default() },
        Limits { max_transform_header_bytes: 0, ..Limits::default() },
    ] {
        let options = Options { limits, ..Options::default() };
        let err = ozlrip::decode_with_options(&frame, options).unwrap_err();
        assert_eq!(err.kind(), ErrorKind::LimitExceeded);
    }
}

#[test]
fn frames_end_where_they_say() {
    let frame = stored_frame(b"bytes");
    let mut longer = frame.clone();
    longer.push(0);
    let err = ozlrip::decode(&longer).unwrap_err();
    assert_eq!(err.kind(), ErrorKind::Malformed);
    assert_eq!(err.offset(), Some(frame.len()));
    let err = ozlrip::decode(&frame[..frame.len() - 1]).unwrap_err();
    assert_eq!(err.kind(), ErrorKind::Truncated);
}

#[test]
fn versions_outside_the_range_are_refused() {
    for version in [20, 28] {
        let mut frame = header(version, 0);
        frame.push(0);
        let err = ozlrip::decode(&frame).unwrap_err();
        assert_eq!(err.kind(), ErrorKind::Unsupported);
    }
}

#[test]
fn transforms_of_later_versions_are_refused() {
    // Identifiers have six bits in this version: 62 needs a later one.
    let frame = transform_frame(62, &[3], b"x", 3);
    let err = ozlrip::decode(&frame).unwrap_err();
    assert_eq!(err.kind(), ErrorKind::Unsupported);
}

fn node(id: u32, distances: &[u32]) -> NodePlan {
    NodePlan {
        standard_id: Some(id),
        variable_outputs: 0,
        regen_distances: distances.to_vec(),
        dict_index: None,
        transform_header_start: 0,
        transform_header_size: 0,
    }
}

fn chunk(nodes: Vec<NodePlan>, regenerated: usize) -> ChunkPlan {
    ChunkPlan {
        nodes,
        stored: vec![ByteRange { start: 0, end: 0 }],
        regenerated,
        headers: ByteRange { start: 0, end: 0 },
        decoded_checksum: None,
    }
}

#[test]
fn outputs_lie_behind_inputs_and_share_no_place() {
    let plan = build_chunk_execution_plan(&chunk(
        vec![node(standard::ZIGZAG_ID, &[0]), node(standard::DELTA_INT_ID, &[0])],
        2,
    ))
    .unwrap();
    assert_eq!(plan.nodes.len(), 2);
    assert_eq!(plan.nodes[0].input_start, 0);
    assert_eq!(plan.nodes[1].input_start, 1);
    assert_eq!(plan.regen_targets, [false, true, true]);

    let err = build_chunk_execution_plan(&chunk(
        vec![node(standard::ZIGZAG_ID, &[1]), node(standard::DELTA_INT_ID, &[0])],
        2,
    ))
    .err()
    .unwrap();
    assert_eq!(err.kind(), ErrorKind::InvalidGraph);
    assert_eq!(err.detail(), Some("duplicate regen stream distance"));

    let err = build_chunk_execution_plan(&chunk(vec![node(standard::ZIGZAG_ID, &[1])], 1))
        .err()
        .unwrap();
    assert_eq!(
        err.detail(),
        Some(
            "regen stream distance is out of bounds: id=3 input_end=1 distance=1 target=2 \
             streams=2"
        )
    );
}

#[test]
fn custom_transforms_are_refused() {
    let mut custom = node(standard::ZIGZAG_ID, &[0]);
    custom.standard_id = None;
    let err = build_chunk_execution_plan(&chunk(vec![custom], 1)).err().unwrap();
    assert_eq!(err.kind(), ErrorKind::Unsupported);
}

#[test]
fn transforms_without_an_implementation_are_refused() {
    let frame = transform_frame(u8::try_from(standard::DIVIDE_BY_ID).unwrap(), &[], b"x", 1);
    let err = ozlrip::decode(&frame).unwrap_err();
    assert_eq!(err.kind(), ErrorKind::Unsupported);
}

#[test]
fn a_shared_buffer_is_cleared_between_frames() {
    let mut decoder = Decoder::new();
    let first = transform_frame(1, &[1], &[1, 1, 1, 1], 5);
    let second = transform_frame(1, &[9], &[1], 2);
    assert_eq!(decoder.decode(&first).unwrap(), [1, 2, 3, 4, 5]);
    assert_eq!(decoder.decode(&second).unwrap(), [9, 10]);
    assert_eq!(decoder.decode(&first).unwrap(), [1, 2, 3, 4, 5]);
}

#[test]
fn expansion_is_limited_in_the_single_zstd_shortcut() {
    let bytes = vec![0u8; 10_000];
    let compressed = zrip::compress(&bytes, 1).unwrap();
    let mut stored = vec![1];
    stored.extend_from_slice(&compressed[4..]);
    let frame = transform_frame(22, &[], &stored, bytes.len());
    let wide = Options {
        limits: Limits { max_expansion_ratio: 10_000, ..Limits::default() },
        ..Options::default()
    };
    assert_eq!(ozlrip::decode_with_options(&frame, wide).unwrap(), bytes);
    let tight = Options {
        limits: Limits { max_expansion_ratio: 2, ..Limits::default() },
        ..Options::default()
    };
    let mut dst = vec![7];
    let err = ozlrip::decode_into_with_options(&frame, &mut dst, tight).unwrap_err();
    assert_eq!(err.detail(), Some("expansion ratio exceeded"));
    assert_eq!(dst, [7]);
}

#[test]
fn codec_results_are_checked() {
    assert_eq!(finish_zstd(Ok(vec![1, 2]), Limits::default()).unwrap(), [1, 2]);
    let limits = Limits { max_decoded_bytes: 1, ..Limits::default() };
    let err = finish_zstd(Err(ZstdFailure::OutputTooSmall), limits).unwrap_err();
    assert_eq!(err.kind(), ErrorKind::LimitExceeded);
    let err = finish_zstd(Err(ZstdFailure::Other), Limits::default()).unwrap_err();
    assert_eq!(err.kind(), ErrorKind::Malformed);
    assert_eq!(finish_lz4(Some((vec![1, 2], 2)), 2).unwrap(), [1, 2]);
    assert!(finish_lz4(Some((vec![1, 0], 1)), 2).is_err());
    assert!(finish_lz4(None, 2).is_err());
}

#[test]
fn errors_speak() {
    let error = Error::at(ErrorKind::Truncated, 7).with_detail("dictionary bundle is truncated");
    assert_eq!(error.kind(), ErrorKind::Truncated);
    assert_eq!(error.offset(), Some(7));
    assert_eq!(error.detail(), Some("dictionary bundle is truncated"));
    assert_eq!(error.message(), "Truncated at byte 7: dictionary bundle is truncated");
    let owned = Error::new(ErrorKind::Malformed).with_detail(String::from("owned text"));
    assert_eq!(owned.detail(), Some("owned text"));
    assert_eq!(Error::new(ErrorKind::IntegerOverflow).message(), "IntegerOverflow");
    assert_eq!(Error::at(ErrorKind::InvalidType, 1203).message(), "InvalidType at byte 1203");
}

#[test]
fn a_frame_decodes_to_the_same_bytes_behind_any_buffer() {
    let frame = converted_zstd_frame(b"some bytes");
    let alone = ozlrip::decode(&frame).unwrap();
    for front in [0usize, 1, 1000] {
        let mut dst = vec![b'.'; front];
        ozlrip::decode_into(&frame, &mut dst).unwrap();
        assert_eq!(&dst[front..], alone.as_slice());
    }
    let plan = parse_frame_plan(&frame, Limits::default()).unwrap();
    let mut dst = Vec::new();
    decode_plan(&frame, &plan, &mut dst, Limits::default()).unwrap();
    assert_eq!(dst, alone);
}

#[test]
fn transforms_have_their_inputs_counted() {
    assert_eq!(standard_node_input_count(standard::FIELD_LZ_ID, 0).unwrap(), 5);
    assert_eq!(standard_node_input_count(standard::SPLITN_ID, 3).unwrap(), 3);
    for id in [standard::SPARSE_NUM_ID, 0, 1000] {
        let err = standard_node_input_count(id, 0).unwrap_err();
        assert_eq!(err.kind(), ErrorKind::Unsupported);
    }
    let err = standard_node_input_count(standard::LZ_ID, usize::MAX).unwrap_err();
    assert_eq!(err.kind(), ErrorKind::IntegerOverflow);
}

#[test]
fn a_sparse_num_transform_is_planned_with_two_inputs() {
    let plan =
        build_chunk_execution_plan(&chunk(vec![node(standard::SPARSE_NUM_ID, &[0])], 2)).unwrap();
    assert_eq!(plan.nodes[0].input_count, 2);
    assert_eq!(plan.regen_targets, [false, false, true]);
}
