# ozlrip

A decoder for OpenZL frames, verified with Verus.

```rust
let decoded = ozlrip::decode(frame)?;

let mut dst = Vec::new();
let written = ozlrip::decode_into(frame, &mut dst)?;

let info = ozlrip::inspect(frame)?;
```

For repeated decoding, create an `ozlrip::Decoder`. It keeps its buffers, the
dictionary bundles that were loaded, and the plan of the last frame.

## Layout

- `src/decoder.rs`: the decoder, its options and the free functions.
- `src/parse.rs`, `src/frame_plan.rs`: the frame format.
- `src/graph.rs`, `src/slots.rs`, `src/nodes.rs`, `src/execute.rs`: planning and
  executing the transforms of a chunk.
- `src/direct_append.rs`, `src/append.rs`, `src/agreement.rs`: chunks whose last
  transforms write to the output directly, and why that changes nothing.
- `src/decode_plan.rs`, `src/output.rs`: decoding a parsed frame, with its checks.
- `src/codecs.rs`, `src/dict.rs`: zstd, lz4, checksums and dictionary bundles.
- One module for each family of transforms, such as `src/lz.rs`, `src/dispatch.rs`
  and `src/pivco_huffman.rs`.
- `app/`: decoding errors as standard errors.
- `tests/`: tests on concrete frames and streams.

Each transform has a specification function that says what its streams decode to,
or which error they are refused with, and the executable function is proved to
give just that. Properties that hold of every input are proof functions whose
names begin with `law_`.

Trusted are the calls into `zrip`, `zrip-core`, `lz4rip`, `xxhash-rust` and
`smallvec`, and three calls into the standard library; the comment above each says
what is relied on.
