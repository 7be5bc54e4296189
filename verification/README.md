# NCF

A container format for model tensors: a file holds a header with model metadata, tensor schemas,
deduplicated tensor chunks with BLAKE3 digests, and an index.

- `src/` is the library, verified with Verus. Calls into outside crates (hashing, zstd, `bytes`,
  the GGUF and safetensors parsers) stand behind small functions whose contracts are believed;
  each says what it claims. The library builds the image of a file, locates
  blocks and chunks in the bytes of a file, reads and checks tensors, plans prefetching, encodes
  and replays KV delta chains, and converts GGUF and safetensors archives.
- `app/` is the code around it: files, memory maps, threads, CBOR forms, floating point and the
  Python module.
- `tests/` exercises the library.

`src/roundtrip.rs` states what a written file gives back when it is read, `src/agreement.rs` where
the readers of one file agree, and `src/damage.rs` what becomes of a file with a changed byte.
