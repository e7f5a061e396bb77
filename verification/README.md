# magnetar_format_gguf

A reader for GGUF model files, verified with Verus.

`parse(bytes)` takes a file that is held in memory. It returns the tensors of
the model (name, shape, element type, place in the file, quantization, content
digest) and the metadata, or the error that the file is rejected with. It does
not panic, and no size or offset overflows, whatever the bytes are.

## What is read

- Versions 2 and 3 of the format.
- Metadata of every type, arrays of arrays among them, up to eight deep. Keys
  that are not known are kept as they are; of several entries with one key the
  last one counts.
- Tensors of the types `F32`, `F16`, `BF16`, `F64`, `I8`, `I16`, `I32`, `I64`,
  `Q8_0`, `Q4_K` and `Q5_K`. A tensor of another type is rejected by the number
  of its type. Tensors that are not quantized get the SHA-256 digest of their
  bytes.

Floating-point metadata are held as the bits that encode them, and compared as
numbers.

## Layout

- `src/artifact.rs`: whole files. `file_of` says what a sequence of bytes means,
  and `parse` computes it.
- `src/cursor.rs`, `src/metadata.rs`, `src/tensor.rs`, `src/layout.rs`: the parts
  of a file. The functions named `.._at` say what the bytes at a position mean.
- `src/inventory.rs`, `src/range.rs`, `src/order.rs`, `src/sort.rs`,
  `src/entries.rs`: tensors and metadata taken together.
- `src/model.rs`, `src/digest.rs`, `src/error.rs`, `src/text.rs`: what comes out.
- `src/encoding.rs`, `src/rewrite.rs`, `src/progress.rs`, `src/prefix.rs`,
  `src/placement.rs`, `src/overlap.rs`, `src/outcome.rs`: what holds of all
  files, in proof functions named `law_..`.
- `app/`: the same reader in the types of `magnetar-runtime` and of ordinary
  Rust. `app/fuzz_targets/parse.rs` is a program by itself, for fuzzing.

## What is trusted

Two functions are taken at their word: `String::from_utf8`, which accepts valid
UTF-8 and decodes it, and `sha2::Sha256::digest`, whose result depends on the
message alone.
