# immortal

A WordPiece tokenizer and the integer and byte-level core of a small neural
inference engine, with their behaviour stated in Verus contracts and proved.

## Layout

- `src/text.rs` — characters and strings: UTF-8 widths, trimming, decimal
  and `Debug` renderings, and the Unicode character properties the
  tokenizer relies on.
- `src/tokenizer/` — the tokenizer: BERT normalization with a byte alignment
  back into the input, pre-tokenization, WordPiece, truncation, padding,
  encoding and decoding, and the framing of `.sovereign-tokenizer` files.
- `src/nn/` — the engine's verified parts: tensor shapes, pooling geometry,
  the `.sovereign` model file (CRC32, header, index entries, metadata as a
  flat JSON object, the whole written file), activation names, task-head
  label lists, the XLM-R configuration and token-id helpers, the layers'
  shape checks, and the element moves of tensor operations (concatenation,
  splitting, transposes, head splitting, row gathering) for elements of any
  type.
- `app/` — what stays outside the proofs: file I/O, the bincode payload
  codec for tokenizer files, and the `f32` inference layers (tensors,
  operations, recurrent, convolutional and transformer layers, model heads).
- `tests/` — tests of the library.

## Main properties proved

- A framed tokenizer payload and a written model file read back as written:
  header, index entries, tensor data with matching CRC32s, and metadata.
- Streaming CRC32 over pieces equals the one-shot CRC32 of their
  concatenation; the table-driven update equals the bitwise definition.
- Metadata serialized as JSON parses back to the same map, whatever its keys
  and values hold.
- Every id the tokenizer produces is in its vocabulary; the normalizer's
  alignment covers every normalized byte, never decreases and maps
  character boundaries to character boundaries; a pair encodes as CLS, a
  prefix of each text's ids and two SEPs within the length limit; padding,
  special tokens and truncation do exactly what their contracts state.
- Concatenating the pieces of a split along the same axis gives back the
  original shape and elements; swapping two middle axes twice restores the
  data.
