# fdeflate

A verified decompressor for zlib streams, written in Verus. It keeps the table driven design that
makes decoding fast for images: one lookup of 12 bits yields several literals at once, among them
runs of zeros.

```rust
let data = fdeflate::decompress_to_vec(&stream)?;
```

`Decompressor` does the same in chunks: `read` takes some input and a buffer that holds the output
so far, and goes on until the stream ends, more input is needed or the output does not fit.

## What is proved

- `format.rs` states the formats: a state of decoding (`Config`), what one step leads to (`step`),
  and what a stream decodes to (`decode`), which is all output or the first error.
- `decompress_to_vec` returns exactly what `decode` says, for every input. `Decompressor::read`
  takes steps of `decode` and no others, and reports exactly the error that `decode` comes to,
  after all output before it has been written.
- `reading.rs` states which literals one lookup yields and where a call of `read` stops. The tables
  hold exactly these literals, and `read` stops exactly there.
- `encoding.rs` states how streams are written and proves that decoding gives the data back, for
  stored blocks, fixed codes and codes of a block's own, with any back references and padding.
- `laws.rs` holds the other laws: input in parts, a header in parts, trailing data, errors,
  checksums, the window of 32 KiB, and how much longer than its input an output can be. `tables.rs`
  and `litlen_table.rs` hold those on their own tables.
- No function panics or overflows, and all loops come to an end.

The one thing that is taken on trust is that the `simd-adler32` crate computes Adler-32
(`adler.rs`).

## Layout

| File | Contents |
| --- | --- |
| `bits.rs`, `bit_buffer.rs` | bit sequences, and the buffer that the decoder reads them from |
| `huffman.rs` | canonical Huffman codes |
| `tables.rs` | the constants of the format |
| `code_length_table.rs`, `litlen_table.rs`, `distance_code.rs` | lookup of code words |
| `long_codes.rs` | how many entries a table for long code words needs |
| `format.rs` | the formats |
| `reading.rs` | what one call reads |
| `output.rs`, `decompress.rs` | the decompressor |
| `encoding.rs`, `laws.rs` | laws |
