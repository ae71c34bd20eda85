# yazi

A DEFLATE/zlib compressor and decompressor written in Verus, with the rolling
Adler-32 checksum of the zlib format.

Layout of `src/`:

- `lib.rs`: the bitstream `Format`, the `Error` kinds, the `Sink` a stream
  writes into (a growing vector or a fixed buffer), re-exports.
- `adler32.rs`: the Adler-32 checksum as spec functions, the `Adler32` state,
  and its laws (split independence, closed form, reduced states).
- `bits.rs`, `bitwriter.rs`: reading and writing bits least significant first.
- `huffman.rs`: canonical Huffman codes given by code lengths, and decoding.
- `canonical.rs`: the code of each symbol, and the theorem that decoding a
  symbol's code gives the symbol back.
- `inflate.rs`: the DEFLATE format as spec functions (stored, fixed and dynamic
  blocks), and the decoder proved to follow them.
- `decode.rs`: the zlib wrapper, `decompress`, `Decoder`, `DecoderStream`.
- `lz77.rs`: literal and match tokens, what they replay to, the match search
  and the parse it gives as a spec function (`parse_from`).
- `fixed.rs`: the fixed Huffman code, its decoding lemmas, writing a block.
- `lengths.rs`: code lengths from symbol frequencies, Huffman's construction
  stated as spec functions (`huffman_spec`).
- `dynamic.rs`: blocks with their own code: header, writing, decoding lemmas.
- `encode.rs`: `compress`, `Encoder`, `EncoderStream`, compression levels;
  the exact bitstream the encoder produces (`encoded_spec`).
- `roundtrip.rs`: decompressing what the encoder writes gives back the data.

Encoder streams keep their whole input in memory and compress it in
`finish`. Decoder streams decode what has been written at each `write`, so
that a corrupt bitstream is reported there and writes after the end of the
bitstream are refused with `Finished`; the output reaches the vector or
buffer in `finish`.

The tests under `tests/` include streams written by zlib itself.
