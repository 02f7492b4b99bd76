# m77rip

An encoder and decoder for the misa77 LZ stream format, written in Verus.

A misa77 stream starts with an 8-byte header (the input's size in the low 56
bits, format flags in the top byte). Small inputs follow raw. Larger ones
hold a suffix count, a forward stream of control tokens, a literal stream
that the tokens consume from its end, and a raw literal suffix. Levels `-1`
to `3` write the light format (3-byte tokens, 16-bit distances); level `4`
writes the heavy format (4-byte tokens, 20-bit distances, length codes).

Layout of `src/`:

- `format`, `error`, `primitives`: constants, the error type, bounded reads
  and copies.
- `decode_spec`, `decode`: what a stream decodes to, and the decoder proved
  to compute exactly that.
- `light_format`, `heavy_format`: the streams a token parse encodes to, with
  the proofs that decoding them gives the input back.
- `match_find`, `light_encode`, `greedy_parse`: hash-table match finders,
  the greedy light encoders (levels `-1` to `2`), and the parse each of
  them writes, as a function of the input.
- `sais`, `live_set`, `optimal`: suffix arrays (built by `libsais`), the
  three-level bitmap of live ranks, and the suffix-array match finders.
- `light_optimal`, `heavy_optimal`, `heavy_encode`, `block_parse`: the
  block-wise cost minimising parsers of levels `3` and `4`, the heavy
  writer, and the parse each of those levels writes, block by block, over
  the match tables of each block's suffix array.
- `encode`: bounds, level checks and the compression entry points, each
  stating the stream it writes (`is_level_stream`), with the round-trip
  law.

`app/` gives the error type `Display` and `std::error::Error`.
