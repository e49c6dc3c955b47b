# gif_decoder

A GIF decoder whose logic is verified with Verus.

- `src/bit_math.rs`: the bit-level model (bits of bytes, least significant
  first; the value of a run of bits) and its arithmetic lemmas.
- `src/bit_reader.rs`: `BitReader`, whose view is the sequence of bits still
  to be read.
- `src/lzw.rs`: the LZW decompressor as a state machine (`lzw_step`,
  `decode_codes`, `decode_sub_blocks`) and `LzwDecoder`, which implements it.
- `src/gif.rs`: the file format as spec functions (`decode_at` and the block
  functions it uses) and `Decoder`, whose methods implement them.
- `src/error.rs`: `DecodeError`.
- `app/main.rs`: reads a file from disk, decodes it, and turns decoding
  errors into the process exits and panics of the command-line tool.
