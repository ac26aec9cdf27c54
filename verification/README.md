# bin_read

Bit fields cut out of byte strings and written back into them, and a Huffman
coder for files cut into fields of a chosen number of bits, verified with
Verus.

- `src/bits.rs` — the bit-level view of byte strings (most significant bit
  first) and the bit-vector lemmas behind it.
- `src/bin_field.rs` — `BinField`, `read_bin_field`, `write_bin_field_into_pos`,
  `push_bit`, equality and the textual form of a field, and the laws that tie
  reading and writing together.
- `src/frequency.rs` — cutting a file into fields and counting them.
- `src/huffman.rs` — the Huffman coder, specified step by step.
- `src/field_laws.rs` — reads split into consecutive reads (as bits and as
  numbers), a read followed by a write copies a bit range, and writes only
  set bits, so any two writes commute.
- `src/huffman_laws.rs` — on positive frequencies the coder does not overflow,
  builds a prefix code whose root group lists every entry once, and never
  gives a more frequent entry a longer code.
- `src/huffman_optimal.rs` — no prefix code over the same entries takes fewer
  bits than the coder's.
- `src/encode.rs` — sizes of an encoded file and the encoder, whose output is
  specified bit for bit.
- `app/main.rs` — the desktop front end: file dialogs, file I/O and the
  floating-point statistics.
