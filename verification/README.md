# ftov

Draws the bits of a file as a pattern of squares: each bit becomes an
`ss`×`ss` square of pixels, squares fill the frame row by row.

- `src/` — the verified library (Verus):
  - `bits.rs` — the `bitvec` bit vector behind `Bits`, with the contracts of
    the calls made into `bitvec`;
  - `iter.rs` — `SquarePattern`, the walk over the pixels of the pattern, and
    the laws of the pattern (every bit is a square, squares do not overlap,
    every pixel lies in a square, a fresh walk hands out the pattern pixel by
    pixel and then `None`, squares of side 1 keep the bits);
  - `counting.rs` — every bit gives `ss * ss` pixels of its value;
  - `metadata.rs` — checked video dimensions;
  - `encode.rs` — the raw `rgb24` stream of a frame, padded with black rows;
  - `encoder.rs` — the text picture of a file's pattern.
- `app/` — the command line: argument parsing (`clap`), reading the input
  file, printing, and piping frames into `ffmpeg`.
- `tests/` — tests of the library.
