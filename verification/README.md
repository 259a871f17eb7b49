# mpx

MPX is a lossless image format. Raw interleaved pixels are split into one
plane per channel, optionally color-transformed (YCoCg-R, or an
inter-channel delta), filtered row by row with a spatial predictor (None,
Sub, Up, Average, Paeth, or Adaptive), split into hi/lo byte planes where
samples are two bytes, and stored as one compressed block per channel after
a fixed 32-byte header.

## Layout

- `src/`: the library, verified with Verus.
  - `header`: the header, its enums, `serialize` and `parse`.
  - `filter`: the row filters, their inverses and the Adaptive heuristic.
  - `layout`: planes versus interleaved pixels; the byte-plane split.
  - `color`: YCoCg-R and the inter-channel delta.
  - `encode`: the encoder's plane pipeline and the file writer.
  - `decode`: the plane pipeline back to pixels and `Decoder`, which reads a
    file one channel block at a time.
  - `names`, `samples`: command-line names; 16-bit samples and their bytes.
  - `roundtrip`: the laws: decoding what was encoded gives the header and
    pixels back, for any lossless block codec.
- `tests/`: ordinary Rust tests of the library.
- `app/`: the `mpx` command-line tool (file and PNG input/output, the
  entropy estimate that picks the color transform, and the calls into the
  block compressor).

## Compression

The blocks are compressed with MBFA, which this crate does not contain: the
library hands out the planes to compress (`encode_image`) and takes the
decompressed planes back (`Decoder::accept_plane`). Only `app/` calls the
compressor, and it builds only where the `mbfa` crate is available. For the
same reason the tests exercise the format with an identity codec, and there
are no tests of compression ratios (solid images, gradients,
checkerboards): those measure the compressor, not the format.
