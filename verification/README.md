# refpack

Compression and decompression of the RefPack format, an LZ77 style scheme
used by many EA games of the early 2000s, verified with Verus.

## Layout

- `src/` is the verified library.
  - `header/`: the header layouts (Reference, Maxis, Maxis2, SimEA) and
    the `Header` they carry; every layout reads back what it stores of a
    header (`Mode::spec_stored`): its lengths as written where they fit,
    the decompressed length capped to 24 bits by Maxis, no compressed
    length where the layout has no field for one, and `Some(0)` from Maxis
    for a header written without one.
  - `data/control/`: commands and control blocks, their byte encodings and
    the control iterator; `data/control/mode/` holds the command layouts of
    the Reference and SimCity 4 variants.
  - `data/decompression.rs`: decompression, specified by `spec_decompress`,
    which carries out the control blocks into a buffer of the length that
    the header gives; it fails only with the errors of
    `is_decompress_error`.
  - `data/compression/`: the encoders (fastest, fast, optimal and the
    greedy `encode_stream`), the prefix tables and hash chains they search
    with, and `easy_compress` / `compress`. Every encoder returns control
    blocks that reproduce its input (`encodes`); the fastest, fast and
    greedy encoders are also given as spec functions of their input
    (`spec_fastest`, `spec_fast`, `spec_greedy`), and `easy_compress` and
    `compress` give the bytes of those blocks for the first two
    (`encoder_views`, `compressed_with`).
  - `data/roundtrip.rs`: decompressing what compression wrote gives the
    input back, and reads exactly the compressed bytes.
  - `control.rs`: the older generation of commands and control blocks.
  - `corpus.rs`: names and paths of the Silesia test corpus files.
- `app/` holds what the library leaves out: streams of `std::io`, error
  types with `Display`, `binrw` and iterator impls, and the download of the
  test corpus.
- `tests/` exercises the library on concrete values.
