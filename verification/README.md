# vectomancy

Turns images, vector drawings and text into parametric equations.

The library under `src/` is written in Verus and verified: its functions
carry `requires`/`ensures` contracts that Verus proves, and the properties
the library relies on are stated as `law_*` proof functions.

The exception is the six functions marked `#[verifier::external_body]`:
the calls into `image`, `imageproc`, `flate2` and `base64`
(`call_load_from_memory`, `call_sobel_gradients`, `call_otsu_level`,
`call_zlib_compress`, `call_base64_encode`) and `push_char` over
`String::push`. Their contracts are trusted, not proved: each states what
the called crate's source and documentation show, and results that take
pages to state (the decoded pixels, the Sobel magnitudes, Otsu's level, the
compressed bytes) are named by uninterpreted spec functions rather than
described.

## Layout

- `src/raster.rs`: from image bytes to skeleton polylines: Sobel edge
  strengths (through `imageproc`), Otsu's threshold (through `imageproc`),
  a padded binary grid, Zhang-Suen thinning and skeleton tracing, and the
  mean colour of each polyline.
- `src/grid.rs`, `src/thinning.rs`, `src/skeleton.rs`: the padded grid, the
  thinning to a fixed point and the endpoint-first tracing, each specified
  by recursive spec functions.
- `src/woff2_header.rs`, `src/font_source.rs`: reading a WOFF2 header to
  locate the compressed stream, cutting the file for the decoder, and the
  character rules of text layout. The `woff2` decoder itself is called from
  `app/`, since it can panic on malformed fonts.
- `src/expression.rs`, `src/svg_text.rs`, `src/encode.rs`: equation text,
  SVG fragments, and zlib plus base64 packing (through `flate2` and
  `base64`).
- `src/scratch.rs`: the block script of a Scratch project that draws paths.
- `src/settings.rs`, `src/input.rs`, `src/cli.rs`, `src/config.rs`:
  resolving command-line and configuration choices, and naming files.
- `app/`: the `vectomancy` program (argument parsing, files, and the
  floating-point curve fitting), which uses the library.
- `tests/`: tests of the library.
