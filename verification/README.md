# pixie

Emoji-to-pixel-art logo generator. The library in `src/` is written in Verus:
every function carries a `requires`/`ensures` contract that Verus proves.

## Layout

- `src/emoji.rs`: splitting an emoji string into display sequences and
  naming a sequence by its codepoints (`1f1eb-1f1f7`).
- `src/bundled.rs`: the emoji artwork compiled into the library. The full
  artwork set is not in this tree; one hand-drawn flag stands in for it, and
  other emoji need `--sprites-dir`. The bundled fonts are missing too, so text
  needs `--font`.
- `src/raster.rs`: the RGBA raster (`Image`) and the `image` crate operations
  the pipeline uses (overlay, resize, crop, PNG encoding), behind trusted
  wrappers.
- `src/palette.rs`, `src/palette_laws.rs`, `src/quantize.rs`: median-cut
  palette reduction and what it keeps.
- `src/sprite.rs`: the sprite finishing pipeline (hard alpha, palette,
  re-centering, outline, zoom).
- `src/compose.rs`: the horizontal logo layout and the domino tile.
- `src/text.rs`: laying rasterized glyphs out on a pixel font's native grid.
- `src/cli.rs`, `src/domino.rs`, `src/svg.rs`: option parsing, base64 and the
  SVG wrapper around an encoded PNG.
- `app/`: the command-line program: argument handling, file I/O, SVG
  rasterization with `resvg`, font rasterization with `fontdue`, and the
  floating-point sizing of the badge, shadow and smooth text.
- `tests/`: tests of the library.
