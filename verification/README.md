# hald_lut

Verified construction, rendering and inversion of Hald colour lookup tables.

A table of level `l` has `n = l^2` shades per channel and is stored as a square
image of side `l^3`.

* `src/layout.rs` — the two layouts (standard and squares) as arithmetic on
  positions and colour indices, with proofs that each is a bijection.
* `src/tones.rs` — the shade/byte quantisation tables (computed in single
  precision by the caller).
* `src/hald_generator.rs` — the table type, the identity tables, the
  coordinate conversions and the inversion of a measured table.
* `src/hald_frame.rs` — rendering a table with border, gaps and corner marks.
* `src/grid_overlay.rs` — tile separators drawn on a photographed table.
* `src/reconstruct.rs` — sampling windows and the cell selection of the
  squares inversion.
* `src/canvas.rs` — the RGB image of the `image` crate, behind trusted wrappers.
* `src/laws.rs` — properties relating the operations.
* `app/main.rs` — file I/O, floating-point colour averaging, the program.
