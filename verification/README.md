# geometry

An integer-grid geometry kernel for semiconductor process illustrations,
written in Verus. Shapes are lists of contours of `[x, y]` points; volumes
are footprints extruded between two heights. The kernel subtracts shapes,
cuts them along horizontal lines, clips them above or below a height, and
finds and classifies the atomic edges of a scene of volumes.

Polygon Boolean operations and line clipping are performed by `i_overlay`;
everything around those calls (validation, protocol checks, bounds,
interval merging, contour orientation, face construction, line keying and
edge classification) is verified against the contracts in `src/`.

Layout:

- `src/` — the verified library, one module per concern:
  `arith` (gcd, wide products), `lines` (line keys of segments),
  `collinear` (a line key identifies its line), `area` (laws of the
  shoelace area),
  `edges` (atomic edges and their classification), `scene` (faces of a
  scene of volumes), `intervals` (cross sections), `clip`, `bounds`,
  `validate`, `wire` (shape types and their views), `layers`,
  `overlay` (the calls into `i_overlay`) and `requests` (the versioned
  operations).
- `tests/` — tests of the library.
- `app/` — CBOR request decoding and response encoding, and GDS layout
  import, which works in floating point.
