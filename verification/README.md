# logo_wasm

The verified core of a PNG-to-SVG logo tracer, written in Verus.

`src/` is the library. Every function in it carries a contract that Verus proves, except
`cluster::run_clustering`, the one call into visioncortex, whose contract is trusted:

- `color`: RGBA colors, their squared RGB distance.
- `text`: decimal and `#RRGGBB` output, Unicode trailing-space trimming, trimming of
  redundant fraction zeros in formatted numbers.
- `image`: RGBA rasters and the transparency keying done before clustering.
- `cluster`: the clustering settings of the logo preset and the call into visioncortex.
- `palette`: per-color weight totals, the stable sort by weight, the greedy dominant
  palette and the snapping of colors to it.
- `svg`: the SVG document and its assembly from traced contours.
- `path_data`: corner spans of a closed contour and the rewrite of the last coordinate
  pair of path data.

`app/` is the WebAssembly entry point (`trace_logo`) and the floating-point contour
geometry (simplification, corner detection, arc and Bezier fitting with kurbo), which
calls the library for every integer and text step.

`tests/` exercises the library on concrete values.
