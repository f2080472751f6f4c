# phone_scan_wasm

Recognition of photographed answer sheets: the sheet's frame is found and
straightened, the page number is read from its marks, the page is aligned with
its assist marks, and the filled options are read.

## Layout

- `src/` — the verified library (Verus). It holds the data model of the sheet
  layout, the integer image tools (summed-area tables, box sums, cropping,
  merging boxes), the drawing of boxes, the geometry of the frame (bounding
  boxes, the convex hull, candidate corner sets, corner order), the matching
  of detected assist marks with the marked ones, and the decoding of the page
  number. Calls into `imageproc` stand behind a few trusted wrappers whose
  contracts are stated next to them.
- `app/` — ordinary Rust around the library: reading images, JSON, the
  real-valued steps (blurring, thresholds, fill rates, perspective transforms,
  distances, cosine similarity, text labels) and the WebAssembly entry points.
- `tests/` — tests of the library on concrete values.
