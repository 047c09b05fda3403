# dxf_trutops_cleaner

Cleans DXF drawings for TruTops: dense polylines are simplified, splines are
fitted with lines and arcs, and the result is written as a DXF R2000 file
holding only LINE and ARC entities.

- `src/` is the verified library (Verus): the DXF group-code reader
  (`dxf_read`), the DXF text writer and template splitting (`dxf_write`),
  text helpers (`text`), the command line (`cli`), the window state (`gui`),
  conversion reports (`convert`), SVG counts (`svg_read`) and icon decoding
  (`icon`). Its proof functions state what holds across calls, e.g. that pairs
  and LINE entities written by the writer are read back unchanged.
- `app/` is the program: file I/O, the egui window, the worker thread, SVG
  parsing with `usvg`, and all floating-point geometry (simplification, arc
  fitting, B-spline sampling, number formatting).
- `tests/` exercises the library.

The program expects `assets/r2000_empty.dxf` (an empty R2000 drawing) and
`assets/icon.png` next to its executable.
