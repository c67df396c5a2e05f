# manim_rust

The authoring core of a Manim-style math animation engine, written in
Verus: every function in `src/` carries a contract that the verifier
proves.

## Layout

- `src/` — the verified library.
  - `scene` — the dirty-tracked scene graph: nodes, parents and children,
    removal, reparenting, grouping, paint order.
  - `timeline` — which animation drives each (node, property) at a time,
    and which nodes Create/Write-style plays animate.
  - `matching` — pairing source and target nodes for transform-matching.
  - `layering`, `network`, `grid`, `tabular`, `listing`, `isoline`,
    `chart`, `riemann`, `boolean` — the discrete decisions behind graph
    layouts, grids, tables, paragraphs, implicit curves, bar charts,
    Riemann sums and boolean path operations.
  - `markup`, `markup_style`, `scan`, `tenths`, `tex_parts`, `formula`,
    `typst_doc`, `text` — Pango-to-Typst rewriting, TeX part splitting,
    formula part naming and lookup, and the Typst documents formulas are
    compiled from (LaTeX goes through `mitex`).
  - `palette`, `direction`, `easing`, `errors`, `raster`, `atlas` — color
    names, directions, easings, error messages, RGBA8 images (decoded
    with `image`), and the digit glyph atlas.
  - `frames`, `video` — frame reuse, readback row padding, and the
    encoder's command line.
- `app/` — the `manim` command line and the floating-point layer around
  the library: kurbo geometry, animation interpolation, layouts, SVG
  import (`usvg`) and boolean clipping (`i_overlay`).
- `tests/` — tests of the library.

## Not included

- Typst compilation and glyph outlines: the library builds the Typst
  document a formula or text is compiled from (`typst_doc`), but the
  `typst` compiler and its fonts are not part of this project, so no glyph
  paths are produced.
- GPU rendering (vello/wgpu), PNG output of rendered frames, and the
  rendered-video pipeline; `frames` and `video` keep the bookkeeping around
  them (frame reuse, readback padding, the encoder's command line).
- Python bindings, and `demo`, `png` or `visual-check` commands with
  demo and probe scenes: the `manim` command line here has none of them.
- LaTeX that the converter cannot take without failing (`\label` without
  a brace group right after it, `\includegraphics`, figure and table
  environments, macro declarations) is refused with a conversion error
  before it reaches mitex.
