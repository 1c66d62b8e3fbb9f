# bolivar_core

Layout-analysis support for PDF text extraction, written in Verus: the
library's public functions carry `requires`/`ensures` contracts that Verus
proves, and its laws stand as public proof functions.

## Layout

- `src/bidi/` — logical-order reconstruction of right-to-left text that a PDF
  stores in visual order, keeping every output piece tied to the layout
  element it came from.
  - `unicode.rs`: the Unicode services used (character properties, NFKC
    from `unicode-normalization`, bidi orderings from `unicode-bidi`), each
    behind a small trusted item with a stated contract, except the
    `White_Space` test, which is written out and verified.
  - `scripts.rs`: script classes, compact mixed tokens, base direction.
  - `protect.rs`: protection of left-to-right identifiers and numbers.
  - `inverse.rs`: inverse reordering through an index map. The visual text
    is run through `unicode-bidi`'s forward reordering with the paragraph
    level forced to the base direction, and the resulting visual-to-logical
    map is read backwards. This is how the library recovers logical order;
    no ICU inverse-bidi engine is used, and nothing here shows that the two
    agree on every input.
  - `spans.rs`, `lines.rs`: spans tied to source elements; line reconstruction.
  - `text.rs`, `words.rs`: plain-text reconstruction and legacy output.
- `src/grouping.rs` — characters into text lines (by how consecutive
  characters line up) and text lines into text boxes (by which lines line
  up with which).
- `src/frontier.rs`, `src/spatial.rs` — the decisions of the best-first
  text-box grouping: heap keys, frontier expansion, candidate pairs, pair
  decisions, tree links.
- `src/cells.rs` — table cells from edge intersections, and cells grouped
  into tables by shared corners, found through an index of corners keyed
  by the point's two coordinates packed into one `u128`.
- `src/cellmatch.rs` — the active cells of the sweep that matches
  characters to table cells, and each slot's run of sorted matches.
- `src/clustering.rs` — cluster numbering of sorted values and grouping of
  objects by cluster.
- `src/intersections.rs` — the active set of the edge-intersection sweep
  (four-lane blocks per bucket) and the slot table that follows moved blocks.
- `src/table.rs` — table ids, sweep buckets, pair ordering, ligatures, text
  maps and text policies, and the text of a table cell from its lines of
  words, with a span for each word run that addresses the text by offset.
- `src/elements.rs`, `src/arena.rs`, `src/model.rs` — layout elements, the
  reading-order index assigner, the layout arena (characters, annotations,
  lines and boxes stored by id, with their floating-point geometry left to
  the caller), the compact group hierarchy, color spaces.
- `app/` — the floating-point geometry around the library (box arithmetic,
  alignment tests of characters and lines, layout parameters, spatial
  trees, the word clustering of table cells, the text-box grouping loops
  with all pairs in one heap or frontier bounds in one or two heaps, the
  intersection sweep, text lines of laid-out characters).
- `tests/` — tests of the library.
