# fasterhenry

The combinatorial core of a PEEC (partial-element equivalent circuit)
inductance extractor in the FastHenry tradition, verified with Verus, and a
small command-line front end around it.

## Layout

* `src/` — the verified library.
  * `inp.rs`, `inp/` — the FastHenry `.inp` deck reader: lines, words and
    `+` continuations (`inp/lines.rs`), the meaning of each logical line as a
    state machine (`inp/deck.rs`), and the reader that carries it out
    (`inp/reader.rs`). Numbers stay text; each number and each frequency
    sweep to check is listed, in deck order, for the caller to evaluate.
  * `mesh.rs` — ports and the loop (mesh) basis of the filament circuit:
    bundle loops, one conductor loop per segment left out of a spanning
    forest, and one loop per port along its forest path; the internal
    loops number exactly branches − nodes + components. The forest is the
    breadth-first one, written out as a specification (`bfs`, with
    `tree_path` for the paths through it), so the contract fixes every row
    and the basis is a function of its inputs.
  * `coupling.rs`, `pair_mask.rs` — group-wise truncation of the mutual
    inductance: which group pairs are coupled, which are cut (the
    candidates for a truncation warning), and which filament pairs an
    assembly evaluates.
  * `plane.rs` — the cell-centre mesh of a ground plane: nodes of the live
    cells, numbered column by column, and one bar per pair of neighbouring
    live cells.
  * `near.rs` — candidate near-field pairs by binning cell ranges into the
    grid; `grid.rs` — linear numbering of grid points; `columns.rs` — the
    transposes and plane/column layouts of the convolution data;
    `sparse.rs` — the symmetric near-field matrix in compressed sparse
    rows, assembled from its upper triangle; `spread.rs` — the index layout
    of projection (filament by filament) and spreading (grid point by grid
    point).
  * `mat.rs` — the byte layout of a MAT v4 matrix record.
  * `memo.rs` — the direct-mapped memo of aligned-bar evaluations and its
    slot hash.
  * `graph.rs` — walks and connectivity, as specifications.
  * `fft.rs` — 5-smooth FFT sizes; `inductance.rs`, `result.rs`, `cli.rs`,
    `text.rs` — small types and helpers.
* `tests/` — tests of the library.
* `app/` — the `fasterhenry` program: reads a deck, evaluates its numbers,
  validates the geometry and reports the mesh system as JSON.
