# homology_engine

Persistent homology over Z/2Z, verified with Verus.

The pipeline is: filtration → boundary matrix → column reduction → barcode
and Betti numbers.

- `src/` is the verified library.
  - `column.rs`: sparse columns (strictly increasing row lists) and their
    sum over Z/2Z.
  - `boundary.rs`: boundary matrices, built from lists of simplices, with the
    check of ∂² = 0.
  - `chain.rs`: proof that the boundary matrix of a simplicial complex
    satisfies ∂² = 0.
  - `reduction.rs`: the left-to-right column reduction, its pivot map,
    persistence pairs and unpaired columns, and its laws (R = D·V, distinct
    pivots, births before deaths, uniqueness of the result).
  - `pairing.rs`: for boundary matrices, every reduced column is a cycle and
    every birth column reduces to zero, so each simplex is exactly one of a
    birth, a death or unpaired; a class of dimension k dies at a simplex of
    dimension k + 1.
  - `rank.rs`: ranks of boundary operators over Z/2Z (largest independent
    sets of columns), read off the reduction, with βₖ = nₖ − rank ∂ₖ −
    rank ∂ₖ₊₁ and the Euler characteristic.
  - `barcode.rs`, `betti.rs`: barcodes, Betti numbers, Betti curves and
    persistent Betti numbers read off a reduction.
  - `diagram.rs`: persistence diagrams with coordinates of any type.
  - `filtration.rs`: filtrations with values of any type, reordering so
    that faces come first, combination enumeration, the cliques of a
    closeness relation and the triangles of flag complexes.
- `app/` holds what works with real numbers or serde: serialisable copies of
  the library's types, barcode statistics, diagram statistics and
  distances, and the Rips, lower-star and flag filtration builders.
- `tests/` exercises the library.
