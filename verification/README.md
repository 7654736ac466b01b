# Sparse matrix bandwidth reduction, verified

A library for the bandwidth of sparse matrices in compressed sparse row form,
written in Verus: every function in `src/` carries a contract that Verus
proves.

- `csr` — the matrix, its well-formedness, bandwidth, vertex bandwidths,
  degrees, critical vertices and the label-ordered view used for printing.
- `from_coordinates` — building the matrix from a list of nonzeros.
- `reorder` — renumbering the vertices, and the facts that reordering by a
  permutation and relabelling by it give the same bandwidth and the same
  critical labels.
- `cmr` — reverse Cuthill–McKee: the labelling (`cmr_labels`) and the
  reordering (`cmr_numbering`, `cmr_reorder`), with proofs that both number
  every vertex exactly once.
- `reorder_laws` — reversing a labelling keeps the bandwidth; reordering by
  a permutation keeps the nonzeros; reordering by a permutation and then by
  its inverse gives the matrix and its values back.
- `cmr_variants` — the proof that, on a square pattern, the reordering
  numbers the vertices exactly as the labelling labels them.
- `ils` — local search steps and the in-place swap of two vertices.
- `candidates` — swap candidates around a critical vertex.
- `mtx`, `coo` — reading Matrix Market coordinate files line by line.
- `seqs` — sorting and ordered sequences.

The multi-start search that would repeat local search and perturbation
from pseudo-peripheral vertices is left out: the routines it is built on
(finding a pseudo-peripheral vertex, testing whether a swap improves the
bandwidth or a critical vertex) do not exist to build it from.  The
command-line program therefore reports the bandwidth before and after the
reverse Cuthill–McKee labelling from vertex 0 only.

`tests/` runs the library on small matrices.  `app/` is the command-line
program: it reads files, parses the values, and prints results.
