# flatter

Lattice basis reduction, with its exact integer core verified in Verus.

`src/` is the verified library:

- `integer` — the trusted interface to GMP integers (`rug`): each function
  makes one call and states its result over `integer_value`.
- `lattice` — integer matrices and lattice bases: entry access, shape
  queries, blocks, rank trimming, column operations, bit lengths.
- `fplll` — reading and writing bases in FPLLL text format, with the proof
  that writing and reading back gives the same basis (for a basis with at
  least one vector, all of them in use).
- `gemm_i64` — `i64` matrix products with wrapping arithmetic, naive and
  cache-blocked, with the proof that both compute the product modulo 2^64.
- `math` — exact matrix product and its associativity, unimodular matrices
  (a product of them is one), size reduction of a triangular basis, and
  relative size reduction against a triangular basis.
- `reduction` — the sublattice split schedule, the dispatch tree, the
  integer steps of the condition-number preprocessor (sorting columns by
  given size keys, the tail of a refinement round with the proof that the
  basis stays the input times the accumulated transform) and the folding of
  per-round transforms.

`app/` is the command-line program: argument handling, file I/O, and the
floating-point parts (the Gram-Schmidt driven LLL loop, the profile, the
quality goal, the floating-point size keys for column sorting, `f64`
kernels, thread-parallel kernels).

`tests/` exercises the library on concrete values.
