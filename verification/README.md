# miden_crypto

Building blocks of a lifted STARK prover over the Goldilocks field, written in Rust and verified with
[Verus](https://github.com/verus-lang/verus).

- `felt`, `simd`, `packed_felt`, `packed_base`: field elements, and two of them side by side, computed
  with on the lanes of a 128-bit vector.
- `quad`, `packed_quad`, `horner`: the quadratic extension, its packed elements, and Horner folds.
- `coset`, `barycentric`, `matrix`, `interpolate`: cosets in bit-reversed order, and the evaluation of
  committed polynomials at the points `z` and `h * z` outside of their domain.
- `folder`: the folding of constraints with powers of a challenge.
- `word`, `poseidon2`, `merkle`, `mmr`, `frontier`, `serialization`, `text`: append-only Merkle trees,
  held as the full subtrees on the path to their next leaf.

Contracts speak of integers modulo the order, of sequences and of spec functions over them. Public
proof functions whose names start with `law_` state what holds of several functions together. Calls
into the `p3` crates stand behind small functions marked `#[verifier::external_body]`, whose
documentation says what is taken on trust.

`app/` holds what is left to ordinary Rust: serde, sampling, and displayable errors.
