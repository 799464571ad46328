# aethel_core

Lattice identity primitives, verified with Verus.

- `plp`: projected lattice proofs of identity. A master secret is projected
  per context `τ` as `b_τ = A_τ·s + e_τ` over `Z_q[X]/(X^256 + 1)`, and a
  Fiat–Shamir proof shows knowledge of `s`. Includes the NTT, with proofs that
  it inverts and that NTT multiplication equals the negacyclic product.
- `credential`: attribute credentials (issue, blind, present, verify) whose
  presentations are linked to a PLP projection; completeness is proved.
- `htss`: Shamir sharing over `F_q` and routing over a 5-dimensional hypercube.
- `puf`: GF(2^8) arithmetic, BCH coding and a fuzzy extractor.
- `signing`: ML-DSA-65 identities (through `pqc-sig`) derived from entropy.
- `component`: the component's operations over plain values.
- `xof`: SHAKE-256 and SHA3-256 (through `sha3`), streams and rejection
  sampling.

`src/` is the verified library; `tests/` holds its tests; `app/` holds the C
FFI types and the floating-point SDK types, which Verus does not check.
