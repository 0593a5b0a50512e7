# lean_multisig

Verified building blocks of a hash-based multi-signature prover, written in Rust and proved with
Verus.

- `src/` is the library. Every function states in its contract what it returns.
  - `field`, `ring`, `word`, `math`, `poly`: the KoalaBear field, rings and algebras, 32-bit words,
    and multilinear polynomials.
  - `blake3_hash`: Blake3 over field elements. It is the one place that relies on code outside the
    library, the `blake3` crate.
  - `symmetric`: compression, the sponge and Merkle trees.
  - `tables`: the Blake3 precompile tables, with their traces and constraints.
  - `poseidon`: the Poseidon permutation, its traces and its witness.
  - `sumcheck`: product sumchecks.
  - `whir`: commitments, openings and the rounds of the opening protocol.
  - `stacked_pcs`: many columns stacked into one committed polynomial.
  - `xor_table`, `zk_alloc`, `preload`, `memory`, `alpha_powers`, `wrappers`: the byte-XOR table, the
    decisions of an arena allocator, and small helpers.
- Public proof functions named `law_...` state what holds across functions: that the digest of a
  traced compression is the native one, that openings verify, that the rounds of a sumcheck keep the
  claimed sum true, that allocations do not overlap.
  - Of the constrained Blake3 table: a G-function's constraints hold on what it computes from any
    words. Every row of a traced compression satisfies the constraints of the table, but for those on
    the lookup addresses of the first three XORs, whose columns the generator leaves empty; with the
    addresses in them these hold as well. Padding rows satisfy every constraint.
- `tests/` runs the library on concrete values.
- `app/` is ordinary Rust around it: process-wide settings, the global allocator, hooks, and provers
  that talk to a transcript. A transcript and the transforms of the field come from outside, as
  implementations of the traits in `app/transcript.rs`.
