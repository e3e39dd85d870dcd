# titan

Titan is a transparent polynomial commitment scheme over the Pallas curve,
with the TitanSnark built on it (a variant of the Spartan PIOP), written in
Verus: the library's code carries `requires`/`ensures` contracts that Verus
proves.

Layout:

- `src/` — the verified library: field and group elements (`field`, `group`),
  sums and multilinear polynomials (`sums`, `mle`, `multilinear`, `utils`),
  the Merlin transcript (`transcript`), the field sum-check
  (`field_sumcheck`, with completeness laws in `sumcheck_laws`: for any
  combining function of bounded degree, and for the identity, product,
  R1CS and reduction ones), the group sum-check (`group_sumcheck`, `sumcheck`, with its
  completeness laws, single, batched and non-interactive, in `group_laws`),
  the inner-product argument (`bulletproof`, with its completeness in
  `bp_laws`), the commitment scheme (`pcs`, with the completeness of single,
  aggregate and batch evaluation proofs in `pcs_laws`), R1CS (`r1cs`), and
  the SNARK
  (`snark` for the verifier, `snark_prover`, `snark_memory`,
  `snark_openings` for the prover's steps).
- `app/` — the program around it: the Merkle trees over the committed cosets
  (from `ark_crypto_primitives`), the SNARK prover run step by step with the
  Merkle roots in between, and demos.
- `tests/` — the tests, run against the compiled library.

The Merkle trees live outside the library; its verifiers take the verdict on
the authentication paths as an argument.
