# nova_snark

The verified core of a non-uniform incrementally verifiable computation
(SuperNova-style) proof system, written in Verus.

- `src/field.rs`: the prime-field interface, stated over integers modulo the
  field's characteristic, and a concrete field of order 65537.
- `src/r1cs.rs`: rank-1 constraint systems with an assignment, and the
  congruence reasoning the gadgets are proved with.
- `src/gadgets.rs`: small constraint gadgets (constants, bit packing, equality,
  conditional selection); each states the value it assigns, that its constraints
  hold under that assignment, and what every satisfying assignment must give it.
- `src/supernova/`: the public parameters and their commitment keys, the running
  claims, the selector over augmented circuits, and the bookkeeping of the
  recursive proof (base step, step, verification), which takes what the proving
  backend computed as arguments.
- `src/instances.rs`: R1CS shapes, instances and witnesses.
- `src/spartan/`: univariate and multilinear polynomials, and the sum-check
  protocol: provers for products and for `a (b c - d)`, single and batched, with
  their completeness proved (the cubic prover for any combination of degree at
  most three), and the verifier. Challenges come from a `TranscriptEngine` held
  in a `Transcript` (`src/spartan/transcript.rs`), which is the only way to
  reach the engine and records every call made on it; provers and verifier state exactly which round polynomials they
  absorb and which challenges they draw, and that they fail only when a draw
  fails.
- `app/`: serializable forms of the proofs and parameters over the concrete field.
