# flock_prover

The circuits, reductions and transcripts of a hash-based prover over
GF(2^128), verified with Verus.

- `src/field.rs`, `frobenius.rs`, `sums.rs`, `mle.rs`, `polynomial.rs`,
  `lookup.rs`, `sumcheck.rs`, `packed_bits.rs`, `packed_mle.rs`: the field,
  multilinear extensions and packed tables.
- `src/blake3.rs`, `fs_chain.rs`, `keccak.rs`, `keccak_gkr.rs`: the two hash
  functions, a traced transcript hash with what whole histories of its calls
  leave, and a layered argument for the permutation.
- `src/r1cs.rs`, `merkle_r1cs.rs`, `merkle_octopus.rs`, `family_h.rs`,
  `hash_to_point_slots.rs`: constraint systems and their witnesses.
- `src/hash_to_point_scatter.rs`, `hash_to_point_record.rs`,
  `hash_to_point_sponge.rs`, `hash_to_point_link.rs`,
  `hash_to_point_hybrid.rs`: the arguments that tie a point to its salt.
- `src/carry_gate.rs`, `claim_closure.rs`, `face_closure.rs`: smaller
  arguments on words and on opening claims.
- `src/prover.rs`, `transcript.rs`, `bytes.rs`, `vectors.rs`: the order of a
  proof, what its transcripts observe, and reproducible vectors.
- `tests/` runs the library against `blake3` and `sha3`.
- `app/` is the unverified rest: the challenger's loop, the drivers of the
  composed provers, wire forms and files.

Challenges are arguments of the verified functions. A transcript is a list of
events (`transcript::scripts`), which a challenger outside the library runs.

The laws come in pairs where they can: an honest prover's messages are accepted,
and what is accepted is true short of a coincidence at a challenge
(`hash_to_point_scatter::soundness`, `hash_to_point_sponge::soundness`), with a
bound on how many challenges coincide in place of a probability.
