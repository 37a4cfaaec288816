# twenty_first

A verified library for FRI, the proof that a codeword is close to a polynomial of
low degree, and for the bagging of the peaks of a Merkle mountain range.

- `src/fri.rs`: the prover and the verifier. `src/fri_model.rs` says what they
  compute: the sampled indices, the folded codewords, the transcript of a proof and
  the verdict on a transcript.
- `src/fri_laws.rs`, `src/low_degree.rs`, `src/sampling_laws.rs`: what holds of the
  protocol as a whole. Codewords of polynomials of low degree are accepted on every
  transcript; a proof reveals values of the codeword that it is about; no two samples
  fall on one place of the last codeword.
- `src/field.rs`, `src/b_field_element.rs`, `src/x_field_element.rs`,
  `src/primality.rs`, `src/roots.rs`, `src/generator.rs`, `src/extension.rs`: the
  fields, with the proofs that both are fields, a generator of the base field's group,
  and roots of unity.
- `src/algebra.rs`, `src/group.rs`, `src/polynomial.rs`, `src/ntt.rs`,
  `src/interpolation.rs`: sums, powers, roots of unity, polynomials and the inverse
  transform.
- `src/merkle_tree.rs`, `src/proof_stream.rs`, `src/codec.rs`, `src/bytes.rs`,
  `src/utils.rs`: commitments, transcripts, encodings, and the digests that they rest
  on. `utils` holds the one function that is trusted, the call of `blake3::hash`.
- `src/tip5.rs`, `src/digest.rs`, `src/shared.rs`: the Tip5 hash function and
  `bag_peaks`.
- `app/`: the errors of the protocol as standard errors.
