//! The FRI protocol: a proof that a codeword is close to a polynomial of low
//! degree.

use vstd::arithmetic::div_mod::*;
use vstd::arithmetic::power2::*;
use vstd::prelude::*;

use crate::algebra::{
    lemma_from_nat_pow2_invertible, lemma_inv, lemma_inv_unique, lemma_invertible_power,
    lemma_invertible_product, lemma_power_canonical, lemma_power_one,
    lemma_root_of_unity_invertible,
};
use crate::bytes::{le_bytes, lemma_le_bytes_len};
use crate::codec::{
    all_valid_paths, decode_elements, decode_paths, encode_elements, encode_paths, encodes_elements,
    lemma_concatenated_len, read_digest, valid_path,
};
use crate::field::{all_canonical, inv, invertible, power, FieldElement, PrimeField};
use crate::fri_lemmas::{
    lemma_codeword_length, lemma_folded_domain, lemma_half_of_domain, lemma_halving, lemma_lengths,
    lemma_lifted_draws, lemma_next_domain, lemma_reduced_twice, lemma_top_indices,
    lemma_trace_length,
};
use crate::fri_model::{
    challenge_at, commit_transcript, committed, counter_bytes, counter_digest, domain_point, draws,
    folded, last_word_is_accepted, last_word_matches, lifted, lifted_draws, moved, opened_indices,
    proof_transcript, query_items, query_transcript, reduced, revealed, root_at, round_error,
    rounds_verdict, sample_colinear, sampled_indices, verdict,
};
use crate::group::{
    batch_inversion, get_cyclic_group_elements, has_order, is_order, mod_pow_u32, order_at_least,
};
use crate::merkle_tree::{
    authenticates_all, is_leaf_count, path_views, MerkleTree, PartialAuthenticationPath,
};
use crate::ntt::slow_intt;
use crate::other::{lemma_pow2_monotone, log_2_ceil};
use crate::polynomial::Polynomial;
use crate::proof_stream::{ProofStream, ProofStreamError};
use crate::sampling_laws::law_round_count;
use crate::utils::{
    append_bytes, blake3_digest, digest_of, digests_equal, get_index_from_bytes, index_of,
};

verus! {

/// Why a proof was not accepted.
#[derive(PartialEq, Eq, Debug, Clone, Copy)]
pub enum ValidationError {
    BadMerkleProof,
    BadSizedProof,
    NonPostiveRoundCount,
    NotColinear(usize),
    LastIterationTooHighDegree,
    BadMerkleRootForLastCodeword,
}

/// Why no verdict was reached, or why it was negative.
#[derive(PartialEq, Eq, Debug, Clone, Copy)]
pub enum FriError {
    Stream(ProofStreamError),
    Validation(ValidationError),
}

/// The parameters of the protocol.
#[derive(Debug, Clone)]
pub struct Fri<PF: PrimeField> {
    /// Offset for the subgroup generator.
    pub offset: PF::Elem,
    /// Generator of the expanded domain.
    pub omega: PF::Elem,
    /// Size of the domain generated by omega.
    pub domain_length: usize,
    /// The domain length divided by the trace length.
    pub expansion_factor: usize,
    /// The number of samples per round.
    pub colinearity_checks_count: usize,
}

impl<PF: PrimeField> Fri<PF> {
    pub fn new(
        offset: PF::Elem,
        omega: PF::Elem,
        domain_length: usize,
        expansion_factor: usize,
        colinearity_checks_count: usize,
    ) -> (fri: Self)
        ensures
            fri == (Fri::<PF> {
                offset,
                omega,
                domain_length,
                expansion_factor,
                colinearity_checks_count,
            }),
    {
        Fri { offset, omega, domain_length, expansion_factor, colinearity_checks_count }
    }

    /// The number of rounds, and the largest degree that the last codeword may
    /// have.
    pub fn num_rounds(&self) -> (r: (u8, u32))
        requires
            self.rounds_defined(),
        ensures
            r.0 == self.rounds(),
            r.1 == self.last_degree(),
            self.expansion_factor * (r.1 + 1) >= self.colinearity_checks_count,
            r.1 > 0 ==> self.expansion_factor * (r.1 + 1) < 2 * self.colinearity_checks_count,
            self.domain_length as int / self.expansion_factor as int <= pow2(r.0 as nat) * (r.1
                + 1) < 2 * (self.domain_length as int / self.expansion_factor as int),
    {
        proof {
            lemma2_to64();
            lemma_trace_length(self);
            law_round_count(self);
        }
        let max_degree: usize = self.domain_length / self.expansion_factor - 1;
        let mut rounds_count: u8 = log_2_ceil(max_degree as u64 + 1) as u8;
        let mut max_degree_of_last_round: u32 = 0;
        if self.expansion_factor < self.colinearity_checks_count {
            let checks_per_point: usize = (self.colinearity_checks_count - 1)
                / self.expansion_factor + 1;
            proof {
                lemma_div_plus_one(
                    self.colinearity_checks_count - 1,
                    self.expansion_factor as int,
                );
            }
            let num_missed_rounds: u8 = log_2_ceil(checks_per_point as u64) as u8;
            rounds_count = rounds_count - num_missed_rounds;
            max_degree_of_last_round = power_of_two(num_missed_rounds) - 1;
        }
        (rounds_count, max_degree_of_last_round)
    }

    /// The indices at which the first folding is checked.
    ///
    /// Up to as many indices as the last codeword has places are picked from it.
    /// From round to round, one of the two indices that fold to each is then
    /// chosen, until the indices for the first round are reached.
    pub fn sample_indices(&self, seed: &[u8]) -> (indices: Vec<usize>)
        requires
            self.sampling_defined(),
        ensures
            indices@ == sampled_indices(self, seed@),
    {
        let num_rounds: u8 = self.num_rounds().0;
        let last_codeword_length: usize = halved(self.domain_length, num_rounds);
        let checks: usize = self.colinearity_checks_count;
        let ghost n: nat = self.last_length();
        let mut last_indices: Vec<usize> = Vec::new();
        let mut remaining: Vec<usize> = Vec::new();
        let mut i: usize = 0;
        while i < last_codeword_length
            invariant
                i <= last_codeword_length,
                remaining@.len() == i,
                forall|j: int| 0 <= j < i ==> #[trigger] remaining@[j] == j,
            decreases last_codeword_length - i,
        {
            remaining.push(i);
            i = i + 1;
        }
        assert(remaining@ =~= draws(seed@, n, 0).left);
        let mut counter: u32 = 0;
        while (counter as usize) < checks
            invariant
                checks <= n,
                n <= usize::MAX,
                counter <= checks <= u32::MAX,
                last_indices@ == draws(seed@, n, counter as nat).drawn,
                remaining@ == draws(seed@, n, counter as nat).left,
                remaining@.len() == n - counter,
            decreases checks - counter,
        {
            let digest: [u8; 32] = derive(seed, counter);
            last_indices.push(pick(&mut remaining, &digest));
            counter = counter + 1;
        }
        let mut indices: Vec<usize> = last_indices;
        let mut half: usize = last_codeword_length;
        let mut i: u8 = 1;
        let ghost domain: nat = self.domain_length as nat;
        proof {
            lemma2_to64();
            lemma_lifted_draws(seed@, n, checks as nat, 0);
        }
        while i < num_rounds
            invariant
                1 <= i,
                num_rounds > 0 ==> i <= num_rounds,
                num_rounds == 0 ==> i == 1,
                checks <= n,
                n <= usize::MAX,
                checks * num_rounds <= u32::MAX,
                counter == checks * i,
                domain <= usize::MAX,
                n == domain / pow2(num_rounds as nat),
                i <= num_rounds ==> half == n * pow2((i - 1) as nat),
                indices@ == lifted_draws(seed@, n, checks as nat, (i - 1) as nat),
                indices@.len() == checks,
                forall|s: int|
                    0 <= s < checks ==> (#[trigger] indices@[s]) < n * pow2((i - 1) as nat),
            decreases num_rounds - i,
        {
            proof {
                lemma_pow2_unfold(i as nat);
                lemma_lengths(domain, num_rounds as nat, i as nat);
                assert(n * pow2(i as nat) == 2 * (n * pow2((i - 1) as nat))) by (nonlinear_arith)
                    requires
                        pow2(i as nat) == 2 * pow2((i - 1) as nat),
                ;
                assert(checks * i + checks == checks * (i + 1)) by (nonlinear_arith);
                assert(checks * (i + 1) <= checks * num_rounds) by (nonlinear_arith)
                    requires
                        i + 1 <= num_rounds,
                ;
            }
            let mut new_indices: Vec<usize> = Vec::new();
            let ghost goal: Seq<usize> = lifted(
                seed@,
                indices@,
                half as nat,
                (checks * i) as nat,
            );
            let mut s: usize = 0;
            while s < checks
                invariant
                    s <= checks,
                    checks * i + checks <= u32::MAX,
                    counter == checks * i + s,
                    indices@.len() == checks,
                    2 * half <= usize::MAX,
                    forall|s: int| 0 <= s < checks ==> (#[trigger] indices@[s]) < half,
                    goal == lifted(seed@, indices@, half as nat, (checks * i) as nat),
                    new_indices@ == goal.take(s as int),
                decreases checks - s,
            {
                let digest: [u8; 32] = derive(seed, counter);
                new_indices.push(lift(indices[s], half, &digest));
                counter = counter + 1;
                s = s + 1;
                proof {
                    assert(new_indices@ =~= goal.take(s as int));
                }
            }
            assert(new_indices@ =~= goal);
            indices = new_indices;
            half = 2 * half;
            i = i + 1;
            proof {
                lemma_lifted_draws(seed@, n, checks as nat, (i - 1) as nat);
            }
        }
        indices
    }

    /// Proves that the codeword is close to a polynomial of low degree, and
    /// returns the indices at which the first folding is opened.
    pub fn prove(&self, codeword: &[PF::Elem], proof_stream: &mut ProofStream) -> (r: Result<
        Vec<usize>,
        FriError,
    >)
        requires
            self.proving_defined(),
            codeword@.len() == self.domain_length,
            all_canonical(codeword@),
        ensures
            r matches Ok(indices) && indices@ == opened_indices(
                self,
                codeword@,
                old(proof_stream).transcript(),
            ),
            final(proof_stream).transcript() == proof_transcript(
                self,
                codeword@,
                old(proof_stream).transcript(),
            ),
            final(proof_stream).position() == old(proof_stream).position(),
    {
        let ghost t0: Seq<u8> = proof_stream.transcript();
        let ghost w0: Seq<PF::Elem> = codeword@;
        // commit phase
        let merkle_trees: Vec<MerkleTree<PF::Elem>> = self.commit(codeword, proof_stream);
        // fiat-shamir phase
        let seed: [u8; 32] = proof_stream.prover_fiat_shamir();
        let top_level_indices: Vec<usize> = self.sample_indices(&seed);
        let ghost top: Seq<usize> = opened_indices(self, w0, t0);
        proof {
            lemma_top_indices(self, seed@);
        }
        // query phase
        let mut c_indices: Vec<usize> = copied(&top_level_indices);
        let mut i: usize = 0;
        while i < merkle_trees.len() - 1
            invariant
                self.proving_defined(),
                w0.len() == self.domain_length,
                i <= self.rounds(),
                merkle_trees@.len() == self.rounds() + 1,
                forall|k: int|
                    0 <= k < merkle_trees@.len() ==> (#[trigger] merkle_trees@[k]).well_formed()
                        && merkle_trees@[k]@ == committed(self, w0, t0, k as nat).word,
                top == opened_indices(self, w0, t0),
                i == 0 ==> c_indices@ == top,
                i > 0 ==> c_indices@ == reduced(top, self.length_after(i as nat)),
                proof_stream.transcript() == query_transcript(self, w0, t0, i as nat),
                proof_stream.position() == old(proof_stream).position(),
            decreases merkle_trees@.len() - i,
        {
            proof {
                lemma_codeword_length(self, w0, t0, i as nat);
                lemma_codeword_length(self, w0, t0, (i + 1) as nat);
                lemma_halving(self, i as nat);
            }
            let half: usize = merkle_trees[i].get_number_of_leafs() / 2;
            c_indices = reduce(&c_indices, half);
            proof {
                if i > 0 {
                    lemma_reduced_twice(self, top, i as nat);
                }
                let m = self.length_after((i + 1) as nat);
                assert(c_indices@ == reduced(top, m));
                assert forall|s: int| 0 <= s < c_indices@.len() implies (#[trigger] c_indices@[s])
                    < m by {
                    lemma_mod_bound(top[s] as int, m as int);
                }
            }
            self.query(&merkle_trees[i], &merkle_trees[i + 1], &c_indices, proof_stream);
            i = i + 1;
        }
        Ok(top_level_indices)
    }

    /// Folds the codeword round by round, writes the root of each, and at the end
    /// the last codeword.
    fn commit(&self, codeword: &[PF::Elem], proof_stream: &mut ProofStream) -> (trees: Vec<
        MerkleTree<PF::Elem>,
    >)
        requires
            self.proving_defined(),
            codeword@.len() == self.domain_length,
            all_canonical(codeword@),
        ensures
            trees@.len() == self.rounds() + 1,
            forall|k: int|
                0 <= k < trees@.len() ==> (#[trigger] trees@[k]).well_formed() && trees@[k]@
                    == committed(self, codeword@, old(proof_stream).transcript(), k as nat).word,
            final(proof_stream).transcript() == commit_transcript(
                self,
                codeword@,
                old(proof_stream).transcript(),
            ),
            final(proof_stream).position() == old(proof_stream).position(),
    {
        let ghost t0: Seq<u8> = proof_stream.transcript();
        let ghost w0: Seq<PF::Elem> = codeword@;
        let num_rounds: u8 = self.num_rounds().0;
        let mut generator: PF::Elem = self.omega;
        let mut offset: PF::Elem = self.offset;
        proof {
            lemma_codeword_length(self, w0, t0, 0);
            lemma2_to64();
            lemma_power_one(self.omega);
            lemma_power_one(self.offset);
        }
        // compute and send the Merkle root
        let mt: MerkleTree<PF::Elem> = MerkleTree::from_vec(codeword);
        let mut codeword_local: Vec<PF::Elem> = mt.to_vec();
        proof_stream.enqueue(&mt.get_root());
        let mut merkle_trees: Vec<MerkleTree<PF::Elem>> = Vec::new();
        merkle_trees.push(mt);
        let mut round: u8 = 0;
        while round < num_rounds
            invariant
                self.proving_defined(),
                w0.len() == self.domain_length,
                num_rounds == self.rounds(),
                round <= num_rounds,
                generator == self.generator_after(round as nat),
                offset == self.offset_after(round as nat),
                codeword_local@ == committed(self, w0, t0, round as nat).word,
                all_canonical(codeword_local@),
                proof_stream.transcript() == committed(self, w0, t0, round as nat).transcript,
                proof_stream.position() == old(proof_stream).position(),
                merkle_trees@.len() == round + 1,
                forall|k: int|
                    0 <= k < merkle_trees@.len() ==> (#[trigger] merkle_trees@[k]).well_formed()
                        && merkle_trees@[k]@ == committed(self, w0, t0, k as nat).word,
            decreases num_rounds - round,
        {
            proof {
                lemma_codeword_length(self, w0, t0, round as nat);
                lemma_codeword_length(self, w0, t0, (round + 1) as nat);
                lemma_halving(self, round as nat);
                lemma_folded_domain(self, round as nat);
                <PF::Elem>::lemma_sampled_canonical(digest_of(proof_stream.transcript()));
            }
            // get the challenge
            let alpha: PF::Elem = <PF::Elem>::sample(&proof_stream.prover_fiat_shamir());
            codeword_local = fold(&codeword_local, offset, generator, alpha);
            // compute and send the Merkle root
            let mt: MerkleTree<PF::Elem> = MerkleTree::from_vec(&codeword_local);
            proof_stream.enqueue(&mt.get_root());
            merkle_trees.push(mt);
            // update subgroup generator and offset
            proof {
                lemma_next_domain(self, round as nat);
            }
            generator = generator.mul(generator);
            offset = offset.mul(offset);
            round = round + 1;
        }
        // send the last codeword
        let encoded: Vec<u8> = encode_elements(&codeword_local);
        proof_stream.enqueue_length_prepended(&encoded);
        merkle_trees
    }

    /// Opens the current codeword at the indices and their counterparts in its
    /// second half, and the next codeword at the indices.
    fn query(
        &self,
        current_mt: &MerkleTree<PF::Elem>,
        next_mt: &MerkleTree<PF::Elem>,
        c_indices: &[usize],
        proof_stream: &mut ProofStream,
    )
        requires
            current_mt.well_formed(),
            next_mt.well_formed(),
            forall|s: int|
                0 <= s < c_indices@.len() ==> (#[trigger] c_indices@[s]) < current_mt@.len() / 2,
            forall|s: int|
                0 <= s < c_indices@.len() ==> (#[trigger] c_indices@[s]) < next_mt@.len(),
        ensures
            final(proof_stream).transcript() == old(proof_stream).transcript() + query_items(
                current_mt@,
                next_mt@,
                c_indices@,
            ),
            final(proof_stream).position() == old(proof_stream).position(),
    {
        let half: usize = current_mt.get_number_of_leafs() / 2;
        let ghost both: Seq<usize> = c_indices@ + moved(c_indices@, half as nat);
        let ab_indices: Vec<usize> = with_counterparts(c_indices, half);
        proof {
            assert forall|s: int| 0 <= s < both.len() implies (#[trigger] both[s])
                < current_mt@.len() by {
                if s < c_indices@.len() {
                    assert(c_indices@[s] < current_mt@.len() / 2);
                } else {
                    assert(c_indices@[s - c_indices@.len()] < current_mt@.len() / 2);
                }
            }
        }
        // reveal authentication paths
        let ab_paths: Vec<u8> = encode_paths(&current_mt.get_multi_proof(&ab_indices));
        proof_stream.enqueue_length_prepended(&ab_paths);
        let c_paths: Vec<u8> = encode_paths(&next_mt.get_multi_proof(c_indices));
        proof_stream.enqueue_length_prepended(&c_paths);
        proof {
            let t = old(proof_stream).transcript();
            assert(proof_stream.transcript() =~= t + query_items(
                current_mt@,
                next_mt@,
                c_indices@,
            ));
        }
    }
}

impl<PF: PrimeField> Fri<PF> {
    /// Verifies a proof, and returns the values that it reveals of the first
    /// codeword, each with its index.
    pub fn verify(&self, proof_stream: &mut ProofStream) -> (r: Result<
        Vec<(usize, PF::Elem)>,
        FriError,
    >)
        requires
            self.verification_defined_on(
                old(proof_stream).transcript(),
                old(proof_stream).position(),
            ),
            old(proof_stream).well_formed(),
        ensures
            final(proof_stream).well_formed(),
            final(proof_stream).transcript() == old(proof_stream).transcript(),
            ({
                let v = verdict(self, old(proof_stream).transcript(), old(proof_stream).position());
                &&& final(proof_stream).position() == v.position
                &&& match v.result {
                    Ok(evaluations) => r matches Ok(e) && e@ == evaluations,
                    Err(error) => r matches Err(e) && e == error,
                }
            }),
    {
        let ghost t: Seq<u8> = proof_stream.transcript();
        let ghost start: int = proof_stream.position();
        let (num_rounds, degree_of_last_round): (u8, u32) = self.num_rounds();
        // extract all roots and calculate the challenges
        let (roots, alphas): (Vec<[u8; 32]>, Vec<PF::Elem>) = match self.read_roots(proof_stream) {
            Ok(pair) => pair,
            Err(e) => return Err(e),
        };
        // extract the last codeword
        let item: Vec<u8> = match proof_stream.dequeue_length_prepended() {
            Ok(bytes) => bytes,
            Err(e) => return Err(FriError::Stream(e)),
        };
        let last_codeword: Vec<PF::Elem> = match decode_elements(&item) {
            Some(word) => word,
            None => return Err(FriError::Stream(ProofStreamError::MalformedItem)),
        };
        proof {
            let word = last_codeword@;
            lemma_concatenated_len(word);
            lemma_le_bytes_len(word.len(), 8);
            <PF::Elem>::lemma_encoding_len(<PF::Elem>::zero());
            assert(encodes_elements(item@, word));
            assert(8 * word.len() <= word.len() * <PF::Elem>::encoding_len()) by (nonlinear_arith)
                requires
                    8 <= <PF::Elem>::encoding_len(),
            ;
            assert(item@.len() == item.len());
        }
        // check that the last codeword matches the given root
        if !is_leaf_count(last_codeword.len()) || !digests_equal(
            &roots[num_rounds as usize],
            &MerkleTree::from_vec(&last_codeword).get_root(),
        ) {
            return Err(FriError::Validation(ValidationError::BadMerkleRootForLastCodeword));
        }
        assert(last_word_matches(self, t, start));
        // check that the last codeword is of sufficiently low degree; its polynomial
        // is not scaled back, since that does not change the degree
        let last_omega: PF::Elem = self.last_generator(num_rounds);
        proof {
            let m = choose|m: nat| last_codeword@.len() == #[trigger] pow2(m);
            lemma_from_nat_pow2_invertible::<PF::Elem>(m);
            lemma_power_canonical(self.omega, pow2(num_rounds as nat));
            lemma_invertible_power(self.omega, pow2(num_rounds as nat));
        }
        let coefficients: Vec<PF::Elem> = slow_intt(&last_codeword, last_omega);
        let last_polynomial: Polynomial<PF::Elem> = Polynomial { coefficients };
        let degree_too_high: bool = match last_polynomial.degree() {
            Some(degree) => degree > degree_of_last_round as usize,
            None => false,
        };
        if degree_too_high {
            return Err(FriError::Validation(ValidationError::LastIterationTooHighDegree));
        }
        assert(last_word_is_accepted(self, t, start));
        let ghost after_word: int = proof_stream.position();
        let top_level_indices: Vec<usize> = self.sample_indices(
            &proof_stream.verifier_fiat_shamir(),
        );
        let ghost top: Seq<usize> = top_level_indices@;
        proof {
            lemma_top_indices(self, digest_of(t.take(after_word)));
            lemma2_to64();
            lemma_power_one(self.omega);
            lemma_power_one(self.offset);
        }
        // for every round, check the consistency of subsequent layers
        let mut omega: PF::Elem = self.omega;
        let mut offset: PF::Elem = self.offset;
        let mut codeword_evaluations: Vec<(usize, PF::Elem)> = Vec::new();
        let mut round: u8 = 0;
        while round < num_rounds
            invariant
                self.verification_defined(),
                num_rounds == self.rounds(),
                round <= num_rounds,
                top_level_indices@ == top,
                top.len() == self.colinearity_checks_count,
                roots@.len() == num_rounds + 1,
                alphas@.len() == num_rounds,
                forall|j: int|
                    0 <= j <= num_rounds ==> (#[trigger] roots@[j])@ == root_at(t, start, j),
                forall|j: int|
                    0 <= j < num_rounds ==> #[trigger] alphas@[j] == challenge_at::<PF::Elem>(
                        t,
                        start,
                        j,
                    ),
                omega == self.generator_after(round as nat),
                offset == self.offset_after(round as nat),
                proof_stream.well_formed(),
                proof_stream.transcript() == t,
                rounds_verdict(self, t, start, top, 0, after_word, Seq::empty()) == rounds_verdict(
                    self,
                    t,
                    start,
                    top,
                    round as nat,
                    proof_stream.position(),
                    codeword_evaluations@,
                ),
                t == old(proof_stream).transcript(),
                verdict(self, t, start) == rounds_verdict(
                    self,
                    t,
                    start,
                    top,
                    0,
                    after_word,
                    Seq::empty(),
                ),
                start == old(proof_stream).position(),
            decreases num_rounds - round,
        {
            let ab_item: Vec<u8> = match proof_stream.dequeue_length_prepended() {
                Ok(bytes) => bytes,
                Err(e) => return Err(FriError::Stream(e)),
            };
            let ab_values: Vec<PartialAuthenticationPath<PF::Elem>> = match decode_paths(&ab_item) {
                Some(paths) => paths,
                None => return Err(FriError::Stream(ProofStreamError::MalformedItem)),
            };
            let c_item: Vec<u8> = match proof_stream.dequeue_length_prepended() {
                Ok(bytes) => bytes,
                Err(e) => return Err(FriError::Stream(e)),
            };
            let c_values: Vec<PartialAuthenticationPath<PF::Elem>> = match decode_paths(&c_item) {
                Some(paths) => paths,
                None => return Err(FriError::Stream(ProofStreamError::MalformedItem)),
            };
            proof {
                <PF::Elem>::lemma_sampled_canonical(digest_of(t.take(start + 32 * (round + 1))));
            }
            match self.check_round(
                round,
                (offset, omega),
                alphas[round as usize],
                (roots[round as usize], roots[round as usize + 1]),
                &top_level_indices,
                &ab_values,
                &c_values,
            ) {
                Some(e) => return Err(FriError::Validation(e)),
                None => {},
            }
            // return the values of the first codeword to the caller
            if round == 0 {
                codeword_evaluations = self.top_level_values(&top_level_indices, &ab_values);
            }
            // update subgroup generator and offset
            proof {
                lemma_next_domain(self, round as nat);
            }
            omega = omega.mul(omega);
            offset = offset.mul(offset);
            round = round + 1;
        }
        Ok(codeword_evaluations)
    }

    /// Verifies a proof as [`Fri::verify`] does, for parameters of which it is not
    /// known whether every proof can be verified. Where that is not so, nothing is
    /// read, and the result is `None`.
    pub fn checked_verify(&self, proof_stream: &mut ProofStream) -> (r: Option<
        Result<Vec<(usize, PF::Elem)>, FriError>,
    >)
        requires
            self.rounds_defined(),
            self.offset.canonical(),
            self.omega.canonical(),
            old(proof_stream).well_formed(),
        ensures
            final(proof_stream).well_formed(),
            final(proof_stream).transcript() == old(proof_stream).transcript(),
            ({
                let v = verdict(self, old(proof_stream).transcript(), old(proof_stream).position());
                if self.verification_defined() {
                    &&& final(proof_stream).position() == v.position
                    &&& match v.result {
                        Ok(evaluations) => r matches Some(Ok(e)) && e@ == evaluations,
                        Err(error) => r matches Some(Err(e)) && e == error,
                    }
                } else {
                    &&& r is None
                    &&& final(proof_stream).position() == old(proof_stream).position()
                }
            }),
    {
        let num_rounds: u8 = self.num_rounds().0;
        let checks: usize = self.colinearity_checks_count;
        if checks > halved(self.domain_length, num_rounds) || checks as u64 > 0xffff_ffff {
            return None;
        }
        proof {
            assert(checks * num_rounds <= 0xffff_ffff * 0xff) by (nonlinear_arith)
                requires
                    checks <= 0xffff_ffff,
                    num_rounds <= 0xff,
            ;
        }
        if (checks as u64) * (num_rounds as u64) > 0xffff_ffff {
            return None;
        }
        match self.omega.inverse() {
            Some(_) => Some(self.verify(proof_stream)),
            None => None,
        }
    }

    /// The points at which codewords hold the values of a polynomial.
    pub fn get_evaluation_domain(&self) -> (points: Vec<PF::Elem>)
        requires
            self.offset.canonical(),
            self.omega.canonical(),
            has_order(self.omega),
        ensures
            is_order(self.omega, points@.len()),
            points@ == Seq::new(
                points@.len(),
                |i: int| domain_point(self.offset, self.omega, i as nat),
            ),
            forall|i: int|
                0 <= i < points@.len() ==> #[trigger] points@[i] == power(
                    self.omega,
                    i as nat,
                ).times(self.offset),
    {
        let omega_domain: Vec<PF::Elem> = get_cyclic_group_elements(self.omega);
        let points: Vec<PF::Elem> = scale(&omega_domain, self.offset);
        assert(points@ =~= Seq::new(
            points@.len(),
            |i: int| domain_point(self.offset, self.omega, i as nat),
        ));
        points
    }

    /// Reads the root of every codeword, and derives the challenge of every round.
    fn read_roots(&self, proof_stream: &mut ProofStream) -> (r: Result<
        (Vec<[u8; 32]>, Vec<PF::Elem>),
        FriError,
    >)
        requires
            self.rounds_defined(),
            old(proof_stream).well_formed(),
        ensures
            final(proof_stream).well_formed(),
            final(proof_stream).transcript() == old(proof_stream).transcript(),
            ({
                let t = old(proof_stream).transcript();
                let start = old(proof_stream).position();
                let end = start + 32 * (self.rounds() + 1);
                if end <= t.len() {
                    &&& final(proof_stream).position() == end
                    &&& r matches Ok(pair)
                    &&& pair.0@.len() == self.rounds() + 1
                    &&& pair.1@.len() == self.rounds()
                    &&& forall|j: int|
                        0 <= j <= self.rounds() ==> (#[trigger] pair.0@[j])@ == root_at(t, start, j)
                    &&& forall|j: int|
                        0 <= j < self.rounds() ==> #[trigger] pair.1@[j] == challenge_at::<
                            PF::Elem,
                        >(t, start, j)
                } else {
                    &&& final(proof_stream).position() == start + 32 * ((t.len() - start) / 32)
                    &&& r matches Err(e)
                    &&& e == FriError::Stream(ProofStreamError::TranscriptLengthExceeded)
                }
            }),
    {
        let ghost t: Seq<u8> = proof_stream.transcript();
        let ghost start: int = proof_stream.position();
        let num_rounds: u8 = self.num_rounds().0;
        let mut roots: Vec<[u8; 32]> = Vec::new();
        let mut alphas: Vec<PF::Elem> = Vec::new();
        let first: Vec<u8> = match proof_stream.dequeue(32) {
            Ok(bytes) => bytes,
            Err(e) => return Err(FriError::Stream(e)),
        };
        roots.push(read_digest(&first, 0));
        assert(roots@[0]@ =~= root_at(t, start, 0));
        let mut round: u8 = 0;
        while round < num_rounds
            invariant
                num_rounds == self.rounds(),
                round <= num_rounds,
                t == old(proof_stream).transcript(),
                start == old(proof_stream).position(),
                proof_stream.well_formed(),
                proof_stream.transcript() == t,
                proof_stream.position() == start + 32 * (round + 1),
                roots@.len() == round + 1,
                alphas@.len() == round,
                forall|j: int| 0 <= j <= round ==> (#[trigger] roots@[j])@ == root_at(t, start, j),
                forall|j: int|
                    0 <= j < round ==> #[trigger] alphas@[j] == challenge_at::<PF::Elem>(
                        t,
                        start,
                        j,
                    ),
            decreases num_rounds - round,
        {
            // get a challenge from the proof stream
            alphas.push(<PF::Elem>::sample(&proof_stream.verifier_fiat_shamir()));
            let next: Vec<u8> = match proof_stream.dequeue(32) {
                Ok(bytes) => bytes,
                Err(e) => return Err(FriError::Stream(e)),
            };
            roots.push(read_digest(&next, 0));
            round = round + 1;
            proof {
                assert(roots@[round as int]@ =~= root_at(t, start, round as int));
            }
        }
        Ok((roots, alphas))
    }

    /// The generator of the domain after all rounds.
    fn last_generator(&self, num_rounds: u8) -> (generator: PF::Elem)
        requires
            self.omega.canonical(),
            self.offset.canonical(),
        ensures
            generator == self.generator_after(num_rounds as nat),
    {
        let mut generator: PF::Elem = self.omega;
        let mut round: u8 = 0;
        proof {
            lemma2_to64();
            lemma_power_one(self.omega);
        }
        while round < num_rounds
            invariant
                self.omega.canonical(),
                self.offset.canonical(),
                round <= num_rounds,
                generator == self.generator_after(round as nat),
            decreases num_rounds - round,
        {
            proof {
                lemma_next_domain(self, round as nat);
            }
            generator = generator.mul(generator);
            round = round + 1;
        }
        generator
    }

    /// Checks the openings of one round; returns what is wrong with them.
    pub fn check_round(
        &self,
        round: u8,
        domain: (PF::Elem, PF::Elem),
        alpha: PF::Elem,
        roots: ([u8; 32], [u8; 32]),
        top_level_indices: &[usize],
        ab_values: &[PartialAuthenticationPath<PF::Elem>],
        c_values: &[PartialAuthenticationPath<PF::Elem>],
    ) -> (r: Option<ValidationError>)
        requires
            self.verification_defined(),
            round < self.rounds(),
            round < u8::MAX,
            domain == (self.offset_after(round as nat), self.generator_after(round as nat)),
            alpha.canonical(),
            top_level_indices@.len() == self.colinearity_checks_count,
            all_valid_paths(path_views(ab_values@)),
            all_valid_paths(path_views(c_values@)),
        ensures
            r == round_error(
                self,
                round as nat,
                alpha,
                roots.0@,
                roots.1@,
                top_level_indices@,
                path_views(ab_values@),
                path_views(c_values@),
            ),
    {
        let checks: usize = self.colinearity_checks_count;
        let ghost ab_paths = path_views(ab_values@);
        let ghost c_paths = path_views(c_values@);
        let half: usize = halved(self.domain_length, round + 1);
        proof {
            lemma_half_of_domain(self, round as nat);
        }
        // fold the indices, and infer their counterparts
        let a_indices: Vec<usize> = reduce(top_level_indices, half);
        proof {
            assert forall|s: int| 0 <= s < checks implies (#[trigger] a_indices@[s]) < half by {
                lemma_mod_bound(top_level_indices@[s] as int, half as int);
            }
        }
        let b_indices: Vec<usize> = shift(&a_indices, half);
        let ab_indices: Vec<usize> = with_counterparts(&a_indices, half);
        // verify the authentication paths
        if !MerkleTree::verify_multi_proof(roots.0, &ab_indices, ab_values)
            || !MerkleTree::verify_multi_proof(roots.1, &a_indices, c_values) {
            return Some(ValidationError::BadMerkleProof);
        }
        // verify that the expected number of samples are present
        if ab_values.len() / 2 != checks || ab_values.len() % 2 != 0 || c_values.len() != checks {
            return Some(ValidationError::BadSizedProof);
        }
        // check colinearity
        let (offset, generator): (PF::Elem, PF::Elem) = domain;
        proof {
            lemma_next_domain(self, round as nat);
        }
        let mut s: usize = 0;
        while s < checks
            invariant
                s <= checks,
                checks == self.colinearity_checks_count,
                ab_values@.len() == 2 * checks,
                c_values@.len() == checks,
                ab_paths == path_views(ab_values@),
                c_paths == path_views(c_values@),
                all_valid_paths(ab_paths),
                all_valid_paths(c_paths),
                offset == self.offset_after(round as nat),
                generator == self.generator_after(round as nat),
                offset.canonical(),
                generator.canonical(),
                alpha.canonical(),
                half == self.length_after((round + 1) as nat),
                a_indices@ == reduced(top_level_indices@, half as nat),
                a_indices@.len() == checks,
                b_indices@ == moved(a_indices@, half as nat),
                authenticates_all(roots.0@, a_indices@ + b_indices@, ab_paths),
                authenticates_all(roots.1@, a_indices@, c_paths),
                2 * half <= usize::MAX,
                forall|s: int| 0 <= s < checks ==> (#[trigger] a_indices@[s]) < half,
                forall|t: int|
                    0 <= t < s ==> #[trigger] sample_colinear(
                        self,
                        round as nat,
                        alpha,
                        a_indices@,
                        b_indices@,
                        ab_paths,
                        c_paths,
                        t,
                    ),
            decreases checks - s,
        {
            let a_power: PF::Elem = mod_pow_u32(generator, a_indices[s] as u32);
            let b_power: PF::Elem = mod_pow_u32(generator, b_indices[s] as u32);
            proof {
                <PF::Elem>::lemma_closed(offset, a_power);
                <PF::Elem>::lemma_closed(offset, b_power);
                assert(valid_path(ab_paths[s as int]));
                assert(valid_path(ab_paths[checks + s]));
                assert(valid_path(c_paths[s as int]));
            }
            let colinear: bool = Polynomial::are_colinear_3(
                (offset.mul(a_power), ab_values[s].get_value()),
                (offset.mul(b_power), ab_values[checks + s].get_value()),
                (alpha, c_values[s].get_value()),
            );
            if !colinear {
                proof {
                    assert(!sample_colinear(
                        self,
                        round as nat,
                        alpha,
                        a_indices@,
                        b_indices@,
                        ab_paths,
                        c_paths,
                        s as int,
                    ));
                }
                return Some(ValidationError::NotColinear(round as usize));
            }
            s = s + 1;
        }
        None
    }

    /// The values that the openings of the first round reveal, with their indices.
    fn top_level_values(
        &self,
        top_level_indices: &[usize],
        ab_values: &[PartialAuthenticationPath<PF::Elem>],
    ) -> (evaluations: Vec<(usize, PF::Elem)>)
        requires
            self.verification_defined(),
            self.rounds() > 0,
            top_level_indices@.len() == self.colinearity_checks_count,
            ab_values@.len() == 2 * self.colinearity_checks_count,
        ensures
            evaluations@ == ({
                let a_indices = reduced(top_level_indices@, self.length_after(1));
                revealed(
                    a_indices,
                    moved(a_indices, self.length_after(1)),
                    path_views(ab_values@),
                )
            }),
    {
        let checks: usize = self.colinearity_checks_count;
        let half: usize = halved(self.domain_length, 1);
        proof {
            lemma_half_of_domain(self, 0);
        }
        let a_indices: Vec<usize> = reduce(top_level_indices, half);
        proof {
            assert forall|s: int| 0 <= s < checks implies (#[trigger] a_indices@[s]) < half by {
                lemma_mod_bound(top_level_indices@[s] as int, half as int);
            }
        }
        let b_indices: Vec<usize> = shift(&a_indices, half);
        let ghost all: Seq<(usize, PF::Elem)> = revealed(
            a_indices@,
            b_indices@,
            path_views(ab_values@),
        );
        let mut evaluations: Vec<(usize, PF::Elem)> = Vec::new();
        let mut s: usize = 0;
        while s < checks
            invariant
                s <= checks,
                ab_values@.len() == 2 * checks,
                a_indices@.len() == checks,
                b_indices@.len() == checks,
                all == revealed(a_indices@, b_indices@, path_views(ab_values@)),
                evaluations@ == all.take(2 * s),
            decreases checks - s,
        {
            evaluations.push((a_indices[s], ab_values[s].get_value()));
            evaluations.push((b_indices[s], ab_values[checks + s].get_value()));
            s = s + 1;
            proof {
                assert((2 * s - 1) / 2 == s - 1);
                assert((2 * s - 2) / 2 == s - 1);
                assert(evaluations@ =~= all.take(2 * s));
            }
        }
        assert(evaluations@ =~= all);
        evaluations
    }
}

/// Takes the element that the digest selects out of those that remain.
pub fn pick(remaining: &mut Vec<usize>, digest: &[u8]) -> (picked: usize)
    requires
        old(remaining)@.len() > 0,
    ensures
        ({
            let j = index_of(digest@, old(remaining)@.len() as usize) as int;
            &&& 0 <= j < old(remaining)@.len()
            &&& picked == old(remaining)@[j]
            &&& final(remaining)@ == old(remaining)@.remove(j)
        }),
{
    let index: usize = get_index_from_bytes(digest, remaining.len());
    remaining.remove(index)
}

/// Of the two indices that fold to `index`, the one that the digest selects.
pub fn lift(index: usize, half: usize, digest: &[u8]) -> (r: usize)
    requires
        index + half <= usize::MAX,
    ensures
        r == if index_of(digest@, 2) == 0 {
            index + half
        } else {
            index as int
        },
{
    let reduce_modulo: bool = get_index_from_bytes(digest, 2) == 0;
    if reduce_modulo {
        index + half
    } else {
        index
    }
}

/// A copy of a list of indices.
fn copied(indices: &[usize]) -> (r: Vec<usize>)
    ensures
        r@ == indices@,
{
    let n: usize = indices.len();
    let mut r: Vec<usize> = Vec::new();
    let mut s: usize = 0;
    while s < n
        invariant
            s <= n,
            n == indices@.len(),
            r@ == indices@.take(s as int),
        decreases n - s,
    {
        r.push(indices[s]);
        s = s + 1;
        proof {
            assert(r@ =~= indices@.take(s as int));
        }
    }
    assert(r@ =~= indices@);
    r
}

/// The indices modulo `m`.
fn reduce(indices: &[usize], m: usize) -> (r: Vec<usize>)
    requires
        indices@.len() > 0 ==> m > 0,
    ensures
        r@ == reduced(indices@, m as nat),
{
    let n: usize = indices.len();
    let mut r: Vec<usize> = Vec::new();
    let mut s: usize = 0;
    while s < n
        invariant
            s <= n,
            n == indices@.len(),
            n > 0 ==> m > 0,
            r@ == reduced(indices@, m as nat).take(s as int),
        decreases n - s,
    {
        r.push(indices[s] % m);
        s = s + 1;
        proof {
            assert(r@ =~= reduced(indices@, m as nat).take(s as int));
        }
    }
    assert(r@ =~= reduced(indices@, m as nat));
    r
}

/// The indices, each moved by `m`.
fn shift(indices: &[usize], m: usize) -> (r: Vec<usize>)
    requires
        forall|s: int| 0 <= s < indices@.len() ==> (#[trigger] indices@[s]) + m <= usize::MAX,
    ensures
        r@ == moved(indices@, m as nat),
{
    let n: usize = indices.len();
    let mut r: Vec<usize> = Vec::new();
    let mut s: usize = 0;
    while s < n
        invariant
            s <= n,
            n == indices@.len(),
            forall|s: int| 0 <= s < indices@.len() ==> (#[trigger] indices@[s]) + m <= usize::MAX,
            r@ == moved(indices@, m as nat).take(s as int),
        decreases n - s,
    {
        r.push(indices[s] + m);
        s = s + 1;
        proof {
            assert(r@ =~= moved(indices@, m as nat).take(s as int));
        }
    }
    assert(r@ =~= moved(indices@, m as nat));
    r
}

/// The indices, followed by the same indices moved by `m`.
fn with_counterparts(indices: &[usize], m: usize) -> (r: Vec<usize>)
    requires
        forall|s: int| 0 <= s < indices@.len() ==> (#[trigger] indices@[s]) + m <= usize::MAX,
    ensures
        r@ == indices@ + moved(indices@, m as nat),
{
    let mut r: Vec<usize> = copied(indices);
    let mut b_indices: Vec<usize> = shift(indices, m);
    r.append(&mut b_indices);
    r
}

/// Folds a codeword to half its length.
pub fn fold<F: FieldElement>(word: &[F], offset: F, generator: F, alpha: F) -> (next: Vec<F>)
    requires
        all_canonical(word@),
        offset.canonical(),
        invertible(offset),
        alpha.canonical(),
        generator.canonical(),
        has_order(generator),
        order_at_least(generator, word@.len() / 2),
    ensures
        next@ == folded(word@, offset, generator, alpha),
        all_canonical(next@),
{
    let half: usize = word.len() / 2;
    let one: F = F::ring_one();
    proof {
        F::lemma_constants_canonical();
        F::lemma_closed(one, one);
        let h = F::lemma_half();
        lemma_inv_unique(one.plus(one), h);
        lemma_inv(one.plus(one));
    }
    let two: F = one.add(one);
    let two_inv: F = match two.inverse() {
        Some(b) => b,
        None => one,
    };
    proof {
        lemma_inv_unique(two, two_inv);
    }
    let group: Vec<F> = get_cyclic_group_elements(generator);
    let points: Vec<F> = scale(&group, offset);
    proof {
        assert(group@.len() >= half);
        lemma_root_of_unity_invertible(generator, group@.len());
        assert forall|i: int| 0 <= i < points@.len() implies invertible(#[trigger] points@[i]) by {
            lemma_invertible_power(generator, i as nat);
            lemma_invertible_product(power(generator, i as nat), offset);
        }
    }
    let inverses: Vec<F> = batch_inversion(&points);
    let mut next: Vec<F> = Vec::new();
    let mut i: usize = 0;
    while i < half
        invariant
            i <= half,
            half == word@.len() / 2,
            all_canonical(word@),
            alpha.canonical(),
            one == F::one(),
            one.canonical(),
            two_inv.canonical(),
            two_inv == inv(F::one().plus(F::one())),
            inverses@.len() >= half,
            all_canonical(inverses@),
            forall|k: int|
                0 <= k < half ==> #[trigger] inverses@[k] == inv(
                    domain_point(offset, generator, k as nat),
                ),
            next@ == folded(word@, offset, generator, alpha).take(i as int),
            all_canonical(next@),
        decreases half - i,
    {
        proof {
            let q = alpha.times(inverses@[i as int]);
            let a = word@[i as int];
            let b = word@[half + i];
            F::lemma_closed(alpha, inverses@[i as int]);
            F::lemma_closed(one, q);
            F::lemma_closed(one.plus(q), a);
            F::lemma_closed(one.minus(q), b);
            F::lemma_closed(one.plus(q).times(a), one.minus(q).times(b));
            F::lemma_closed(two_inv, one.plus(q).times(a).plus(one.minus(q).times(b)));
        }
        let quotient: F = alpha.mul(inverses[i]);
        let left: F = one.add(quotient).mul(word[i]);
        let right: F = one.sub(quotient).mul(word[half + i]);
        next.push(two_inv.mul(left.add(right)));
        i = i + 1;
        proof {
            assert(next@ =~= folded(word@, offset, generator, alpha).take(i as int));
        }
    }
    assert(next@ =~= folded(word@, offset, generator, alpha));
    next
}

/// The elements, each multiplied by `factor`.
fn scale<F: FieldElement>(elements: &[F], factor: F) -> (r: Vec<F>)
    requires
        all_canonical(elements@),
        factor.canonical(),
    ensures
        r@ == Seq::new(elements@.len(), |i: int| elements@[i].times(factor)),
        all_canonical(r@),
{
    let n: usize = elements.len();
    let mut r: Vec<F> = Vec::new();
    let mut i: usize = 0;
    while i < n
        invariant
            i <= n,
            n == elements@.len(),
            all_canonical(elements@),
            factor.canonical(),
            r@.len() == i,
            forall|j: int| 0 <= j < i ==> #[trigger] r@[j] == elements@[j].times(factor),
        decreases n - i,
    {
        r.push(elements[i].mul(factor));
        i = i + 1;
    }
    proof {
        assert(r@ =~= Seq::new(elements@.len(), |i: int| elements@[i].times(factor)));
        assert forall|j: int| 0 <= j < r@.len() implies (#[trigger] r@[j]).canonical() by {
            F::lemma_closed(elements@[j], factor);
        }
    }
    r
}

/// The digest that the counter derives from the seed.
fn derive(seed: &[u8], counter: u32) -> (digest: [u8; 32])
    ensures
        digest@ == counter_digest(seed@, counter as nat),
{
    let mut bytes: Vec<u8> = Vec::new();
    append_bytes(&mut bytes, seed);
    bytes.push((counter / 0x100_0000) as u8);
    bytes.push(((counter / 0x1_0000) % 0x100) as u8);
    bytes.push(((counter / 0x100) % 0x100) as u8);
    bytes.push((counter % 0x100) as u8);
    proof {
        reveal_with_fuel(le_bytes, 5);
        let v = counter as nat;
        assert(v / 256 / 256 == v / 0x1_0000);
        assert(v / 256 / 256 / 256 == v / 0x100_0000);
        assert(counter_bytes(v) =~= seq![
            (v / 0x100_0000) as u8,
            ((v / 0x1_0000) % 256) as u8,
            ((v / 0x100) % 256) as u8,
            (v % 256) as u8,
        ]);
        assert(bytes@ =~= seed@ + counter_bytes(v));
    }
    blake3_digest(bytes.as_slice())
}

/// `n` divided by `2^times`.
fn halved(n: usize, times: u8) -> (r: usize)
    ensures
        r == n as nat / pow2(times as nat),
{
    let mut r: usize = n;
    let mut i: u8 = 0;
    proof {
        lemma2_to64();
    }
    while i < times
        invariant
            i <= times,
            r == n as nat / pow2(i as nat),
        decreases times - i,
    {
        proof {
            lemma_pow2_unfold((i + 1) as nat);
            lemma_pow2_pos(i as nat);
            lemma_div_denominator(n as int, pow2(i as nat) as int, 2);
        }
        r = r / 2;
        i = i + 1;
    }
    r
}

/// `2^m`.
fn power_of_two(m: u8) -> (r: u32)
    requires
        m < 32,
    ensures
        r == pow2(m as nat),
        r >= 1,
{
    let mut r: u32 = 1;
    let mut i: u8 = 0;
    proof {
        lemma2_to64();
        lemma2_to64_rest();
    }
    while i < m
        invariant
            i <= m < 32,
            r == pow2(i as nat),
            pow2(31) == 0x8000_0000,
        decreases m - i,
    {
        proof {
            lemma_pow2_unfold((i + 1) as nat);
            lemma_pow2_monotone((i + 1) as nat, 31);
        }
        r = 2 * r;
        i = i + 1;
    }
    proof {
        lemma_pow2_pos(m as nat);
    }
    r
}

} // verus!
