//! What a prover writes, round by round.

use vstd::arithmetic::div_mod::*;
use vstd::arithmetic::power2::*;
use vstd::prelude::*;

use crate::algebra::{
    lemma_invertible_power, lemma_invertible_product, lemma_power_canonical,
    lemma_root_of_unity_invertible,
};
use crate::codec::{encoded_elements, encoded_paths};
use crate::field::{invertible, power, FieldElement, PrimeField};
use crate::fri::Fri;
use crate::fri_laws::lemma_folded_value;
use crate::fri_lemmas::{lemma_codeword_length, lemma_half_of_domain, lemma_top_indices};
use crate::fri_model::{
    commit_transcript, committed, domain_point, folded, moved, opened_indices, proof_transcript,
    query_transcript, reduced, sampled_indices,
};
use crate::merkle_tree::{merkle_root, path_of, paths_of, PathView};
use crate::proof_stream::length_prepended;
use crate::utils::digest_of;

verus! {

/// A folded codeword has half the length, and its value at each place is that of the
/// line through the two values it stems from: they stand over a point `x` of the
/// coset and over `-x`, and the line is evaluated at `alpha`. Multiplied by `2x`, that
/// is `(x + alpha) * a + (x - alpha) * b`.
pub proof fn law_folded_codeword<F: FieldElement>(word: Seq<F>, offset: F, generator: F, alpha: F)
    requires
        offset.canonical(),
        generator.canonical(),
        alpha.canonical(),
        invertible(offset),
        invertible(generator),
    ensures
        folded(word, offset, generator, alpha).len() == word.len() / 2,
        forall|i: int|
            0 <= i < word.len() / 2 ==> {
                let x = power(generator, i as nat).times(offset);
                let value = #[trigger] folded(word, offset, generator, alpha)[i];
                &&& value.canonical()
                &&& x.plus(x).times(value) == x.plus(alpha).times(word[i]).plus(
                    x.minus(alpha).times(word[word.len() / 2 + i]),
                )
            },
{
    let half = word.len() / 2;
    assert forall|i: int| 0 <= i < half implies {
        let x = power(generator, i as nat).times(offset);
        let value = #[trigger] folded(word, offset, generator, alpha)[i];
        &&& value.canonical()
        &&& x.plus(x).times(value) == x.plus(alpha).times(word[i]).plus(
            x.minus(alpha).times(word[half + i]),
        )
    } by {
        let x = domain_point(offset, generator, i as nat);
        lemma_invertible_power(generator, i as nat);
        lemma_invertible_product(power(generator, i as nat), offset);
        F::lemma_closed(power(generator, i as nat), offset);
        lemma_folded_value(word[i], word[half + i], x, alpha);
    }
}

/// The first commitment is to the codeword itself: its root follows what was on the
/// transcript.
pub proof fn law_codeword_is_committed_first<PF: PrimeField>(
    fri: &Fri<PF>,
    word: Seq<PF::Elem>,
    transcript: Seq<u8>,
)
    ensures
        committed(fri, word, transcript, 0).word == word,
        committed(fri, word, transcript, 0).transcript == transcript + merkle_root(word),
{
}

/// Each round commits to the codeword of the round before, folded at a challenge that
/// is sampled from the hash of the whole transcript so far; the root of the new
/// codeword follows it. The domain of round `k` is generated by `omega^(2^k)` and moved
/// by `offset^(2^k)`.
pub proof fn law_each_round_folds<PF: PrimeField>(
    fri: &Fri<PF>,
    word: Seq<PF::Elem>,
    transcript: Seq<u8>,
    k: nat,
)
    requires
        fri.proving_defined(),
        word.len() == fri.domain_length,
        k < fri.rounds(),
    ensures
        ({
            let now = committed(fri, word, transcript, k);
            let next = committed(fri, word, transcript, k + 1);
            let half = fri.domain_length as nat / pow2(k + 1);
            let alpha = <PF::Elem>::sampled(digest_of(now.transcript));
            &&& next.transcript == now.transcript + merkle_root(next.word)
            &&& now.word.len() == 2 * half
            &&& next.word.len() == half
            &&& forall|i: int|
                0 <= i < half ==> {
                    let x = power(power(fri.omega, pow2(k)), i as nat).times(
                        power(fri.offset, pow2(k)),
                    );
                    let value = #[trigger] next.word[i];
                    &&& value.canonical()
                    &&& x.plus(x).times(value) == x.plus(alpha).times(now.word[i]).plus(
                        x.minus(alpha).times(now.word[half + i]),
                    )
                }
        }),
{
    let now = committed(fri, word, transcript, k);
    let alpha = <PF::Elem>::sampled(digest_of(now.transcript));
    let n = choose|n: nat|
        0 < n <= usize::MAX && #[trigger] power(fri.omega, n) == <PF::Elem>::one();
    lemma_root_of_unity_invertible(fri.omega, n);
    lemma_invertible_power(fri.omega, pow2(k));
    lemma_invertible_power(fri.offset, pow2(k));
    lemma_power_canonical(fri.omega, pow2(k));
    lemma_power_canonical(fri.offset, pow2(k));
    <PF::Elem>::lemma_sampled_canonical(digest_of(now.transcript));
    law_folded_codeword(now.word, fri.offset_after(k), fri.generator_after(k), alpha);
    lemma_codeword_length(fri, word, transcript, k);
    lemma_codeword_length(fri, word, transcript, k + 1);
    let half = fri.length_after(k + 1);
    // the length before is even: a power of two that is not one
    lemma_pow2_pos(k);
    lemma_pow2_pos(k + 1);
    lemma_pow2_unfold(k + 1);
    lemma_div_denominator(fri.domain_length as int, pow2(k) as int, 2);
    let m = choose|m: nat| fri.length_after(k) == #[trigger] pow2(m);
    lemma2_to64();
    if m > 0 {
        lemma_pow2_unfold(m);
    }
}

/// The last codeword follows the roots, behind its length.
pub proof fn law_last_codeword_is_written<PF: PrimeField>(
    fri: &Fri<PF>,
    word: Seq<PF::Elem>,
    transcript: Seq<u8>,
)
    ensures
        query_transcript(fri, word, transcript, 0) == committed(
            fri,
            word,
            transcript,
            fri.rounds(),
        ).transcript + length_prepended(
            encoded_elements(committed(fri, word, transcript, fri.rounds()).word),
        ),
        commit_transcript(fri, word, transcript) == query_transcript(fri, word, transcript, 0),
        opened_indices(fri, word, transcript) == sampled_indices(
            fri,
            digest_of(query_transcript(fri, word, transcript, 0)),
        ),
        proof_transcript(fri, word, transcript) == query_transcript(
            fri,
            word,
            transcript,
            fri.rounds(),
        ),
{
}

/// In each round, two lists of paths follow, each behind its length, and are returned:
/// the paths in the codeword of the round, for every sample the one at its index, then
/// for every sample the one half the round's domain further on; and the paths in the
/// next codeword, for every sample the one at its index.
pub proof fn law_each_round_is_opened<PF: PrimeField>(
    fri: &Fri<PF>,
    word: Seq<PF::Elem>,
    transcript: Seq<u8>,
    k: nat,
) -> (r: (Seq<PathView<PF::Elem>>, Seq<PathView<PF::Elem>>))
    requires
        fri.proving_defined(),
        word.len() == fri.domain_length,
        k < fri.rounds(),
    ensures
        query_transcript(fri, word, transcript, k + 1) == query_transcript(fri, word, transcript, k)
            + length_prepended(encoded_paths(r.0)) + length_prepended(encoded_paths(r.1)),
        r.0.len() == 2 * fri.colinearity_checks_count,
        r.1.len() == fri.colinearity_checks_count,
        forall|s: int|
            0 <= s < fri.colinearity_checks_count ==> {
                let half = fri.domain_length as nat / pow2(k + 1);
                let a = #[trigger] opened_indices(fri, word, transcript)[s] as int % half as int;
                let now = committed(fri, word, transcript, k).word;
                let next = committed(fri, word, transcript, k + 1).word;
                &&& 0 <= a < half
                &&& r.0[s] == path_of(now, a)
                &&& r.0[fri.colinearity_checks_count + s] == path_of(now, a + half)
                &&& r.1[s] == path_of(next, a)
            },
{
    let checks = fri.colinearity_checks_count;
    let half = fri.length_after(k + 1);
    let top = opened_indices(fri, word, transcript);
    let now = committed(fri, word, transcript, k).word;
    let next = committed(fri, word, transcript, k + 1).word;
    let a_indices = reduced(top, half);
    let both = a_indices + moved(a_indices, half);
    lemma_top_indices(fri, digest_of(commit_transcript(fri, word, transcript)));
    lemma_half_of_domain(fri, k);
    law_each_round_folds(fri, word, transcript, k);
    let r = (paths_of(now, both), paths_of(next, a_indices));
    assert(now.len() / 2 == half);
    assert(query_transcript(fri, word, transcript, k + 1) =~= query_transcript(
        fri,
        word,
        transcript,
        k,
    ) + length_prepended(encoded_paths(r.0)) + length_prepended(encoded_paths(r.1)));
    assert forall|s: int| 0 <= s < checks implies {
        let a = #[trigger] top[s] as int % half as int;
        &&& 0 <= a < half
        &&& r.0[s] == path_of(now, a)
        &&& r.0[checks + s] == path_of(now, a + half)
        &&& r.1[s] == path_of(next, a)
    } by {
        lemma_mod_bound(top[s] as int, half as int);
        assert(both[s] == a_indices[s]);
        assert(both[checks + s] == a_indices[s] + half);
    }
    r
}

} // verus!
