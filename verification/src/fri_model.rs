//! What the proximity test computes, in mathematical terms: the indices it
//! samples, the codewords it folds, the transcript it writes and the verdict it
//! reaches on a transcript.

use vstd::arithmetic::power2::*;
use vstd::prelude::*;

use crate::algebra::primitive_root;
use crate::bytes::le_bytes;
use crate::codec::{decoded_elements, decoded_paths, encoded_elements, encoded_paths};
use crate::field::{inv, invertible, power, FieldElement, PrimeField};
use crate::fri::{Fri, FriError, ValidationError};
use crate::group::{has_order, order_at_least};
use crate::merkle_tree::{authenticates_all, is_power_of_two, merkle_root, paths_of, PathView};
use crate::ntt::interpolated;
use crate::other::log_2_ceil_spec;
use crate::polynomial::{colinear, degree_of};
use crate::proof_stream::{item_at, length_prepended, ProofStreamError};
use crate::utils::{digest_of, index_of};

verus! {

// ---- parameters ----

/// `a / b`, rounded up.
pub open spec fn ceil_div(a: nat, b: nat) -> nat {
    ((a + b - 1) / (b as int)) as nat
}

impl<PF: PrimeField> Fri<PF> {
    /// The number of rounds that are left out because the codeword would become
    /// too short for the number of checks.
    pub open spec fn missed_rounds(&self) -> nat {
        if self.expansion_factor < self.colinearity_checks_count {
            log_2_ceil_spec(
                ceil_div(self.colinearity_checks_count as nat, self.expansion_factor as nat),
            )
        } else {
            0
        }
    }

    /// The number of rounds that reduce a polynomial to a constant.
    pub open spec fn full_rounds(&self) -> nat {
        log_2_ceil_spec(self.domain_length as nat / self.expansion_factor as nat)
    }

    /// The number of rounds.
    pub open spec fn rounds(&self) -> nat {
        (self.full_rounds() - self.missed_rounds()) as nat
    }

    /// The largest degree that the last codeword may have.
    pub open spec fn last_degree(&self) -> int {
        pow2(self.missed_rounds()) - 1
    }

    /// The length of the codeword after `k` rounds.
    pub open spec fn length_after(&self, k: nat) -> nat {
        self.domain_length as nat / pow2(k)
    }

    /// The length of the last codeword.
    pub open spec fn last_length(&self) -> nat {
        self.length_after(self.rounds())
    }

    /// Whether the number of rounds is defined and fits its type.
    pub open spec fn rounds_defined(&self) -> bool {
        &&& 0 < self.expansion_factor <= self.domain_length
        &&& self.missed_rounds() <= self.full_rounds()
        &&& self.missed_rounds() < 32
    }

    /// Whether as many indices as there are checks can be drawn, each with a
    /// counter that fits its type.
    pub open spec fn sampling_defined(&self) -> bool {
        &&& self.rounds_defined()
        &&& self.colinearity_checks_count <= self.last_length()
        &&& self.colinearity_checks_count <= u32::MAX
        &&& self.colinearity_checks_count * self.rounds() <= u32::MAX
    }

    /// Whether every proof can be verified: the samples are defined, and the
    /// generator is invertible.
    pub open spec fn verification_defined(&self) -> bool {
        &&& self.sampling_defined()
        &&& self.offset.canonical()
        &&& self.omega.canonical()
        &&& invertible(self.omega)
    }

    /// Whether the proof at position `start` of a transcript can be verified: the
    /// generator is invertible where a last codeword is interpolated, and the
    /// samples are defined where that codeword is accepted.
    pub open spec fn verification_defined_on(&self, transcript: Seq<u8>, start: int) -> bool {
        &&& self.rounds_defined()
        &&& self.offset.canonical()
        &&& self.omega.canonical()
        &&& last_word_matches(self, transcript, start) ==> invertible(self.omega)
        &&& last_word_is_accepted(self, transcript, start) ==> self.sampling_defined()
    }

    /// Whether a codeword can be proved: the samples are defined, a tree can have as
    /// many leafs as the domain has points, and where codewords are folded, the
    /// points in the first half of the domain are all there and invertible.
    pub open spec fn proving_defined(&self) -> bool {
        &&& self.sampling_defined()
        &&& self.offset.canonical()
        &&& self.omega.canonical()
        &&& is_power_of_two(self.domain_length as nat)
        &&& 2 * self.domain_length <= usize::MAX
        &&& self.rounds() > 0 ==> {
            &&& invertible(self.offset)
            &&& has_order(self.omega)
            &&& order_at_least(self.omega, self.domain_length as nat / 2)
        }
    }

    /// Whether `omega` generates a group of `domain_length` elements that the
    /// offset shifts to a coset.
    pub open spec fn valid(&self) -> bool {
        &&& self.verification_defined()
        &&& invertible(self.offset)
        &&& 2 * self.domain_length <= usize::MAX
        &&& exists|m: nat|
            self.domain_length == #[trigger] pow2(m) && primitive_root(self.omega, m)
    }

    /// Whether, besides, the exponents of all points fit into 32 bits.
    pub open spec fn has_small_domain(&self) -> bool {
        self.valid() && self.domain_length <= 0x1_0000_0000
    }

    /// The generator of the domain after `k` rounds.
    pub open spec fn generator_after(&self, k: nat) -> PF::Elem {
        power(self.omega, pow2(k))
    }

    /// The offset of the domain after `k` rounds.
    pub open spec fn offset_after(&self, k: nat) -> PF::Elem {
        power(self.offset, pow2(k))
    }
}

// ---- sampling ----

/// The four bytes of a counter, highest first.
pub open spec fn counter_bytes(counter: nat) -> Seq<u8> {
    le_bytes(counter, 4).reverse()
}

/// The digest that the counter derives from the seed.
pub open spec fn counter_digest(seed: Seq<u8>, counter: nat) -> Seq<u8> {
    digest_of(seed + counter_bytes(counter))
}

/// What has been drawn and what is left.
pub struct Draws {
    pub drawn: Seq<usize>,
    pub left: Seq<usize>,
}

/// The first `k` draws, without replacement, from the indices below `n`.
pub open spec fn draws(seed: Seq<u8>, n: nat, k: nat) -> Draws
    decreases k,
{
    if k == 0 {
        Draws { drawn: Seq::empty(), left: Seq::new(n, |i: int| i as usize) }
    } else {
        let before = draws(seed, n, (k - 1) as nat);
        let j = index_of(counter_digest(seed, (k - 1) as nat), before.left.len() as usize) as int;
        Draws { drawn: before.drawn.push(before.left[j]), left: before.left.remove(j) }
    }
}

/// The indices of a codeword twice as long that fold to `indices`: of the two
/// candidates for each, the digest of its counter chooses.
pub open spec fn lifted(
    seed: Seq<u8>,
    indices: Seq<usize>,
    half: nat,
    counter: nat,
) -> Seq<usize> {
    Seq::new(
        indices.len(),
        |s: int|
            if index_of(counter_digest(seed, (counter + s) as nat), 2) == 0 {
                (indices[s] + half) as usize
            } else {
                indices[s]
            },
    )
}

/// The indices into a codeword of length `n * 2^i`, drawn from one of length `n`.
pub open spec fn lifted_draws(seed: Seq<u8>, n: nat, checks: nat, i: nat) -> Seq<usize>
    decreases i,
{
    if i == 0 {
        draws(seed, n, checks).drawn
    } else {
        lifted(
            seed,
            lifted_draws(seed, n, checks, (i - 1) as nat),
            n * pow2((i - 1) as nat),
            checks * i,
        )
    }
}

/// The indices at which the first folding is checked.
pub open spec fn sampled_indices<PF: PrimeField>(fri: &Fri<PF>, seed: Seq<u8>) -> Seq<usize> {
    let r = fri.rounds();
    lifted_draws(
        seed,
        fri.last_length(),
        fri.colinearity_checks_count as nat,
        if r > 0 {
            (r - 1) as nat
        } else {
            0
        },
    )
}

/// The indices modulo `m`.
pub open spec fn reduced(indices: Seq<usize>, m: nat) -> Seq<usize> {
    Seq::new(indices.len(), |s: int| (indices[s] as nat % m) as usize)
}

/// The indices, each moved by `m`.
pub open spec fn moved(indices: Seq<usize>, m: nat) -> Seq<usize> {
    Seq::new(indices.len(), |s: int| (indices[s] + m) as usize)
}

// ---- proving ----

/// The value at `alpha` of the line through `(x, a)` and `(-x, b)`.
pub open spec fn folded_value<F: FieldElement>(a: F, b: F, x: F, alpha: F) -> F {
    let one = F::one();
    let quotient = alpha.times(inv(x));
    inv(one.plus(one)).times(one.plus(quotient).times(a).plus(one.minus(quotient).times(b)))
}

/// The point of the coset with the given index.
pub open spec fn domain_point<F: FieldElement>(offset: F, generator: F, i: nat) -> F {
    power(generator, i).times(offset)
}

/// The codeword, folded to half its length.
pub open spec fn folded<F: FieldElement>(
    word: Seq<F>,
    offset: F,
    generator: F,
    alpha: F,
) -> Seq<F> {
    let half = word.len() / 2;
    Seq::new(
        half,
        |i: int|
            folded_value(
                word[i],
                word[half + i],
                domain_point(offset, generator, i as nat),
                alpha,
            ),
    )
}

/// A codeword and the transcript that ends with its root.
pub struct Commitment<F> {
    pub word: Seq<F>,
    pub transcript: Seq<u8>,
}

/// The commitment after `k` rounds.
pub open spec fn committed<PF: PrimeField>(
    fri: &Fri<PF>,
    word: Seq<PF::Elem>,
    transcript: Seq<u8>,
    k: nat,
) -> Commitment<PF::Elem>
    decreases k,
{
    if k == 0 {
        Commitment { word, transcript: transcript + merkle_root(word) }
    } else {
        let j = (k - 1) as nat;
        let before = committed(fri, word, transcript, j);
        let alpha = <PF::Elem>::sampled(digest_of(before.transcript));
        let next = folded(before.word, fri.offset_after(j), fri.generator_after(j), alpha);
        Commitment { word: next, transcript: before.transcript + merkle_root(next) }
    }
}

/// The transcript after all commitments and the last codeword.
pub open spec fn commit_transcript<PF: PrimeField>(
    fri: &Fri<PF>,
    word: Seq<PF::Elem>,
    transcript: Seq<u8>,
) -> Seq<u8> {
    let last = committed(fri, word, transcript, fri.rounds());
    last.transcript + length_prepended(encoded_elements(last.word))
}

/// The indices that a prover opens.
pub open spec fn opened_indices<PF: PrimeField>(
    fri: &Fri<PF>,
    word: Seq<PF::Elem>,
    transcript: Seq<u8>,
) -> Seq<usize> {
    sampled_indices(fri, digest_of(commit_transcript(fri, word, transcript)))
}

/// What one query adds to the transcript.
pub open spec fn query_items<F: FieldElement>(
    word: Seq<F>,
    next: Seq<F>,
    indices: Seq<usize>,
) -> Seq<u8> {
    let both = indices + moved(indices, word.len() / 2);
    length_prepended(encoded_paths(paths_of(word, both))) + length_prepended(
        encoded_paths(paths_of(next, indices)),
    )
}

/// The transcript after the commitments and `k` queries.
pub open spec fn query_transcript<PF: PrimeField>(
    fri: &Fri<PF>,
    word: Seq<PF::Elem>,
    transcript: Seq<u8>,
    k: nat,
) -> Seq<u8>
    decreases k,
{
    if k == 0 {
        commit_transcript(fri, word, transcript)
    } else {
        let j = (k - 1) as nat;
        query_transcript(fri, word, transcript, j) + query_items(
            committed(fri, word, transcript, j).word,
            committed(fri, word, transcript, k).word,
            reduced(opened_indices(fri, word, transcript), fri.length_after(k)),
        )
    }
}

/// The transcript after a proof.
pub open spec fn proof_transcript<PF: PrimeField>(
    fri: &Fri<PF>,
    word: Seq<PF::Elem>,
    transcript: Seq<u8>,
) -> Seq<u8> {
    query_transcript(fri, word, transcript, fri.rounds())
}

// ---- verifying ----

/// A verdict on a transcript, and the position up to which it was read.
pub struct Verdict<F> {
    pub result: Result<Seq<(usize, F)>, FriError>,
    pub position: int,
}

/// The root that is read as number `j` from position `start` on.
pub open spec fn root_at(transcript: Seq<u8>, start: int, j: int) -> Seq<u8> {
    transcript.subrange(start + 32 * j, start + 32 * j + 32)
}

/// The challenge of round `j`: it depends on all roots up to number `j`.
pub open spec fn challenge_at<F: FieldElement>(transcript: Seq<u8>, start: int, j: int) -> F {
    F::sampled(digest_of(transcript.take(start + 32 * (j + 1))))
}

/// Whether `root` commits to `word`.
pub open spec fn commits_to<F: FieldElement>(root: Seq<u8>, word: Seq<F>) -> bool {
    is_power_of_two(word.len()) && merkle_root(word) == root
}

/// The last codeword on a transcript, where it can be read.
pub open spec fn last_word_at<PF: PrimeField>(
    fri: &Fri<PF>,
    transcript: Seq<u8>,
    start: int,
) -> Option<Seq<PF::Elem>> {
    let roots_end = start + 32 * (fri.rounds() + 1);
    if roots_end > transcript.len() {
        None
    } else {
        match item_at(transcript, roots_end) {
            None => None,
            Some(bytes) => decoded_elements::<PF::Elem>(bytes),
        }
    }
}

/// Whether the last codeword can be read, and the last root commits to it.
pub open spec fn last_word_matches<PF: PrimeField>(
    fri: &Fri<PF>,
    transcript: Seq<u8>,
    start: int,
) -> bool {
    last_word_at(fri, transcript, start) matches Some(word) && commits_to(
        root_at(transcript, start, fri.rounds() as int),
        word,
    )
}

/// Whether, besides, the last codeword is of sufficiently low degree.
pub open spec fn last_word_is_accepted<PF: PrimeField>(
    fri: &Fri<PF>,
    transcript: Seq<u8>,
    start: int,
) -> bool {
    last_word_matches(fri, transcript, start) && degree_of(
        interpolated(
            last_word_at(fri, transcript, start).unwrap(),
            fri.generator_after(fri.rounds()),
        ),
    ) <= fri.last_degree()
}

/// The lowest 32 bits of an index, as an exponent.
pub open spec fn exponent(index: usize) -> nat {
    (index as u32) as nat
}

/// Whether the values at sample `s` lie on the line that round `r` folds along.
pub open spec fn sample_colinear<PF: PrimeField>(
    fri: &Fri<PF>,
    r: nat,
    alpha: PF::Elem,
    a_indices: Seq<usize>,
    b_indices: Seq<usize>,
    ab_paths: Seq<PathView<PF::Elem>>,
    c_paths: Seq<PathView<PF::Elem>>,
    s: int,
) -> bool {
    let offset = fri.offset_after(r);
    let generator = fri.generator_after(r);
    colinear(
        (offset.times(power(generator, exponent(a_indices[s]))), ab_paths[s].value),
        (
            offset.times(power(generator, exponent(b_indices[s]))),
            ab_paths[fri.colinearity_checks_count + s].value,
        ),
        (alpha, c_paths[s].value),
    )
}

/// What is wrong with the openings of round `r`, if anything is.
pub open spec fn round_error<PF: PrimeField>(
    fri: &Fri<PF>,
    r: nat,
    alpha: PF::Elem,
    root: Seq<u8>,
    next_root: Seq<u8>,
    top: Seq<usize>,
    ab_paths: Seq<PathView<PF::Elem>>,
    c_paths: Seq<PathView<PF::Elem>>,
) -> Option<ValidationError> {
    let checks = fri.colinearity_checks_count;
    let half = fri.length_after(r + 1);
    let a_indices = reduced(top, half);
    let b_indices = moved(a_indices, half);
    if !authenticates_all(root, a_indices + b_indices, ab_paths) || !authenticates_all(
        next_root,
        a_indices,
        c_paths,
    ) {
        Some(ValidationError::BadMerkleProof)
    } else if ab_paths.len() != 2 * checks || c_paths.len() != checks {
        Some(ValidationError::BadSizedProof)
    } else if exists|s: int|
        0 <= s < checks && !#[trigger] sample_colinear(
            fri,
            r,
            alpha,
            a_indices,
            b_indices,
            ab_paths,
            c_paths,
            s,
        ) {
        Some(ValidationError::NotColinear(r as usize))
    } else {
        None
    }
}

/// The values that the openings of the first round reveal, with their indices.
pub open spec fn revealed<F: FieldElement>(
    a_indices: Seq<usize>,
    b_indices: Seq<usize>,
    ab_paths: Seq<PathView<F>>,
) -> Seq<(usize, F)> {
    let n = a_indices.len();
    Seq::new(
        2 * n,
        |t: int|
            if t % 2 == 0 {
                (a_indices[t / 2], ab_paths[t / 2].value)
            } else {
                (b_indices[t / 2], ab_paths[n + t / 2].value)
            },
    )
}

/// The verdict from round `r` on, where the openings are read from `position` on
/// and `evaluations` were revealed so far.
pub open spec fn rounds_verdict<PF: PrimeField>(
    fri: &Fri<PF>,
    transcript: Seq<u8>,
    start: int,
    top: Seq<usize>,
    r: nat,
    position: int,
    evaluations: Seq<(usize, PF::Elem)>,
) -> Verdict<PF::Elem>
    decreases fri.rounds() - r,
{
    if r >= fri.rounds() {
        Verdict { result: Ok(evaluations), position }
    } else {
        match item_at(transcript, position) {
            None => Verdict {
                result: Err(FriError::Stream(ProofStreamError::TranscriptLengthExceeded)),
                position,
            },
            Some(ab_bytes) => {
                let p1 = position + 8 + ab_bytes.len();
                match decoded_paths::<PF::Elem>(ab_bytes) {
                    None => Verdict {
                        result: Err(FriError::Stream(ProofStreamError::MalformedItem)),
                        position: p1,
                    },
                    Some(ab_paths) => match item_at(transcript, p1) {
                        None => Verdict {
                            result: Err(
                                FriError::Stream(ProofStreamError::TranscriptLengthExceeded),
                            ),
                            position: p1,
                        },
                        Some(c_bytes) => {
                            let p2 = p1 + 8 + c_bytes.len();
                            match decoded_paths::<PF::Elem>(c_bytes) {
                                None => Verdict {
                                    result: Err(FriError::Stream(ProofStreamError::MalformedItem)),
                                    position: p2,
                                },
                                Some(c_paths) => match round_error(
                                    fri,
                                    r,
                                    challenge_at::<PF::Elem>(transcript, start, r as int),
                                    root_at(transcript, start, r as int),
                                    root_at(transcript, start, r + 1int),
                                    top,
                                    ab_paths,
                                    c_paths,
                                ) {
                                    Some(e) => Verdict {
                                        result: Err(FriError::Validation(e)),
                                        position: p2,
                                    },
                                    None => rounds_verdict(
                                        fri,
                                        transcript,
                                        start,
                                        top,
                                        r + 1,
                                        p2,
                                        if r == 0 {
                                            let a_indices = reduced(top, fri.length_after(1));
                                            revealed(
                                                a_indices,
                                                moved(a_indices, fri.length_after(1)),
                                                ab_paths,
                                            )
                                        } else {
                                            evaluations
                                        },
                                    ),
                                },
                            }
                        },
                    },
                }
            },
        }
    }
}

/// The verdict on the last codeword, read up to `position`, and all that follows.
pub open spec fn word_verdict<PF: PrimeField>(
    fri: &Fri<PF>,
    transcript: Seq<u8>,
    start: int,
    word: Seq<PF::Elem>,
    position: int,
) -> Verdict<PF::Elem> {
    if !commits_to(root_at(transcript, start, fri.rounds() as int), word) {
        Verdict {
            result: Err(FriError::Validation(ValidationError::BadMerkleRootForLastCodeword)),
            position,
        }
    } else if degree_of(interpolated(word, fri.generator_after(fri.rounds()))) > fri.last_degree() {
        Verdict {
            result: Err(FriError::Validation(ValidationError::LastIterationTooHighDegree)),
            position,
        }
    } else {
        rounds_verdict(
            fri,
            transcript,
            start,
            sampled_indices(fri, digest_of(transcript.take(position))),
            0,
            position,
            Seq::empty(),
        )
    }
}

/// The verdict on a transcript that is read from position `start` on.
pub open spec fn verdict<PF: PrimeField>(
    fri: &Fri<PF>,
    transcript: Seq<u8>,
    start: int,
) -> Verdict<PF::Elem> {
    let roots_end = start + 32 * (fri.rounds() + 1);
    if roots_end > transcript.len() {
        // as many roots as there are have been read
        Verdict {
            result: Err(FriError::Stream(ProofStreamError::TranscriptLengthExceeded)),
            position: start + 32 * ((transcript.len() - start) / 32),
        }
    } else {
        match item_at(transcript, roots_end) {
            None => Verdict {
                result: Err(FriError::Stream(ProofStreamError::TranscriptLengthExceeded)),
                position: roots_end,
            },
            Some(bytes) => {
                let position = roots_end + 8 + bytes.len();
                match decoded_elements::<PF::Elem>(bytes) {
                    None => Verdict {
                        result: Err(FriError::Stream(ProofStreamError::MalformedItem)),
                        position,
                    },
                    Some(word) => word_verdict(fri, transcript, start, word, position),
                }
            },
        }
    }
}

} // verus!
