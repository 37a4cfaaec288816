//! What an accepted proof has been held to, and what is wrong with a rejected one.

use vstd::arithmetic::div_mod::*;
use vstd::arithmetic::power2::*;
use vstd::prelude::*;

use crate::bytes::{le_bytes, lemma_le_bytes_len};
use crate::codec::{
    all_valid_paths, decoded_elements, decoded_paths, encoded_elements, encoded_paths,
    law_elements_are_read_back, law_paths_are_read_back, law_read_elements_were_encoded,
    law_read_paths_were_encoded,
};
use crate::field::{all_canonical, power, FieldElement, PrimeField};
use crate::fri::{Fri, FriError, ValidationError};
use crate::fri_lemmas::{lemma_half_of_domain, lemma_top_indices};
use crate::fri_model::{
    challenge_at, exponent, last_word_at, last_word_is_accepted, moved, reduced, revealed, root_at,
    round_error, rounds_verdict, sample_colinear, sampled_indices, verdict, Verdict,
};
use crate::merkle_tree::{
    authenticates, authenticates_all, is_power_of_two, merkle_root, PathView,
};
use crate::ntt::interpolated;
use crate::polynomial::lemma_degree;
use crate::proof_stream::{
    item_at, law_item_stands_behind_its_length, length_prepended, ProofStreamError,
};
use crate::utils::digest_of;

verus! {

/// The exponent of an index is its remainder modulo `2^32`.
proof fn lemma_exponent(index: usize)
    ensures
        exponent(index) == index as nat % 0x1_0000_0000,
{
    let v = index as u64;
    assert((v as u32) as u64 == v % 0x1_0000_0000u64) by (bit_vector);
    assert(index as u32 == v as u32);
}

// ---- reading ----

/// The position from which the openings of round `r` are read, where those of the
/// first round are read from `position`.
spec fn openings_at(transcript: Seq<u8>, position: int, r: nat) -> int
    decreases r,
{
    if r == 0 {
        position
    } else {
        let p0 = openings_at(transcript, position, (r - 1) as nat);
        let p1 = p0 + 8 + item_at(transcript, p0).unwrap().len();
        p1 + 8 + item_at(transcript, p1).unwrap().len()
    }
}

/// The paths that are read at `position`.
spec fn paths_at<F: FieldElement>(transcript: Seq<u8>, position: int) -> Seq<PathView<F>> {
    decoded_paths::<F>(item_at(transcript, position).unwrap()).unwrap()
}

/// The two lists of paths that are read for round `r`.
spec fn ab_at<F: FieldElement>(transcript: Seq<u8>, position: int, r: nat) -> Seq<PathView<F>> {
    paths_at::<F>(transcript, openings_at(transcript, position, r))
}

spec fn c_at<F: FieldElement>(transcript: Seq<u8>, position: int, r: nat) -> Seq<PathView<F>> {
    let p0 = openings_at(transcript, position, r);
    paths_at::<F>(transcript, p0 + 8 + item_at(transcript, p0).unwrap().len())
}

/// What is known of an accepted round, one step of the verdict.
proof fn lemma_accepted_round<PF: PrimeField>(
    fri: &Fri<PF>,
    transcript: Seq<u8>,
    start: int,
    top: Seq<usize>,
    r: nat,
    position: int,
    evaluations: Seq<(usize, PF::Elem)>,
)
    requires
        r < fri.rounds(),
        rounds_verdict(fri, transcript, start, top, r, position, evaluations).result is Ok,
    ensures
        ({
            let p1 = position + 8 + item_at(transcript, position).unwrap().len();
            let p2 = p1 + 8 + item_at(transcript, p1).unwrap().len();
            let ab = paths_at::<PF::Elem>(transcript, position);
            let c = paths_at::<PF::Elem>(transcript, p1);
            let a_indices = reduced(top, fri.length_after(1));
            &&& item_at(transcript, position) is Some
            &&& item_at(transcript, p1) is Some
            &&& decoded_paths::<PF::Elem>(item_at(transcript, position).unwrap()) == Some(ab)
            &&& decoded_paths::<PF::Elem>(item_at(transcript, p1).unwrap()) == Some(c)
            &&& round_error(
                fri,
                r,
                challenge_at::<PF::Elem>(transcript, start, r as int),
                root_at(transcript, start, r as int),
                root_at(transcript, start, r + 1int),
                top,
                ab,
                c,
            ) is None
            &&& rounds_verdict(fri, transcript, start, top, r, position, evaluations)
                == rounds_verdict(
                fri,
                transcript,
                start,
                top,
                r + 1,
                p2,
                if r == 0 {
                    revealed(a_indices, moved(a_indices, fri.length_after(1)), ab)
                } else {
                    evaluations
                },
            )
        }),
{
}

/// The verdict on an accepted proof, from round `k` on.
proof fn lemma_accepted_from<PF: PrimeField>(
    fri: &Fri<PF>,
    transcript: Seq<u8>,
    start: int,
    top: Seq<usize>,
    position: int,
    k: nat,
)
    requires
        k <= fri.rounds(),
        rounds_verdict(fri, transcript, start, top, 0, position, Seq::empty()).result is Ok,
    ensures
        ({
            let a_indices = reduced(top, fri.length_after(1));
            rounds_verdict(fri, transcript, start, top, 0, position, Seq::empty())
                == rounds_verdict(
                fri,
                transcript,
                start,
                top,
                k,
                openings_at(transcript, position, k),
                if k == 0 {
                    Seq::empty()
                } else {
                    revealed(
                        a_indices,
                        moved(a_indices, fri.length_after(1)),
                        ab_at::<PF::Elem>(transcript, position, 0),
                    )
                },
            )
        }),
    decreases k,
{
    if k > 0 {
        let j = (k - 1) as nat;
        let a_indices = reduced(top, fri.length_after(1));
        lemma_accepted_from(fri, transcript, start, top, position, j);
        lemma_accepted_round(
            fri,
            transcript,
            start,
            top,
            j,
            openings_at(transcript, position, j),
            if j == 0 {
                Seq::empty()
            } else {
                revealed(
                    a_indices,
                    moved(a_indices, fri.length_after(1)),
                    ab_at::<PF::Elem>(transcript, position, 0),
                )
            },
        );
    }
}

/// The item that is read at a position.
proof fn lemma_item(transcript: Seq<u8>, position: int)
    requires
        item_at(transcript, position) is Some,
    ensures
        ({
            let item = item_at(transcript, position).unwrap();
            let end = position + 8 + item.len();
            &&& 0 <= position
            &&& end <= transcript.len()
            &&& transcript.subrange(position, end) == length_prepended(item)
            &&& item.len() < 0x1_0000_0000_0000_0000
        }),
{
    let item = item_at(transcript, position).unwrap();
    let end = position + 8 + item.len();
    law_item_stands_behind_its_length(transcript, position, item);
    assert(transcript.subrange(position, end) =~= transcript.subrange(position, position + 8)
        + transcript.subrange(position + 8, end));
}

// ---- the checks of one round ----

/// What holds at one sample of a round without an error.
proof fn lemma_checked_sample<PF: PrimeField>(
    fri: &Fri<PF>,
    r: nat,
    alpha: PF::Elem,
    root: Seq<u8>,
    next_root: Seq<u8>,
    top: Seq<usize>,
    ab: Seq<PathView<PF::Elem>>,
    c: Seq<PathView<PF::Elem>>,
    s: int,
)
    requires
        fri.sampling_defined(),
        r < fri.rounds(),
        top.len() == fri.colinearity_checks_count,
        0 <= s < fri.colinearity_checks_count,
        round_error(fri, r, alpha, root, next_root, top, ab, c) is None,
    ensures
        ({
            let checks = fri.colinearity_checks_count;
            let half = fri.domain_length as nat / pow2(r + 1);
            let a = top[s] as nat % half;
            let offset = power(fri.offset, pow2(r));
            let generator = power(fri.omega, pow2(r));
            let x = offset.times(power(generator, a % 0x1_0000_0000));
            let y = offset.times(power(generator, (a + half) % 0x1_0000_0000));
            &&& half > 0
            &&& a + half < fri.domain_length
            &&& ab.len() == 2 * checks
            &&& c.len() == checks
            &&& authenticates(root, a, ab[s])
            &&& authenticates(root, a + half, ab[checks + s])
            &&& authenticates(next_root, a, c[s])
            &&& x.minus(y).times(c[s].value.minus(ab[s].value)) == ab[s].value.minus(
                ab[checks + s].value,
            ).times(alpha.minus(x))
        }),
{
    let checks = fri.colinearity_checks_count;
    let half = fri.length_after(r + 1);
    let a_indices = reduced(top, half);
    let b_indices = moved(a_indices, half);
    let both = a_indices + b_indices;
    lemma_half_of_domain(fri, r);
    lemma_mod_bound(top[s] as int, half as int);
    lemma_exponent(a_indices[s]);
    lemma_exponent(b_indices[s]);
    assert(both[s] == a_indices[s]);
    assert(both[checks + s] == b_indices[s]);
    assert(authenticates(root, both[s] as nat, ab[s]));
    assert(authenticates(root, both[checks + s] as nat, ab[checks + s]));
    assert(authenticates(next_root, a_indices[s] as nat, c[s]));
    assert(sample_colinear(fri, r, alpha, a_indices, b_indices, ab, c, s));
}

// ---- accepted proofs, as they are read ----

/// The last codeword of an accepted proof, and the position behind it.
proof fn lemma_accepted_word<PF: PrimeField>(
    fri: &Fri<PF>,
    transcript: Seq<u8>,
    start: int,
) -> (r: (Seq<PF::Elem>, int))
    requires
        fri.verification_defined_on(transcript, start),
        0 <= start <= transcript.len(),
        verdict(fri, transcript, start).result is Ok,
    ensures
        ({
            let (word, p) = r;
            let rounds = fri.rounds();
            let roots_end = start + 32 * (rounds + 1);
            &&& roots_end + 8 + encoded_elements(word).len() == p <= transcript.len()
            &&& transcript.subrange(roots_end, p) == length_prepended(encoded_elements(word))
            &&& encoded_elements(word).len() < 0x1_0000_0000_0000_0000
            &&& all_canonical(word) && is_power_of_two(word.len())
            &&& merkle_root(word) == transcript.subrange(start + 32 * rounds, roots_end)
            &&& fri.sampling_defined()
            &&& forall|k: int|
                fri.last_degree() < k < word.len() ==> #[trigger] interpolated(
                    word,
                    power(fri.omega, pow2(rounds)),
                )[k] == <PF::Elem>::zero()
            &&& verdict(fri, transcript, start) == rounds_verdict(
                fri,
                transcript,
                start,
                sampled_indices(fri, digest_of(transcript.take(p))),
                0,
                p,
                Seq::empty(),
            )
        }),
{
    let rounds = fri.rounds();
    let roots_end = start + 32 * (rounds + 1);
    let bytes = item_at(transcript, roots_end).unwrap();
    let p = roots_end + 8 + bytes.len();
    let word = decoded_elements::<PF::Elem>(bytes).unwrap();
    assert(last_word_is_accepted(fri, transcript, start));
    lemma_item(transcript, roots_end);
    law_read_elements_were_encoded::<PF::Elem>(bytes);
    lemma_pow2_pos(fri.missed_rounds());
    lemma_degree(interpolated(word, power(fri.omega, pow2(rounds))), fri.last_degree());
    (word, p)
}

/// Where the openings of a round of an accepted proof stand.
proof fn lemma_round_is_read<PF: PrimeField>(
    fri: &Fri<PF>,
    transcript: Seq<u8>,
    start: int,
    top: Seq<usize>,
    position: int,
    r: nat,
)
    requires
        r < fri.rounds(),
        rounds_verdict(fri, transcript, start, top, 0, position, Seq::empty()).result is Ok,
    ensures
        ({
            let p0 = openings_at(transcript, position, r);
            let ab = ab_at::<PF::Elem>(transcript, position, r);
            let c = c_at::<PF::Elem>(transcript, position, r);
            let p1 = p0 + 8 + encoded_paths(ab).len();
            let p2 = openings_at(transcript, position, r + 1);
            &&& paths_written(transcript, p0, ab, p1)
            &&& paths_written(transcript, p1, c, p2)
        }),
{
    let p0 = openings_at(transcript, position, r);
    let a_indices = reduced(top, fri.length_after(1));
    lemma_accepted_from(fri, transcript, start, top, position, r);
    lemma_accepted_round(
        fri,
        transcript,
        start,
        top,
        r,
        p0,
        if r == 0 {
            Seq::empty()
        } else {
            revealed(
                a_indices,
                moved(a_indices, fri.length_after(1)),
                ab_at::<PF::Elem>(transcript, position, 0),
            )
        },
    );
    let ab_bytes = item_at(transcript, p0).unwrap();
    let p1 = p0 + 8 + ab_bytes.len();
    let c_bytes = item_at(transcript, p1).unwrap();
    lemma_item(transcript, p0);
    lemma_item(transcript, p1);
    law_read_paths_were_encoded::<PF::Elem>(ab_bytes);
    law_read_paths_were_encoded::<PF::Elem>(c_bytes);
}

// ---- the parts of a proof ----

/// Whether a list of paths is written between two positions, behind its length.
pub open spec fn paths_written<F: FieldElement>(
    transcript: Seq<u8>,
    from: int,
    paths: Seq<PathView<F>>,
    to: int,
) -> bool {
    &&& all_valid_paths(paths)
    &&& paths.len() < 0x1_0000_0000_0000_0000
    &&& encoded_paths(paths).len() < 0x1_0000_0000_0000_0000
    &&& 0 <= from
    &&& from + 8 + encoded_paths(paths).len() == to <= transcript.len()
    &&& transcript.subrange(from, to) == length_prepended(encoded_paths(paths))
}

/// Whether a codeword is written between two positions, behind its length.
pub open spec fn word_written<F: FieldElement>(
    transcript: Seq<u8>,
    from: int,
    word: Seq<F>,
    to: int,
) -> bool {
    &&& all_canonical(word)
    &&& encoded_elements(word).len() < 0x1_0000_0000_0000_0000
    &&& 0 <= from
    &&& from + 8 + encoded_elements(word).len() == to <= transcript.len()
    &&& transcript.subrange(from, to) == length_prepended(encoded_elements(word))
}

/// Whether, from a position on, openings of rounds are written one after the other:
/// those of round `i` start at `at[i]`, and are two lists of paths.
pub open spec fn openings_written<F: FieldElement>(
    transcript: Seq<u8>,
    ab: Seq<Seq<PathView<F>>>,
    c: Seq<Seq<PathView<F>>>,
    at: Seq<int>,
) -> bool {
    &&& ab.len() == c.len()
    &&& at.len() == ab.len() + 1
    &&& forall|i: int|
        0 <= i < ab.len() ==> {
            let between = at[i] + 8 + encoded_paths(ab[i]).len();
            &&& paths_written(transcript, #[trigger] at[i], ab[i], between)
            &&& paths_written(transcript, between, c[i], at[i + 1])
        }
}

/// What is written is read.
proof fn lemma_word_is_read<F: FieldElement>(
    transcript: Seq<u8>,
    from: int,
    word: Seq<F>,
    to: int,
)
    requires
        word_written(transcript, from, word, to),
    ensures
        item_at(transcript, from) == Some(encoded_elements(word)),
        decoded_elements::<F>(encoded_elements(word)) == Some(word),
{
    lemma_written_item(transcript, from, encoded_elements(word));
    law_elements_are_read_back(word);
}

proof fn lemma_paths_are_read<F: FieldElement>(
    transcript: Seq<u8>,
    from: int,
    paths: Seq<PathView<F>>,
    to: int,
)
    requires
        paths_written(transcript, from, paths, to),
    ensures
        item_at(transcript, from) == Some(encoded_paths(paths)),
        decoded_paths::<F>(encoded_paths(paths)) == Some(paths),
{
    lemma_written_item(transcript, from, encoded_paths(paths));
    law_paths_are_read_back(paths);
}

proof fn lemma_written_item(transcript: Seq<u8>, from: int, item: Seq<u8>)
    requires
        item.len() < 0x1_0000_0000_0000_0000,
        0 <= from,
        from + 8 + item.len() <= transcript.len(),
        transcript.subrange(from, from + 8 + item.len()) == length_prepended(item),
    ensures
        item_at(transcript, from) == Some(item),
{
    let whole = length_prepended(item);
    lemma_le_bytes_len(item.len(), 8);
    assert(transcript.subrange(from, from + 8) =~= whole.subrange(0, 8));
    assert(whole.subrange(0, 8) =~= le_bytes(item.len(), 8));
    assert(transcript.subrange(from + 8, from + 8 + item.len()) =~= whole.skip(8));
    assert(whole.skip(8) =~= item);
    law_item_stands_behind_its_length(transcript, from, item);
}

/// An accepted proof consists of its parts, which are returned: behind the roots, one
/// for each codeword, stands the last codeword, and behind that stand two lists of
/// paths for every round. The proof is read up to the end of the last list.
pub proof fn law_accepted_proof_has_its_parts<PF: PrimeField>(
    fri: &Fri<PF>,
    transcript: Seq<u8>,
    start: int,
) -> (r: (
    Seq<PF::Elem>,
    Seq<Seq<PathView<PF::Elem>>>,
    Seq<Seq<PathView<PF::Elem>>>,
    Seq<int>,
))
    requires
        fri.verification_defined_on(transcript, start),
        0 <= start <= transcript.len(),
        verdict(fri, transcript, start).result is Ok,
    ensures
        word_written(transcript, start + 32 * (fri.rounds() + 1), r.0, r.3[0]),
        openings_written(transcript, r.1, r.2, r.3),
        r.1.len() == fri.rounds(),
        verdict(fri, transcript, start).position == r.3[fri.rounds() as int],
{
    let rounds = fri.rounds();
    let (word, p) = lemma_accepted_word(fri, transcript, start);
    let top = sampled_indices(fri, digest_of(transcript.take(p)));
    let ab = Seq::new(rounds, |i: int| ab_at::<PF::Elem>(transcript, p, i as nat));
    let c = Seq::new(rounds, |i: int| c_at::<PF::Elem>(transcript, p, i as nat));
    let at = Seq::new(rounds + 1, |i: int| openings_at(transcript, p, i as nat));
    assert(at[0] == p);
    assert forall|i: int| 0 <= i < ab.len() implies {
        let between = at[i] + 8 + encoded_paths(ab[i]).len();
        &&& paths_written(transcript, #[trigger] at[i], ab[i], between)
        &&& paths_written(transcript, between, c[i], at[i + 1])
    } by {
        lemma_round_is_read(fri, transcript, start, top, p, i as nat);
    }
    lemma_accepted_from(fri, transcript, start, top, p, rounds);
    (word, ab, c, at)
}

/// The last codeword of an accepted proof: the last root is its own, its length is a
/// power of two, and its polynomial on the powers of `omega^(2^rounds)` has no
/// coefficient beyond the degree bound.
pub proof fn law_accepted_last_codeword<PF: PrimeField>(
    fri: &Fri<PF>,
    transcript: Seq<u8>,
    start: int,
    word: Seq<PF::Elem>,
    end: int,
)
    requires
        fri.verification_defined_on(transcript, start),
        0 <= start <= transcript.len(),
        verdict(fri, transcript, start).result is Ok,
        word_written(transcript, start + 32 * (fri.rounds() + 1), word, end),
    ensures
        fri.sampling_defined(),
        is_power_of_two(word.len()),
        merkle_root(word) == transcript.subrange(
            start + 32 * fri.rounds(),
            start + 32 * (fri.rounds() + 1),
        ),
        forall|k: int|
            fri.last_degree() < k < word.len() ==> #[trigger] interpolated(
                word,
                power(fri.omega, pow2(fri.rounds())),
            )[k] == <PF::Elem>::zero(),
{
    let (own, p) = lemma_accepted_word(fri, transcript, start);
    let from = start + 32 * (fri.rounds() + 1);
    lemma_word_is_read(transcript, from, word, end);
    lemma_word_is_read(transcript, from, own, p);
}

// ---- the checks of every round ----

/// One step of the verdict, on openings that are written.
proof fn lemma_step<PF: PrimeField>(
    fri: &Fri<PF>,
    transcript: Seq<u8>,
    start: int,
    top: Seq<usize>,
    r: nat,
    position: int,
    evaluations: Seq<(usize, PF::Elem)>,
    ab: Seq<PathView<PF::Elem>>,
    c: Seq<PathView<PF::Elem>>,
    end: int,
)
    requires
        r < fri.rounds(),
        paths_written(transcript, position, ab, position + 8 + encoded_paths(ab).len()),
        paths_written(transcript, position + 8 + encoded_paths(ab).len(), c, end),
    ensures
        ({
            let a_indices = reduced(top, fri.length_after(1));
            let error = round_error(
                fri,
                r,
                challenge_at::<PF::Elem>(transcript, start, r as int),
                root_at(transcript, start, r as int),
                root_at(transcript, start, r + 1int),
                top,
                ab,
                c,
            );
            &&& error matches Some(e) ==> rounds_verdict(
                fri,
                transcript,
                start,
                top,
                r,
                position,
                evaluations,
            ) == (Verdict::<PF::Elem> { result: Err(FriError::Validation(e)), position: end })
            &&& error is None ==> rounds_verdict(
                fri,
                transcript,
                start,
                top,
                r,
                position,
                evaluations,
            ) == rounds_verdict(
                fri,
                transcript,
                start,
                top,
                r + 1,
                end,
                if r == 0 {
                    revealed(a_indices, moved(a_indices, fri.length_after(1)), ab)
                } else {
                    evaluations
                },
            )
        }),
{
    lemma_paths_are_read(transcript, position, ab, position + 8 + encoded_paths(ab).len());
    lemma_paths_are_read(transcript, position + 8 + encoded_paths(ab).len(), c, end);
}

/// What has been revealed before round `k`.
spec fn shown<PF: PrimeField>(
    fri: &Fri<PF>,
    top: Seq<usize>,
    ab: Seq<Seq<PathView<PF::Elem>>>,
    k: nat,
) -> Seq<(usize, PF::Elem)> {
    if k == 0 {
        Seq::empty()
    } else {
        let a_indices = reduced(top, fri.length_after(1));
        revealed(a_indices, moved(a_indices, fri.length_after(1)), ab[0])
    }
}

/// What is wrong with the openings of round `i`.
spec fn error_of<PF: PrimeField>(
    fri: &Fri<PF>,
    transcript: Seq<u8>,
    start: int,
    top: Seq<usize>,
    ab: Seq<Seq<PathView<PF::Elem>>>,
    c: Seq<Seq<PathView<PF::Elem>>>,
    i: int,
) -> Option<ValidationError> {
    round_error(
        fri,
        i as nat,
        challenge_at::<PF::Elem>(transcript, start, i),
        root_at(transcript, start, i),
        root_at(transcript, start, i + 1),
        top,
        ab[i],
        c[i],
    )
}

/// Rounds without an error leave the verdict to the next one.
proof fn lemma_passed<PF: PrimeField>(
    fri: &Fri<PF>,
    transcript: Seq<u8>,
    start: int,
    top: Seq<usize>,
    ab: Seq<Seq<PathView<PF::Elem>>>,
    c: Seq<Seq<PathView<PF::Elem>>>,
    at: Seq<int>,
    k: nat,
)
    requires
        openings_written(transcript, ab, c, at),
        k <= ab.len(),
        k <= fri.rounds(),
        forall|i: int|
            0 <= i < k ==> #[trigger] error_of(fri, transcript, start, top, ab, c, i) is None,
    ensures
        rounds_verdict(fri, transcript, start, top, 0, at[0], Seq::empty()) == rounds_verdict(
            fri,
            transcript,
            start,
            top,
            k,
            at[k as int],
            shown(fri, top, ab, k),
        ),
    decreases k,
{
    if k > 0 {
        let j = (k - 1) as nat;
        lemma_passed(fri, transcript, start, top, ab, c, at, j);
        assert(error_of(fri, transcript, start, top, ab, c, j as int) is None);
        lemma_step(
            fri,
            transcript,
            start,
            top,
            j,
            at[j as int],
            shown(fri, top, ab, j),
            ab[j as int],
            c[j as int],
            at[k as int],
        );
    }
}

/// No round of an accepted proof has an error.
proof fn lemma_accepted_without_error<PF: PrimeField>(
    fri: &Fri<PF>,
    transcript: Seq<u8>,
    start: int,
    top: Seq<usize>,
    ab: Seq<Seq<PathView<PF::Elem>>>,
    c: Seq<Seq<PathView<PF::Elem>>>,
    at: Seq<int>,
    k: nat,
)
    requires
        openings_written(transcript, ab, c, at),
        k <= ab.len(),
        k <= fri.rounds(),
        rounds_verdict(fri, transcript, start, top, 0, at[0], Seq::empty()).result is Ok,
    ensures
        forall|i: int|
            0 <= i < k ==> #[trigger] error_of(fri, transcript, start, top, ab, c, i) is None,
    decreases k,
{
    if k > 0 {
        let j = (k - 1) as nat;
        lemma_accepted_without_error(fri, transcript, start, top, ab, c, at, j);
        lemma_passed(fri, transcript, start, top, ab, c, at, j);
        lemma_step(
            fri,
            transcript,
            start,
            top,
            j,
            at[j as int],
            shown(fri, top, ab, j),
            ab[j as int],
            c[j as int],
            at[k as int],
        );
        assert(error_of(fri, transcript, start, top, ab, c, j as int) is None);
    }
}

/// The samples of an accepted proof are indices into the first half of the domain.
proof fn lemma_accepted_indices<PF: PrimeField>(
    fri: &Fri<PF>,
    transcript: Seq<u8>,
    start: int,
    word: Seq<PF::Elem>,
    end: int,
)
    requires
        fri.verification_defined_on(transcript, start),
        0 <= start <= transcript.len(),
        verdict(fri, transcript, start).result is Ok,
        word_written(transcript, start + 32 * (fri.rounds() + 1), word, end),
    ensures
        ({
            let indices = sampled_indices(fri, digest_of(transcript.take(end)));
            &&& fri.sampling_defined()
            &&& indices.len() == fri.colinearity_checks_count
            &&& fri.rounds() > 0 ==> forall|s: int|
                0 <= s < indices.len() ==> (#[trigger] indices[s]) < fri.domain_length as nat / 2
            &&& verdict(fri, transcript, start) == rounds_verdict(
                fri,
                transcript,
                start,
                indices,
                0,
                end,
                Seq::empty(),
            )
        }),
{
    let (own, p) = lemma_accepted_word(fri, transcript, start);
    let from = start + 32 * (fri.rounds() + 1);
    lemma_word_is_read(transcript, from, word, end);
    lemma_word_is_read(transcript, from, own, p);
    lemma_top_indices(fri, digest_of(transcript.take(end)));
}

/// Every round of an accepted proof is sound, at every sample.
///
/// Three values are authenticated: two by the root of the round, at the index and half
/// the round's domain further on, and one by the next root, at the index. And the
/// three points lie on one line: the two values stand over the points of the round's
/// domain, the third stands over the challenge of the round. The challenge is sampled
/// from the hash of the transcript up to the round's root, the indices from the hash of
/// the transcript up to the last codeword.
pub proof fn law_accepted_rounds_are_colinear<PF: PrimeField>(
    fri: &Fri<PF>,
    transcript: Seq<u8>,
    start: int,
    word: Seq<PF::Elem>,
    ab: Seq<Seq<PathView<PF::Elem>>>,
    c: Seq<Seq<PathView<PF::Elem>>>,
    at: Seq<int>,
    r: nat,
    s: int,
)
    requires
        fri.verification_defined_on(transcript, start),
        0 <= start <= transcript.len(),
        verdict(fri, transcript, start).result is Ok,
        word_written(transcript, start + 32 * (fri.rounds() + 1), word, at[0]),
        openings_written(transcript, ab, c, at),
        r < fri.rounds(),
        r < ab.len(),
        0 <= s < fri.colinearity_checks_count,
    ensures
        ({
            let checks = fri.colinearity_checks_count;
            let half = fri.domain_length as nat / pow2(r + 1);
            let a = sampled_indices(fri, digest_of(transcript.take(at[0])))[s] as nat % half;
            let root = transcript.subrange(start + 32 * r, start + 32 * (r + 1));
            let next_root = transcript.subrange(start + 32 * (r + 1), start + 32 * (r + 2));
            let alpha = <PF::Elem>::sampled(digest_of(transcript.take(start + 32 * (r + 1))));
            let offset = power(fri.offset, pow2(r));
            let generator = power(fri.omega, pow2(r));
            let x = offset.times(power(generator, a % 0x1_0000_0000));
            let y = offset.times(power(generator, (a + half) % 0x1_0000_0000));
            let at_x = ab[r as int][s];
            let at_y = ab[r as int][checks + s];
            let at_alpha = c[r as int][s];
            &&& half > 0
            &&& a + half < fri.domain_length
            &&& ab[r as int].len() == 2 * checks
            &&& c[r as int].len() == checks
            &&& authenticates(root, a, at_x)
            &&& authenticates(root, a + half, at_y)
            &&& authenticates(next_root, a, at_alpha)
            &&& x.minus(y).times(at_alpha.value.minus(at_x.value)) == at_x.value.minus(
                at_y.value,
            ).times(alpha.minus(x))
        }),
{
    let i = r as int;
    let top = sampled_indices(fri, digest_of(transcript.take(at[0])));
    lemma_accepted_indices(fri, transcript, start, word, at[0]);
    lemma_accepted_without_error(fri, transcript, start, top, ab, c, at, r + 1);
    assert(error_of(fri, transcript, start, top, ab, c, i) is None);
    let alpha = challenge_at::<PF::Elem>(transcript, start, i);
    let root = root_at(transcript, start, i);
    let next_root = root_at(transcript, start, i + 1);
    lemma_checked_sample(fri, r, alpha, root, next_root, top, ab[i], c[i], s);
    assert(root == transcript.subrange(start + 32 * r, start + 32 * (r + 1)));
    assert(next_root == transcript.subrange(start + 32 * (r + 1), start + 32 * (r + 2)));
}

/// The values that an accepted proof reveals are those of its first round: for every
/// sample the value at its index, then the value half the domain further on. Without a
/// round there are none.
pub proof fn law_accepted_values_are_of_the_first_round<PF: PrimeField>(
    fri: &Fri<PF>,
    transcript: Seq<u8>,
    start: int,
    word: Seq<PF::Elem>,
    ab: Seq<Seq<PathView<PF::Elem>>>,
    c: Seq<Seq<PathView<PF::Elem>>>,
    at: Seq<int>,
)
    requires
        fri.verification_defined_on(transcript, start),
        0 <= start <= transcript.len(),
        verdict(fri, transcript, start).result is Ok,
        word_written(transcript, start + 32 * (fri.rounds() + 1), word, at[0]),
        openings_written(transcript, ab, c, at),
        ab.len() == fri.rounds(),
    ensures
        ({
            let checks = fri.colinearity_checks_count;
            let values = verdict(fri, transcript, start).result->Ok_0;
            let half = fri.domain_length as nat / 2;
            let indices = sampled_indices(fri, digest_of(transcript.take(at[0])));
            &&& fri.rounds() == 0 ==> values.len() == 0
            &&& fri.rounds() > 0 ==> {
                &&& values.len() == 2 * checks
                &&& forall|s: int|
                    0 <= s < checks ==> {
                        let a = #[trigger] indices[s];
                        &&& a < half
                        &&& values[2 * s] == (a, ab[0][s].value)
                        &&& values[2 * s + 1] == ((a + half) as usize, ab[0][checks + s].value)
                    }
            }
        }),
{
    let rounds = fri.rounds();
    let top = sampled_indices(fri, digest_of(transcript.take(at[0])));
    lemma_accepted_indices(fri, transcript, start, word, at[0]);
    lemma_accepted_verdict(fri, transcript, start, top, ab, c, at);
    lemma_shown(fri, top, ab, rounds);
}

/// An accepted proof reveals what is shown after the last round.
proof fn lemma_accepted_verdict<PF: PrimeField>(
    fri: &Fri<PF>,
    transcript: Seq<u8>,
    start: int,
    top: Seq<usize>,
    ab: Seq<Seq<PathView<PF::Elem>>>,
    c: Seq<Seq<PathView<PF::Elem>>>,
    at: Seq<int>,
)
    requires
        openings_written(transcript, ab, c, at),
        ab.len() == fri.rounds(),
        rounds_verdict(fri, transcript, start, top, 0, at[0], Seq::empty()).result is Ok,
    ensures
        rounds_verdict(fri, transcript, start, top, 0, at[0], Seq::empty()).result->Ok_0 == shown(
            fri,
            top,
            ab,
            fri.rounds(),
        ),
{
    let rounds = fri.rounds();
    lemma_accepted_without_error(fri, transcript, start, top, ab, c, at, rounds);
    lemma_passed(fri, transcript, start, top, ab, c, at, rounds);
}

/// What is shown after some rounds, sample by sample.
proof fn lemma_shown<PF: PrimeField>(
    fri: &Fri<PF>,
    top: Seq<usize>,
    ab: Seq<Seq<PathView<PF::Elem>>>,
    k: nat,
)
    requires
        fri.sampling_defined(),
        k > 0 ==> fri.rounds() > 0,
        top.len() == fri.colinearity_checks_count,
        fri.rounds() > 0 ==> forall|s: int|
            0 <= s < top.len() ==> (#[trigger] top[s]) < fri.domain_length as nat / 2,
    ensures
        ({
            let checks = fri.colinearity_checks_count;
            let values = shown(fri, top, ab, k);
            let half = fri.domain_length as nat / 2;
            &&& k == 0 ==> values.len() == 0
            &&& k > 0 ==> {
                &&& values.len() == 2 * checks
                &&& forall|s: int|
                    0 <= s < checks ==> {
                        let a = #[trigger] top[s];
                        &&& a < half
                        &&& values[2 * s] == (a, ab[0][s].value)
                        &&& values[2 * s + 1] == ((a + half) as usize, ab[0][checks + s].value)
                    }
            }
        }),
{
    let checks = fri.colinearity_checks_count;
    if k > 0 {
        let values = shown(fri, top, ab, k);
        let half = fri.domain_length as nat / 2;
        lemma2_to64();
        lemma_half_of_domain(fri, 0);
        assert forall|s: int| 0 <= s < checks implies {
            let a = #[trigger] top[s];
            &&& a < half
            &&& values[2 * s] == (a, ab[0][s].value)
            &&& values[2 * s + 1] == ((a + half) as usize, ab[0][checks + s].value)
        } by {
            lemma_small_mod(top[s] as nat, half);
            assert((2 * s) / 2 == s && (2 * s) % 2 == 0);
            assert((2 * s + 1) / 2 == s && (2 * s + 1) % 2 == 1);
        }
    }
}

// ---- rejected proofs ----

/// Whether the openings of round `r` lead to the roots of the round and of the next:
/// there are at least as many as there are checks, and the paths of each sample lead
/// from its index, and from the index half the round's domain further on.
pub open spec fn openings_authenticated<PF: PrimeField>(
    fri: &Fri<PF>,
    r: nat,
    root: Seq<u8>,
    next_root: Seq<u8>,
    indices: Seq<usize>,
    ab: Seq<PathView<PF::Elem>>,
    c: Seq<PathView<PF::Elem>>,
) -> bool {
    let checks = fri.colinearity_checks_count;
    let half = fri.domain_length as nat / pow2(r + 1);
    &&& 2 * checks <= ab.len()
    &&& checks <= c.len()
    &&& forall|s: int|
        0 <= s < checks ==> {
            let a = #[trigger] indices[s] as nat % half;
            &&& authenticates(root, a, ab[s])
            &&& authenticates(root, a + half, ab[checks + s])
            &&& authenticates(next_root, a, c[s])
        }
}

/// Whether the three values at sample `s` of round `r` lie on one line.
pub open spec fn opening_on_line<PF: PrimeField>(
    fri: &Fri<PF>,
    r: nat,
    alpha: PF::Elem,
    indices: Seq<usize>,
    ab: Seq<PathView<PF::Elem>>,
    c: Seq<PathView<PF::Elem>>,
    s: int,
) -> bool {
    let half = fri.domain_length as nat / pow2(r + 1);
    let a = indices[s] as nat % half;
    let offset = power(fri.offset, pow2(r));
    let generator = power(fri.omega, pow2(r));
    let x = offset.times(power(generator, a % 0x1_0000_0000));
    let y = offset.times(power(generator, (a + half) % 0x1_0000_0000));
    let at_x = ab[s].value;
    let at_y = ab[fri.colinearity_checks_count + s].value;
    x.minus(y).times(c[s].value.minus(at_x)) == at_x.minus(at_y).times(alpha.minus(x))
}

/// Whether the openings of round `r` are authenticated, as many as there are checks,
/// and on a line for every sample.
pub open spec fn openings_pass<PF: PrimeField>(
    fri: &Fri<PF>,
    r: nat,
    alpha: PF::Elem,
    root: Seq<u8>,
    next_root: Seq<u8>,
    indices: Seq<usize>,
    ab: Seq<PathView<PF::Elem>>,
    c: Seq<PathView<PF::Elem>>,
) -> bool {
    &&& openings_authenticated(fri, r, root, next_root, indices, ab, c)
    &&& ab.len() == 2 * fri.colinearity_checks_count
    &&& c.len() == fri.colinearity_checks_count
    &&& forall|s: int|
        0 <= s < fri.colinearity_checks_count ==> #[trigger] opening_on_line(
            fri,
            r,
            alpha,
            indices,
            ab,
            c,
            s,
        )
}

/// Both halves of the indices are authenticated together or one by one.
proof fn lemma_authenticated<PF: PrimeField>(
    fri: &Fri<PF>,
    r: nat,
    root: Seq<u8>,
    next_root: Seq<u8>,
    top: Seq<usize>,
    ab: Seq<PathView<PF::Elem>>,
    c: Seq<PathView<PF::Elem>>,
)
    requires
        fri.sampling_defined(),
        r < fri.rounds(),
        top.len() == fri.colinearity_checks_count,
    ensures
        ({
            let half = fri.length_after(r + 1);
            let a_indices = reduced(top, half);
            let b_indices = moved(a_indices, half);
            openings_authenticated(fri, r, root, next_root, top, ab, c) <==> authenticates_all(
                root,
                a_indices + b_indices,
                ab,
            ) && authenticates_all(next_root, a_indices, c)
        }),
{
    let checks = fri.colinearity_checks_count as int;
    let half = fri.length_after(r + 1);
    let a_indices = reduced(top, half);
    let b_indices = moved(a_indices, half);
    let both = a_indices + b_indices;
    lemma_half_of_domain(fri, r);
    assert forall|s: int| 0 <= s < checks implies (#[trigger] a_indices[s]) as nat == top[s] as nat
        % half && b_indices[s] as nat == top[s] as nat % half + half by {
        lemma_mod_bound(top[s] as int, half as int);
    }
    if openings_authenticated(fri, r, root, next_root, top, ab, c) {
        assert forall|s: int| 0 <= s < both.len() implies #[trigger] authenticates(
            root,
            both[s] as nat,
            ab[s],
        ) by {
            let t = if s < checks {
                s
            } else {
                s - checks
            };
            assert(top[t] as nat % half == a_indices[t]);
        }
        assert forall|s: int| 0 <= s < a_indices.len() implies #[trigger] authenticates(
            next_root,
            a_indices[s] as nat,
            c[s],
        ) by {
            assert(top[s] as nat % half == a_indices[s]);
        }
    }
    if authenticates_all(root, both, ab) && authenticates_all(next_root, a_indices, c) {
        assert forall|s: int| 0 <= s < checks implies {
            let a = #[trigger] top[s] as nat % half;
            &&& authenticates(root, a, ab[s])
            &&& authenticates(root, a + half, ab[checks + s])
            &&& authenticates(next_root, a, c[s])
        } by {
            assert(a_indices[s] as nat == top[s] as nat % half);
            assert(both[s] == a_indices[s]);
            assert(both[checks + s] == b_indices[s]);
            assert(authenticates(root, both[s] as nat, ab[s]));
            assert(authenticates(root, both[checks + s] as nat, ab[checks + s]));
            assert(authenticates(next_root, a_indices[s] as nat, c[s]));
        }
    }
}

/// Whether a sample is on a line does not depend on how its index is written.
proof fn lemma_on_line<PF: PrimeField>(
    fri: &Fri<PF>,
    r: nat,
    alpha: PF::Elem,
    top: Seq<usize>,
    ab: Seq<PathView<PF::Elem>>,
    c: Seq<PathView<PF::Elem>>,
    s: int,
)
    requires
        fri.sampling_defined(),
        r < fri.rounds(),
        top.len() == fri.colinearity_checks_count,
        0 <= s < fri.colinearity_checks_count,
    ensures
        ({
            let half = fri.length_after(r + 1);
            let a_indices = reduced(top, half);
            let b_indices = moved(a_indices, half);
            opening_on_line(fri, r, alpha, top, ab, c, s) == sample_colinear(
                fri,
                r,
                alpha,
                a_indices,
                b_indices,
                ab,
                c,
                s,
            )
        }),
{
    let half = fri.length_after(r + 1);
    let a_indices = reduced(top, half);
    let b_indices = moved(a_indices, half);
    lemma_half_of_domain(fri, r);
    lemma_mod_bound(top[s] as int, half as int);
    lemma_exponent(a_indices[s]);
    lemma_exponent(b_indices[s]);
}

/// What is wrong with the openings of a round, whatever the indices, the roots and the
/// challenge: that a path does not lead to its root or is not there, else that there
/// are more paths than checks, else that the values of some sample are not on a line,
/// else nothing.
pub proof fn law_round_is_judged<PF: PrimeField>(
    fri: &Fri<PF>,
    r: nat,
    alpha: PF::Elem,
    root: Seq<u8>,
    next_root: Seq<u8>,
    indices: Seq<usize>,
    ab: Seq<PathView<PF::Elem>>,
    c: Seq<PathView<PF::Elem>>,
)
    requires
        fri.sampling_defined(),
        r < fri.rounds(),
        indices.len() == fri.colinearity_checks_count,
    ensures
        ({
            let checks = fri.colinearity_checks_count;
            let fits = openings_authenticated(fri, r, root, next_root, indices, ab, c);
            let sized = ab.len() == 2 * checks && c.len() == checks;
            let error = round_error(fri, r, alpha, root, next_root, indices, ab, c);
            &&& !fits ==> error == Some(ValidationError::BadMerkleProof)
            &&& fits && !sized ==> error == Some(ValidationError::BadSizedProof)
            &&& fits && sized && (exists|s: int|
                0 <= s < checks && !#[trigger] opening_on_line(fri, r, alpha, indices, ab, c, s))
                ==> error == Some(ValidationError::NotColinear(r as usize))
            &&& openings_pass(fri, r, alpha, root, next_root, indices, ab, c) ==> error is None
        }),
{
    let half = fri.length_after(r + 1);
    let a_indices = reduced(indices, half);
    let b_indices = moved(a_indices, half);
    let checks = fri.colinearity_checks_count;
    lemma_authenticated(fri, r, root, next_root, indices, ab, c);
    assert forall|s: int| 0 <= s < checks implies opening_on_line(
        fri,
        r,
        alpha,
        indices,
        ab,
        c,
        s,
    ) == #[trigger] sample_colinear(fri, r, alpha, a_indices, b_indices, ab, c, s) by {
        lemma_on_line(fri, r, alpha, indices, ab, c, s);
    }
    if exists|s: int|
        0 <= s < checks && !#[trigger] opening_on_line(fri, r, alpha, indices, ab, c, s) {
        let s = choose|s: int|
            0 <= s < checks && !#[trigger] opening_on_line(fri, r, alpha, indices, ab, c, s);
        assert(!sample_colinear(fri, r, alpha, a_indices, b_indices, ab, c, s));
    }
}

/// The last codeword that is read from a transcript is the one that is written there
/// behind the roots.
pub proof fn law_last_codeword_is_read<PF: PrimeField>(
    fri: &Fri<PF>,
    transcript: Seq<u8>,
    start: int,
    word: Seq<PF::Elem>,
)
    requires
        0 <= start,
    ensures
        last_word_at(fri, transcript, start) == Some(word) <==> ({
            let roots_end = start + 32 * (fri.rounds() + 1);
            word_written(
                transcript,
                roots_end,
                word,
                roots_end + 8 + encoded_elements(word).len(),
            )
        }),
{
    let roots_end = start + 32 * (fri.rounds() + 1);
    let end = roots_end + 8 + encoded_elements(word).len();
    if word_written(transcript, roots_end, word, end) {
        lemma_word_is_read(transcript, roots_end, word, end);
    }
    if last_word_at(fri, transcript, start) == Some(word) {
        lemma_item(transcript, roots_end);
        law_read_elements_were_encoded::<PF::Elem>(item_at(transcript, roots_end).unwrap());
    }
}

/// The answers to a transcript whose roots or last codeword cannot be read.
pub proof fn law_unreadable_codeword_is_reported<PF: PrimeField>(
    fri: &Fri<PF>,
    transcript: Seq<u8>,
    start: int,
)
    requires
        0 <= start <= transcript.len(),
    ensures
        ({
            let roots_end = start + 32 * (fri.rounds() + 1);
            let v = verdict(fri, transcript, start);
            &&& roots_end > transcript.len() ==> {
                &&& v.result == Err::<Seq<(usize, PF::Elem)>, _>(
                    FriError::Stream(ProofStreamError::TranscriptLengthExceeded),
                )
                &&& transcript.len() - 32 < v.position <= transcript.len()
                &&& (v.position - start) % 32 == 0
            }
            &&& roots_end <= transcript.len() && item_at(transcript, roots_end) is None ==> v == (
            Verdict::<PF::Elem> {
                result: Err(FriError::Stream(ProofStreamError::TranscriptLengthExceeded)),
                position: roots_end,
            })
            &&& roots_end <= transcript.len() ==> (item_at(transcript, roots_end) matches Some(
                item,
            ) ==> decoded_elements::<PF::Elem>(item) is None ==> v == (Verdict::<PF::Elem> {
                result: Err(FriError::Stream(ProofStreamError::MalformedItem)),
                position: roots_end + 8 + item.len(),
            }))
        }),
{
}

/// The answers to a last codeword that is not under the last root, or whose polynomial
/// has a coefficient beyond the degree bound.
pub proof fn law_wrong_codeword_is_reported<PF: PrimeField>(
    fri: &Fri<PF>,
    transcript: Seq<u8>,
    start: int,
    word: Seq<PF::Elem>,
    end: int,
)
    requires
        0 <= start,
        word_written(transcript, start + 32 * (fri.rounds() + 1), word, end),
    ensures
        ({
            let v = verdict(fri, transcript, start);
            let root = transcript.subrange(
                start + 32 * fri.rounds(),
                start + 32 * (fri.rounds() + 1),
            );
            let coefficients = interpolated(word, power(fri.omega, pow2(fri.rounds())));
            &&& !is_power_of_two(word.len()) || merkle_root(word) != root ==> v == (Verdict::<
                PF::Elem,
            > {
                result: Err(FriError::Validation(ValidationError::BadMerkleRootForLastCodeword)),
                position: end,
            })
            &&& is_power_of_two(word.len()) && merkle_root(word) == root && (exists|k: int|
                fri.last_degree() < k < word.len() && #[trigger] coefficients[k]
                    != <PF::Elem>::zero()) ==> v == (Verdict::<PF::Elem> {
                result: Err(FriError::Validation(ValidationError::LastIterationTooHighDegree)),
                position: end,
            })
        }),
{
    let coefficients = interpolated(word, power(fri.omega, pow2(fri.rounds())));
    lemma_word_is_read(transcript, start + 32 * (fri.rounds() + 1), word, end);
    lemma_pow2_pos(fri.missed_rounds());
    lemma_degree(coefficients, fri.last_degree());
}

/// Whether everything up to round `k` passes: the last codeword is under the last root
/// and of low degree, and the openings of every round before `k` pass.
pub open spec fn passes_before<PF: PrimeField>(
    fri: &Fri<PF>,
    transcript: Seq<u8>,
    start: int,
    word: Seq<PF::Elem>,
    ab: Seq<Seq<PathView<PF::Elem>>>,
    c: Seq<Seq<PathView<PF::Elem>>>,
    at: Seq<int>,
    k: int,
) -> bool {
    let indices = sampled_indices(fri, digest_of(transcript.take(at[0])));
    let coefficients = interpolated(word, power(fri.omega, pow2(fri.rounds())));
    &&& word_written(transcript, start + 32 * (fri.rounds() + 1), word, at[0])
    &&& openings_written(transcript, ab, c, at)
    &&& is_power_of_two(word.len())
    &&& merkle_root(word) == transcript.subrange(
        start + 32 * fri.rounds(),
        start + 32 * (fri.rounds() + 1),
    )
    &&& forall|j: int|
        fri.last_degree() < j < word.len() ==> #[trigger] coefficients[j] == <PF::Elem>::zero()
    &&& forall|i: int|
        0 <= i < k ==> openings_pass(
            fri,
            i as nat,
            <PF::Elem>::sampled(digest_of(transcript.take(start + 32 * (i + 1)))),
            transcript.subrange(start + 32 * i, start + 32 * (i + 1)),
            transcript.subrange(start + 32 * (i + 1), start + 32 * (i + 2)),
            indices,
            #[trigger] ab[i],
            c[i],
        )
}

/// What is wrong with a round, by what stands on the transcript.
proof fn lemma_error<PF: PrimeField>(
    fri: &Fri<PF>,
    transcript: Seq<u8>,
    start: int,
    top: Seq<usize>,
    ab: Seq<Seq<PathView<PF::Elem>>>,
    c: Seq<Seq<PathView<PF::Elem>>>,
    i: int,
)
    requires
        fri.sampling_defined(),
        0 <= i < fri.rounds(),
        top.len() == fri.colinearity_checks_count,
    ensures
        ({
            let r = i as nat;
            let checks = fri.colinearity_checks_count;
            let alpha = <PF::Elem>::sampled(digest_of(transcript.take(start + 32 * (i + 1))));
            let root = transcript.subrange(start + 32 * i, start + 32 * (i + 1));
            let next_root = transcript.subrange(start + 32 * (i + 1), start + 32 * (i + 2));
            let fits = openings_authenticated(fri, r, root, next_root, top, ab[i], c[i]);
            let sized = ab[i].len() == 2 * checks && c[i].len() == checks;
            let error = error_of(fri, transcript, start, top, ab, c, i);
            &&& !fits ==> error == Some(ValidationError::BadMerkleProof)
            &&& fits && !sized ==> error == Some(ValidationError::BadSizedProof)
            &&& fits && sized && (exists|s: int|
                0 <= s < checks && !#[trigger] opening_on_line(
                    fri,
                    r,
                    alpha,
                    top,
                    ab[i],
                    c[i],
                    s,
                )) ==> error == Some(ValidationError::NotColinear(r as usize))
            &&& openings_pass(fri, r, alpha, root, next_root, top, ab[i], c[i]) ==> error is None
        }),
{
    let alpha = challenge_at::<PF::Elem>(transcript, start, i);
    let root = root_at(transcript, start, i);
    let next_root = root_at(transcript, start, i + 1);
    assert(root == transcript.subrange(start + 32 * i, start + 32 * (i + 1)));
    assert(next_root == transcript.subrange(start + 32 * (i + 1), start + 32 * (i + 2)));
    law_round_is_judged(fri, i as nat, alpha, root, next_root, top, ab[i], c[i]);
}

/// Where everything passes before a round, the verdict is that from this round on.
proof fn lemma_passes_before<PF: PrimeField>(
    fri: &Fri<PF>,
    transcript: Seq<u8>,
    start: int,
    word: Seq<PF::Elem>,
    ab: Seq<Seq<PathView<PF::Elem>>>,
    c: Seq<Seq<PathView<PF::Elem>>>,
    at: Seq<int>,
    k: nat,
)
    requires
        0 <= start,
        fri.sampling_defined(),
        k <= fri.rounds(),
        k <= ab.len(),
        passes_before(fri, transcript, start, word, ab, c, at, k as int),
    ensures
        ({
            let top = sampled_indices(fri, digest_of(transcript.take(at[0])));
            &&& top.len() == fri.colinearity_checks_count
            &&& verdict(fri, transcript, start) == rounds_verdict(
                fri,
                transcript,
                start,
                top,
                k,
                at[k as int],
                shown(fri, top, ab, k),
            )
        }),
{
    let coefficients = interpolated(word, power(fri.omega, pow2(fri.rounds())));
    let top = sampled_indices(fri, digest_of(transcript.take(at[0])));
    lemma_top_indices(fri, digest_of(transcript.take(at[0])));
    lemma_word_is_read(transcript, start + 32 * (fri.rounds() + 1), word, at[0]);
    lemma_pow2_pos(fri.missed_rounds());
    lemma_degree(coefficients, fri.last_degree());
    assert forall|i: int| 0 <= i < k implies #[trigger] error_of(
        fri,
        transcript,
        start,
        top,
        ab,
        c,
        i,
    ) is None by {
        lemma_error(fri, transcript, start, top, ab, c, i);
    }
    lemma_passed(fri, transcript, start, top, ab, c, at, k);
}

/// A proof whose last codeword and openings all pass is accepted, and read to its end.
pub proof fn law_passing_proof_is_accepted<PF: PrimeField>(
    fri: &Fri<PF>,
    transcript: Seq<u8>,
    start: int,
    word: Seq<PF::Elem>,
    ab: Seq<Seq<PathView<PF::Elem>>>,
    c: Seq<Seq<PathView<PF::Elem>>>,
    at: Seq<int>,
)
    requires
        0 <= start,
        fri.sampling_defined(),
        ab.len() == fri.rounds(),
        passes_before(fri, transcript, start, word, ab, c, at, fri.rounds() as int),
    ensures
        verdict(fri, transcript, start).result is Ok,
        verdict(fri, transcript, start).position == at[fri.rounds() as int],
{
    lemma_passes_before(fri, transcript, start, word, ab, c, at, fri.rounds());
}

/// Where everything passes before round `r`, the answer is what is wrong with its
/// openings, which have been read: that a path does not lead to its root or is not
/// there, else that there are more paths than checks, else that the values of some
/// sample are not on a line.
pub proof fn law_first_failing_round_is_reported<PF: PrimeField>(
    fri: &Fri<PF>,
    transcript: Seq<u8>,
    start: int,
    word: Seq<PF::Elem>,
    ab: Seq<Seq<PathView<PF::Elem>>>,
    c: Seq<Seq<PathView<PF::Elem>>>,
    at: Seq<int>,
    r: nat,
)
    requires
        0 <= start,
        fri.sampling_defined(),
        r < fri.rounds(),
        r < ab.len(),
        passes_before(fri, transcript, start, word, ab, c, at, r as int),
    ensures
        ({
            let v = verdict(fri, transcript, start);
            let checks = fri.colinearity_checks_count;
            let indices = sampled_indices(fri, digest_of(transcript.take(at[0])));
            let ab_paths = ab[r as int];
            let c_paths = c[r as int];
            let root = transcript.subrange(start + 32 * r, start + 32 * (r + 1));
            let next_root = transcript.subrange(start + 32 * (r + 1), start + 32 * (r + 2));
            let alpha = <PF::Elem>::sampled(digest_of(transcript.take(start + 32 * (r + 1))));
            let fits = openings_authenticated(
                fri,
                r,
                root,
                next_root,
                indices,
                ab_paths,
                c_paths,
            );
            let sized = ab_paths.len() == 2 * checks && c_paths.len() == checks;
            &&& !fits ==> v == (Verdict::<PF::Elem> {
                result: Err(FriError::Validation(ValidationError::BadMerkleProof)),
                position: at[r + 1int],
            })
            &&& fits && !sized ==> v == (Verdict::<PF::Elem> {
                result: Err(FriError::Validation(ValidationError::BadSizedProof)),
                position: at[r + 1int],
            })
            &&& fits && sized && (exists|s: int|
                0 <= s < checks && !#[trigger] opening_on_line(
                    fri,
                    r,
                    alpha,
                    indices,
                    ab_paths,
                    c_paths,
                    s,
                )) ==> v == (Verdict::<PF::Elem> {
                result: Err(FriError::Validation(ValidationError::NotColinear(r as usize))),
                position: at[r + 1int],
            })
        }),
{
    let i = r as int;
    let top = sampled_indices(fri, digest_of(transcript.take(at[0])));
    lemma_passes_before(fri, transcript, start, word, ab, c, at, r);
    lemma_error(fri, transcript, start, top, ab, c, i);
    lemma_step(
        fri,
        transcript,
        start,
        top,
        r,
        at[i],
        shown(fri, top, ab, r),
        ab[i],
        c[i],
        at[i + 1],
    );
}

/// Where everything passes before round `r`, and one of the round's lists of paths
/// cannot be read, the answer says whether it ends too early or holds no paths.
pub proof fn law_unreadable_openings_are_reported<PF: PrimeField>(
    fri: &Fri<PF>,
    transcript: Seq<u8>,
    start: int,
    word: Seq<PF::Elem>,
    ab: Seq<Seq<PathView<PF::Elem>>>,
    c: Seq<Seq<PathView<PF::Elem>>>,
    at: Seq<int>,
    next: Seq<PathView<PF::Elem>>,
    between: int,
)
    requires
        0 <= start,
        fri.sampling_defined(),
        ab.len() < fri.rounds(),
        passes_before(fri, transcript, start, word, ab, c, at, ab.len() as int),
    ensures
        ({
            let v = verdict(fri, transcript, start);
            let position = at[ab.len() as int];
            // the first list
            &&& item_at(transcript, position) is None ==> v == (Verdict::<PF::Elem> {
                result: Err(FriError::Stream(ProofStreamError::TranscriptLengthExceeded)),
                position,
            })
            &&& item_at(transcript, position) matches Some(item) ==> decoded_paths::<PF::Elem>(
                item,
            ) is None ==> v == (Verdict::<PF::Elem> {
                result: Err(FriError::Stream(ProofStreamError::MalformedItem)),
                position: position + 8 + item.len(),
            })
            // the second list, behind a first that can be read
            &&& paths_written(transcript, position, next, between) && item_at(
                transcript,
                between,
            ) is None ==> v == (Verdict::<PF::Elem> {
                result: Err(FriError::Stream(ProofStreamError::TranscriptLengthExceeded)),
                position: between,
            })
            &&& paths_written(transcript, position, next, between) ==> (item_at(
                transcript,
                between,
            ) matches Some(item) ==> decoded_paths::<PF::Elem>(item) is None ==> v == (Verdict::<
                PF::Elem,
            > {
                result: Err(FriError::Stream(ProofStreamError::MalformedItem)),
                position: between + 8 + item.len(),
            }))
        }),
{
    lemma_passes_before(fri, transcript, start, word, ab, c, at, ab.len());
    if paths_written(transcript, at[ab.len() as int], next, between) {
        lemma_paths_are_read(transcript, at[ab.len() as int], next, between);
    }
}

} // verus!
