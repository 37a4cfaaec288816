//! For which parameters the protocol is defined, by the parameters alone.

use vstd::arithmetic::power2::*;
use vstd::prelude::*;

use crate::algebra::primitive_root;
use crate::field::{power, FieldElement, PrimeField};
use crate::fri::Fri;
use crate::fri_model::{ceil_div, last_word_at};
use crate::merkle_tree::{is_power_of_two, merkle_root};
use crate::ntt::interpolated;
use crate::other::{lemma_log_2_ceil_unique, lemma_pow2_monotone};
use crate::polynomial::lemma_degree;
use crate::sampling_laws::lemma_enough_exists;

verus! {

/// The number of rounds is defined where the expansion factor, multiplied by the least
/// power of two that reaches the trace length, reaches the number of checks, and a
/// 32-bit power of two is enough for that. `full` is the exponent of that least power.
pub proof fn law_rounds_are_defined<PF: PrimeField>(fri: &Fri<PF>, full: nat)
    requires
        fri.expansion_factor > 0,
        fri.domain_length as nat / fri.expansion_factor as nat <= pow2(full),
        full > 0 ==> pow2((full - 1) as nat) < fri.domain_length as nat
            / fri.expansion_factor as nat,
    ensures
        fri.rounds_defined() <==> {
            &&& fri.expansion_factor <= fri.domain_length
            &&& fri.colinearity_checks_count <= fri.expansion_factor * pow2(full)
            &&& fri.colinearity_checks_count <= fri.expansion_factor * 0x8000_0000
        },
{
    let e = fri.expansion_factor as nat;
    let c = fri.colinearity_checks_count as nat;
    let t = fri.domain_length as nat / e;
    let missed = fri.missed_rounds();
    lemma2_to64();
    lemma_log_2_ceil_unique(t, full);
    lemma_pow2_pos(full);
    if e < c {
        let q = ceil_div(c, e);
        lemma_enough_exists(q);
        lemma_reaches(c, e, pow2(full));
        lemma_reaches(c, e, pow2(31));
        lemma_least(q, missed, full);
        lemma_least(q, missed, 31);
    } else {
        assert(e <= e * pow2(full)) by (nonlinear_arith)
            requires
                pow2(full) >= 1,
        ;
    }
}

/// A quotient that is rounded up is at most `p` where the divisor times `p` is enough.
proof fn lemma_reaches(c: nat, e: nat, p: nat)
    requires
        e > 0,
    ensures
        ceil_div(c, e) <= p <==> c <= e * p,
{
    let q = ceil_div(c, e);
    vstd::arithmetic::div_mod::lemma_fundamental_div_mod(c + e - 1, e as int);
    vstd::arithmetic::div_mod::lemma_mod_bound(c + e - 1, e as int);
    assert(e * q >= c && e * q <= c + e - 1);
    if q <= p {
        assert(e * q <= e * p) by (nonlinear_arith)
            requires
                q <= p,
        ;
    } else {
        assert(e * q >= e * p + e) by (nonlinear_arith)
            requires
                q >= p + 1,
        ;
    }
}

/// A rounded logarithm is at most `m` where the power of `m` is enough.
proof fn lemma_least(q: nat, log: nat, m: nat)
    requires
        q <= pow2(log),
        log > 0 ==> pow2((log - 1) as nat) < q,
    ensures
        log <= m <==> q <= pow2(m),
{
    if log <= m {
        lemma_pow2_monotone(log, m);
    } else {
        lemma_pow2_monotone(m, (log - 1) as nat);
    }
}

/// Samples are defined where the last codeword has a place for each, and every counter
/// fits into 32 bits.
pub proof fn law_sampling_is_defined<PF: PrimeField>(fri: &Fri<PF>)
    ensures
        fri.sampling_defined() <==> {
            let checks = fri.colinearity_checks_count;
            &&& fri.rounds_defined()
            &&& checks <= fri.domain_length as nat / pow2(fri.rounds())
            &&& checks <= 0xffff_ffff
            &&& checks * fri.rounds() <= 0xffff_ffff
        },
{
}

/// Every proof can be verified where the samples are defined and `omega` has an
/// inverse; and where a proof can be verified is decided by its last codeword.
pub proof fn law_verification_is_defined<PF: PrimeField>(
    fri: &Fri<PF>,
    transcript: Seq<u8>,
    start: int,
)
    ensures
        fri.verification_defined() <==> {
            &&& fri.sampling_defined()
            &&& fri.offset.canonical()
            &&& fri.omega.canonical()
            &&& exists|b: PF::Elem|
                b.canonical() && #[trigger] fri.omega.times(b) == <PF::Elem>::one()
        },
        fri.verification_defined_on(transcript, start) <==> {
            let roots_end = start + 32 * (fri.rounds() + 1);
            let word = last_word_at(fri, transcript, start);
            let matches = word matches Some(word) && is_power_of_two(word.len()) && merkle_root(
                word,
            ) == transcript.subrange(roots_end - 32, roots_end);
            &&& fri.rounds_defined()
            &&& fri.offset.canonical()
            &&& fri.omega.canonical()
            &&& matches ==> exists|b: PF::Elem|
                b.canonical() && #[trigger] fri.omega.times(b) == <PF::Elem>::one()
            &&& matches && (forall|k: int|
                fri.last_degree() < k < word.unwrap().len() ==> #[trigger] interpolated(
                    word.unwrap(),
                    power(fri.omega, pow2(fri.rounds())),
                )[k] == <PF::Elem>::zero()) ==> fri.sampling_defined()
        },
{
    let word = last_word_at(fri, transcript, start).unwrap();
    lemma_pow2_pos(fri.missed_rounds());
    lemma_degree(interpolated(word, power(fri.omega, pow2(fri.rounds()))), fri.last_degree());
}

/// Every codeword can be proved where the samples are defined, the domain length is a
/// power of two that a tree has room for, and, if there is a round, the offset has an
/// inverse and the powers of `omega` up to half the domain length differ.
pub proof fn law_proving_is_defined<PF: PrimeField>(fri: &Fri<PF>)
    ensures
        fri.proving_defined() <==> {
            &&& fri.sampling_defined()
            &&& fri.offset.canonical()
            &&& fri.omega.canonical()
            &&& exists|m: nat| fri.domain_length == #[trigger] pow2(m)
            &&& 2 * fri.domain_length <= usize::MAX
            &&& fri.rounds() > 0 ==> {
                &&& exists|b: PF::Elem|
                    b.canonical() && #[trigger] fri.offset.times(b) == <PF::Elem>::one()
                &&& exists|n: nat|
                    0 < n <= usize::MAX && #[trigger] power(fri.omega, n) == <PF::Elem>::one()
                &&& forall|k: nat|
                    0 < k < fri.domain_length as nat / 2 ==> #[trigger] power(fri.omega, k)
                        != <PF::Elem>::one()
            }
        },
{
}

/// Parameters are valid where every proof can be verified, the domain length is a power
/// of two that a tree has room for, `omega` is a primitive root of unity of that order,
/// and the offset has an inverse; the domain is small where its length is at most
/// `2^32`.
pub proof fn law_parameters_are_valid<PF: PrimeField>(fri: &Fri<PF>)
    ensures
        fri.valid() <==> {
            &&& fri.verification_defined()
            &&& exists|b: PF::Elem|
                b.canonical() && #[trigger] fri.offset.times(b) == <PF::Elem>::one()
            &&& 2 * fri.domain_length <= usize::MAX
            &&& exists|m: nat|
                fri.domain_length == #[trigger] pow2(m) && primitive_root(fri.omega, m)
        },
        fri.has_small_domain() <==> fri.valid() && fri.domain_length <= 0x1_0000_0000,
{
}

} // verus!
