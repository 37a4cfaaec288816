//! Properties of the parameters, the domains and the samples of the proximity test.

use vstd::arithmetic::div_mod::*;
use vstd::arithmetic::mul::*;
use vstd::arithmetic::power2::*;
use vstd::prelude::*;

use crate::algebra::{
    lemma_invertible_power, lemma_power_canonical, lemma_power_doubles, lemma_power_multiplies,
    lemma_power_of_one, lemma_power_one, lemma_primitive_root, lemma_primitive_root_order,
    primitive_root,
};
use crate::field::{invertible, power, FieldElement, PrimeField};
use crate::fri::Fri;
use crate::fri_model::{committed, counter_digest, draws, lifted_draws, reduced, sampled_indices};
use crate::group::{has_order, is_order, order_at_least};
use crate::merkle_tree::is_power_of_two;
use crate::other::{is_log_2_ceil, lemma_log_2_ceil_exists, lemma_pow2_monotone};
use crate::utils::index_of;

verus! {

/// The powers of a primitive root are as many as its order says.
pub proof fn lemma_group_size<F: FieldElement>(g: F, m: nat, n: nat)
    requires
        primitive_root(g, m),
        is_order(g, n),
    ensures
        n == pow2(m),
{
    lemma_primitive_root(g, m);
    lemma_pow2_pos(m);
    if n < pow2(m) {
        lemma_primitive_root_order(g, m, n);
    } else if n > pow2(m) {
        assert(power(g, pow2(m)) != F::one());
    }
}

/// The domain after `k` rounds.
pub proof fn lemma_domain<PF: PrimeField>(fri: &Fri<PF>, k: nat)
    requires
        fri.valid(),
        k <= fri.rounds(),
    ensures
        exists|m: nat|
            fri.length_after(k) == #[trigger] pow2(m) && primitive_root(fri.generator_after(k), m)
                && fri.rounds() <= m + k,
        fri.generator_after(k).canonical(),
        fri.offset_after(k).canonical(),
        invertible(fri.offset_after(k)),
        fri.length_after(k) >= 1,
        fri.length_after(k) <= fri.domain_length,
    decreases k,
{
    let m = choose|m: nat|
        fri.domain_length == #[trigger] pow2(m) && primitive_root(fri.omega, m);
    lemma2_to64();
    lemma_rounds_fit(fri, m);
    lemma_power_canonical(fri.omega, pow2(k));
    lemma_power_canonical(fri.offset, pow2(k));
    lemma_invertible_power(fri.offset, pow2(k));
    if k == 0 {
        lemma_power_one(fri.omega);
        lemma_div_by_one(fri.domain_length as nat);
        lemma_pow2_pos(m);
        assert(fri.length_after(k) == pow2(m));
    } else {
        let j = (k - 1) as nat;
        lemma_domain(fri, j);
        let i = choose|i: nat|
            fri.length_after(j) == #[trigger] pow2(i) && primitive_root(fri.generator_after(j), i)
                && fri.rounds() <= i + j;
        lemma_primitive_root(fri.generator_after(j), i);
        lemma_next_domain(fri, j);
        lemma_halving(fri, j);
        lemma_pow2_unfold(i);
        let e = (i - 1) as nat;
        lemma_pow2_pos(e);
        assert(fri.length_after(k) == pow2(e) && primitive_root(fri.generator_after(k), e)
            && fri.rounds() <= e + k);
    }
}

pub proof fn lemma_div_by_one(n: nat)
    ensures
        n / 1 == n,
{
}

/// The domain is long enough for all rounds.
pub proof fn lemma_rounds_fit<PF: PrimeField>(fri: &Fri<PF>, m: nat)
    requires
        fri.rounds_defined(),
        fri.domain_length == pow2(m),
    ensures
        fri.full_rounds() <= m,
        fri.rounds() <= m,
        is_log_2_ceil(fri.domain_length as nat / fri.expansion_factor as nat, fri.full_rounds()),
{
    let d = fri.domain_length as nat;
    let e = fri.expansion_factor as nat;
    lemma_div_is_ordered_by_denominator(d as int, 1, e as int);
    lemma_div_by_one(d);
    lemma_log_2_ceil_exists(d / e, m);
}

/// Half the length of the codeword in round `k`, with room for both halves.
pub proof fn lemma_half_of_domain<PF: PrimeField>(fri: &Fri<PF>, k: nat)
    requires
        fri.sampling_defined(),
        k < fri.rounds(),
    ensures
        fri.colinearity_checks_count > 0 ==> fri.length_after(k + 1) > 0,
        2 * fri.length_after(k + 1) <= fri.domain_length,
{
    let d = fri.domain_length as nat;
    let r = fri.rounds();
    lemma_halving(fri, k);
    lemma_pow2_pos(k);
    lemma_pow2_pos(k + 1);
    lemma_pow2_pos(r);
    lemma_div_is_ordered_by_denominator(d as int, 1, pow2(k) as int);
    lemma_div_by_one(d);
    lemma_pow2_monotone(k + 1, r);
    lemma_div_is_ordered_by_denominator(d as int, pow2(k + 1) as int, pow2(r) as int);
}

/// The generator and the offset are squared from round to round.
pub proof fn lemma_next_domain<PF: PrimeField>(fri: &Fri<PF>, k: nat)
    requires
        fri.omega.canonical(),
        fri.offset.canonical(),
    ensures
        fri.generator_after(k + 1) == fri.generator_after(k).times(fri.generator_after(k)),
        fri.offset_after(k + 1) == fri.offset_after(k).times(fri.offset_after(k)),
        fri.generator_after(k).canonical(),
        fri.offset_after(k).canonical(),
{
    lemma_pow2_unfold(k + 1);
    lemma_power_doubles(fri.omega, pow2(k));
    lemma_power_doubles(fri.offset, pow2(k));
    lemma_power_canonical(fri.omega, pow2(k));
    lemma_power_canonical(fri.offset, pow2(k));
}

/// The length is halved from round to round.
pub proof fn lemma_halving<PF: PrimeField>(fri: &Fri<PF>, k: nat)
    ensures
        fri.length_after(k + 1) == fri.length_after(k) / 2,
{
    lemma_pow2_unfold(k + 1);
    lemma_pow2_pos(k);
    lemma_div_denominator(fri.domain_length as int, pow2(k) as int, 2);
}

/// The lengths of all codewords are powers of two.
pub proof fn lemma_length_after<PF: PrimeField>(fri: &Fri<PF>, m: nat, k: nat)
    requires
        fri.domain_length == pow2(m),
        k <= m,
    ensures
        fri.length_after(k) == pow2((m - k) as nat),
        1 <= fri.length_after(k) <= fri.domain_length,
{
    lemma_pow2_pos(k);
    lemma_pow2_adds(k, (m - k) as nat);
    lemma_div_multiples_vanish(pow2((m - k) as nat) as int, pow2(k) as int);
    lemma_pow2_monotone((m - k) as nat, m);
}

/// The codeword after `k` rounds.
pub proof fn lemma_codeword_length<PF: PrimeField>(
    fri: &Fri<PF>,
    word: Seq<PF::Elem>,
    transcript: Seq<u8>,
    k: nat,
)
    requires
        fri.proving_defined(),
        word.len() == fri.domain_length,
        k <= fri.rounds(),
    ensures
        committed(fri, word, transcript, k).word.len() == fri.length_after(k),
        is_power_of_two(fri.length_after(k)),
        2 * fri.length_after(k) <= usize::MAX,
        fri.length_after(k) >= 1,
    decreases k,
{
    let m = choose|m: nat| fri.domain_length as nat == #[trigger] pow2(m);
    lemma_rounds_fit(fri, m);
    lemma_length_after(fri, m, k);
    if k == 0 {
        lemma2_to64();
        lemma_div_by_one(fri.domain_length as nat);
    } else {
        lemma_codeword_length(fri, word, transcript, (k - 1) as nat);
        lemma_halving(fri, (k - 1) as nat);
    }
}

/// The domain that round `k` folds has enough invertible points.
pub proof fn lemma_folded_domain<PF: PrimeField>(fri: &Fri<PF>, k: nat)
    requires
        fri.proving_defined(),
        k < fri.rounds(),
    ensures
        fri.offset_after(k).canonical(),
        invertible(fri.offset_after(k)),
        fri.generator_after(k).canonical(),
        has_order(fri.generator_after(k)),
        order_at_least(fri.generator_after(k), fri.length_after(k) / 2),
{
    let w = fri.omega;
    let s = pow2(k);
    let g = fri.generator_after(k);
    let d = fri.domain_length as nat;
    let n = choose|n: nat| 0 < n <= usize::MAX && #[trigger] power(w, n) == <PF::Elem>::one();
    lemma_power_canonical(fri.offset, s);
    lemma_power_canonical(w, s);
    lemma_invertible_power(fri.offset, s);
    lemma_power_multiplies(w, s, n);
    lemma_power_multiplies(w, n, s);
    lemma_mul_is_commutative(s as int, n as int);
    lemma_power_of_one::<PF::Elem>(s);
    assert(power(g, n) == <PF::Elem>::one());
    lemma_pow2_pos(k);
    lemma_halving(fri, k);
    lemma_lengths(d, k + 1, k);
    lemma_pow2_unfold(k + 1);
    let half = fri.length_after(k) / 2;
    assert(half * (2 * s) <= d) by {
        lemma_lengths(d, k + 1, k + 1);
    }
    assert forall|e: nat| 0 < e < half implies #[trigger] power(g, e) != <PF::Elem>::one() by {
        lemma_power_multiplies(w, s, e);
        assert(0 < s * e && 2 * (s * e) < d - 1) by (nonlinear_arith)
            requires
                0 < e,
                e + 1 <= half,
                s >= 1,
                half * (2 * s) <= d,
        ;
        assert(power(w, s * e) != <PF::Elem>::one());
    }
}

/// Where `omega` generates the domain, proofs are defined.
pub proof fn lemma_valid_is_provable<PF: PrimeField>(fri: &Fri<PF>)
    requires
        fri.valid(),
    ensures
        fri.proving_defined(),
{
    let m = choose|m: nat|
        fri.domain_length == #[trigger] pow2(m) && primitive_root(fri.omega, m);
    lemma_primitive_root(fri.omega, m);
    lemma_pow2_pos(m);
    assert(is_power_of_two(fri.domain_length as nat));
    assert(power(fri.omega, fri.domain_length as nat) == <PF::Elem>::one());
    assert forall|k: nat| 0 < k < fri.domain_length as nat / 2 implies #[trigger] power(
        fri.omega,
        k,
    ) != <PF::Elem>::one() by {
        lemma_primitive_root_order(fri.omega, m, k);
    }
}

/// The codeword after `k` rounds, where `omega` generates the domain.
pub proof fn lemma_commitment<PF: PrimeField>(
    fri: &Fri<PF>,
    word: Seq<PF::Elem>,
    transcript: Seq<u8>,
    k: nat,
)
    requires
        fri.valid(),
        word.len() == fri.domain_length,
        k <= fri.rounds(),
    ensures
        committed(fri, word, transcript, k).word.len() == fri.length_after(k),
        is_power_of_two(fri.length_after(k)),
        fri.length_after(k) >= 1,
{
    lemma_valid_is_provable(fri);
    lemma_codeword_length(fri, word, transcript, k);
}

/// The sampled indices lie in the first half of the domain.
pub proof fn lemma_top_indices<PF: PrimeField>(fri: &Fri<PF>, seed: Seq<u8>)
    requires
        fri.sampling_defined(),
    ensures
        sampled_indices(fri, seed).len() == fri.colinearity_checks_count,
        fri.colinearity_checks_count > 0 ==> fri.last_length() > 0,
        fri.rounds() == 0 ==> forall|s: int|
            0 <= s < fri.colinearity_checks_count ==> (#[trigger] sampled_indices(fri, seed)[s])
                < fri.domain_length,
        fri.rounds() > 0 ==> forall|s: int|
            0 <= s < fri.colinearity_checks_count ==> (#[trigger] sampled_indices(fri, seed)[s])
                < fri.domain_length as nat / 2,
{
    let r = fri.rounds();
    let n = fri.last_length();
    let d = fri.domain_length as nat;
    let i = if r > 0 {
        (r - 1) as nat
    } else {
        0
    };
    lemma2_to64();
    lemma_lengths(d, r, i);
    lemma_lengths(d, r, r);
    lemma_lifted_draws(seed, n, fri.colinearity_checks_count as nat, i);
    if r > 0 {
        lemma_pow2_unfold(r);
        assert(n * pow2(r) == 2 * (n * pow2(i))) by (nonlinear_arith)
            requires
                pow2(r) == 2 * pow2(i),
        ;
    }
}

/// Reducing modulo one length and then modulo the next is reducing modulo the
/// next.
pub proof fn lemma_reduced_twice<PF: PrimeField>(fri: &Fri<PF>, indices: Seq<usize>, k: nat)
    requires
        fri.proving_defined(),
        k < fri.rounds(),
    ensures
        reduced(reduced(indices, fri.length_after(k)), fri.length_after(k + 1)) == reduced(
            indices,
            fri.length_after(k + 1),
        ),
{
    let i = choose|i: nat| fri.domain_length as nat == #[trigger] pow2(i);
    lemma_rounds_fit(fri, i);
    lemma_length_after(fri, i, k);
    lemma_length_after(fri, i, k + 1);
    lemma_pow2_unfold((i - k) as nat);
    let m = fri.length_after(k + 1);
    assert(fri.length_after(k) == 2 * m);
    assert forall|s: int| 0 <= s < indices.len() implies ((indices[s] as nat % (2 * m)) % m)
        == indices[s] as nat % m by {
        lemma_mod_mod(indices[s] as int, m as int, 2);
        assert(m * 2 == 2 * m);
    }
    assert(reduced(reduced(indices, 2 * m), m) =~= reduced(indices, m));
}

/// The trace is not empty.
pub proof fn lemma_trace_length<PF: PrimeField>(fri: &Fri<PF>)
    requires
        fri.rounds_defined(),
    ensures
        fri.domain_length as nat / fri.expansion_factor as nat >= 1,
{
    lemma_div_is_ordered(
        fri.expansion_factor as int,
        fri.domain_length as int,
        fri.expansion_factor as int,
    );
    lemma_div_by_self(fri.expansion_factor as int);
}

/// The codeword lengths grow at most up to the domain length.
pub proof fn lemma_lengths(domain: nat, rounds: nat, i: nat)
    requires
        i <= rounds,
    ensures
        (domain / pow2(rounds)) * pow2(i) <= domain,
{
    lemma_pow2_monotone(i, rounds);
    lemma_fundamental_div_mod(domain as int, pow2(rounds) as int);
    let q = domain / pow2(rounds);
    assert(q * pow2(i) <= domain) by (nonlinear_arith)
        requires
            domain >= pow2(rounds) * q,
            pow2(i) <= pow2(rounds),
            q >= 0,
    ;
}

/// How many draws there are, and what is left.
pub proof fn lemma_draws(seed: Seq<u8>, n: nat, k: nat)
    requires
        k <= n <= usize::MAX,
    ensures
        draws(seed, n, k).drawn.len() == k,
        draws(seed, n, k).left.len() == n - k,
        forall|i: int| 0 <= i < k ==> (#[trigger] draws(seed, n, k).drawn[i]) < n,
        forall|i: int| 0 <= i < n - k ==> (#[trigger] draws(seed, n, k).left[i]) < n,
    decreases k,
{
    if k > 0 {
        let before = draws(seed, n, (k - 1) as nat);
        lemma_draws(seed, n, (k - 1) as nat);
        let j = index_of(counter_digest(seed, (k - 1) as nat), before.left.len() as usize) as int;
        assert(0 <= j < before.left.len());
        assert forall|i: int| 0 <= i < k implies (#[trigger] draws(seed, n, k).drawn[i]) < n by {
            if i < k - 1 {
                assert(before.drawn[i] < n);
            } else {
                assert(before.left[j] < n);
            }
        }
        assert forall|i: int| 0 <= i < n - k implies (#[trigger] draws(seed, n, k).left[i]) < n by {
            if i < j {
                assert(before.left[i] < n);
            } else {
                assert(before.left[i + 1] < n);
            }
        }
    }
}

/// How many lifted draws there are, and how large they can be.
pub proof fn lemma_lifted_draws(seed: Seq<u8>, n: nat, checks: nat, i: nat)
    requires
        checks <= n,
        n * pow2(i) <= usize::MAX,
    ensures
        lifted_draws(seed, n, checks, i).len() == checks,
        forall|s: int|
            0 <= s < checks ==> (#[trigger] lifted_draws(seed, n, checks, i)[s]) < n * pow2(i),
    decreases i,
{
    lemma2_to64();
    if i == 0 {
        assert(n * pow2(0) == n) by (nonlinear_arith)
            requires
                pow2(0) == 1,
        ;
        lemma_draws(seed, n, checks);
    } else {
        let half = n * pow2((i - 1) as nat);
        lemma_pow2_unfold(i);
        assert(n * pow2(i) == 2 * half) by (nonlinear_arith)
            requires
                pow2(i) == 2 * pow2((i - 1) as nat),
                half == n * pow2((i - 1) as nat),
        ;
        lemma_lifted_draws(seed, n, checks, (i - 1) as nat);
        let before = lifted_draws(seed, n, checks, (i - 1) as nat);
        assert forall|s: int| 0 <= s < checks implies (#[trigger] lifted_draws(
            seed,
            n,
            checks,
            i,
        )[s]) < n * pow2(i) by {
            assert(before[s] < half);
        }
    }
}

} // verus!
