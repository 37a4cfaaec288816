//! What holds of the parameters and the sampled indices.

use vstd::arithmetic::div_mod::*;
use vstd::arithmetic::power2::*;
use vstd::prelude::*;

use crate::bytes::le_bytes;
use crate::field::PrimeField;
use crate::fri::Fri;
use crate::fri_lemmas::{
    lemma_draws, lemma_lengths, lemma_lifted_draws, lemma_top_indices, lemma_trace_length,
};
use crate::fri_model::{
    ceil_div, counter_bytes, counter_digest, draws, lifted_draws, sampled_indices,
};
use crate::merkle_tree::is_power_of_two;
use crate::other::{
    is_log_2_ceil, lemma_log_2_ceil_exists, lemma_log_2_ceil_unique, lemma_pow2_monotone,
};
use crate::utils::{blake3_hash, index_of, law_digest_is_the_hash};

verus! {

/// No index is drawn twice, and none that was drawn is left.
proof fn lemma_draws_differ(seed: Seq<u8>, n: nat, k: nat)
    requires
        k <= n <= usize::MAX,
    ensures
        ({
            let d = draws(seed, n, k);
            &&& d.drawn.no_duplicates()
            &&& d.left.no_duplicates()
            &&& forall|s: int, t: int|
                0 <= s < k && 0 <= t < n - k ==> #[trigger] d.drawn[s] != #[trigger] d.left[t]
        }),
    decreases k,
{
    lemma_draws(seed, n, k);
    if k > 0 {
        let i = (k - 1) as nat;
        let before = draws(seed, n, i);
        let now = draws(seed, n, k);
        lemma_draws(seed, n, i);
        lemma_draws_differ(seed, n, i);
        let j = index_of(counter_digest(seed, i), before.left.len() as usize) as int;
        assert(0 <= j < before.left.len());
        assert forall|s: int, t: int| 0 <= s < t < k implies now.drawn[s] != now.drawn[t] by {
            if t == k - 1 {
                assert(before.drawn[s] != before.left[j]);
            }
        }
        assert forall|t: int| 0 <= t < j && t < n - k implies #[trigger] now.left[t]
            == before.left[t] by {}
        assert forall|t: int| j <= t < n - k implies #[trigger] now.left[t]
            == before.left[t + 1] by {}
        assert forall|s: int, t: int| 0 <= s < k && 0 <= t < n - k implies #[trigger] now.drawn[s]
            != #[trigger] now.left[t] by {
            if s < k - 1 {
                assert(now.drawn[s] == before.drawn[s]);
            }
        }
    }
}

/// Lifting an index does not change what it folds to.
proof fn lemma_lifting_folds_back(seed: Seq<u8>, n: nat, checks: nat, i: nat, s: int)
    requires
        checks <= n,
        n > 0,
        n * pow2(i) <= usize::MAX,
        0 <= s < checks,
    ensures
        lifted_draws(seed, n, checks, i)[s] as nat % n == draws(seed, n, checks).drawn[s] as nat,
    decreases i,
{
    lemma2_to64();
    lemma_lifted_draws(seed, n, checks, i);
    if i == 0 {
        assert(n * pow2(0) == n) by (nonlinear_arith)
            requires
                pow2(0) == 1,
        ;
        lemma_draws(seed, n, checks);
        lemma_small_mod(draws(seed, n, checks).drawn[s] as nat, n);
    } else {
        let j = (i - 1) as nat;
        lemma_pow2_unfold(i);
        let half = n * pow2(j);
        assert(n * pow2(i) == 2 * half) by (nonlinear_arith)
            requires
                pow2(i) == 2 * pow2(j),
                half == n * pow2(j),
        ;
        lemma_lifting_folds_back(seed, n, checks, j, s);
        lemma_lifted_draws(seed, n, checks, j);
        let before = lifted_draws(seed, n, checks, j)[s] as int;
        assert(before < half);
        lemma_mod_multiples_vanish(pow2(j) as int, before, n as int);
        assert(n * pow2(j) + before == before + half);
    }
}

/// As many indices are sampled as there are checks. They lie in the first half of
/// the domain, and no two of them fold to the same place of the last codeword.
pub proof fn law_samples_differ_in_last_codeword<PF: PrimeField>(fri: &Fri<PF>, seed: Seq<u8>)
    requires
        fri.sampling_defined(),
    ensures
        sampled_indices(fri, seed).len() == fri.colinearity_checks_count,
        fri.rounds() > 0 ==> forall|s: int|
            0 <= s < fri.colinearity_checks_count ==> (#[trigger] sampled_indices(fri, seed)[s])
                < fri.domain_length as nat / 2,
        forall|s: int, t: int|
            0 <= s < t < fri.colinearity_checks_count ==> (#[trigger] sampled_indices(
                fri,
                seed,
            )[s]) as nat % fri.last_length() != (#[trigger] sampled_indices(fri, seed)[t]) as nat
                % fri.last_length(),
{
    let n = fri.last_length();
    let r = fri.rounds();
    let checks = fri.colinearity_checks_count as nat;
    let i = if r > 0 {
        (r - 1) as nat
    } else {
        0
    };
    lemma_top_indices(fri, seed);
    lemma_lengths(fri.domain_length as nat, r, i);
    lemma_lengths(fri.domain_length as nat, r, 0);
    lemma2_to64();
    assert(n * pow2(0) == n) by (nonlinear_arith)
        requires
            pow2(0) == 1,
    ;
    lemma_draws(seed, n, checks);
    lemma_draws_differ(seed, n, checks);
    assert forall|s: int, t: int| 0 <= s < t < checks implies (#[trigger] sampled_indices(
        fri,
        seed,
    )[s]) as nat % n != (#[trigger] sampled_indices(fri, seed)[t]) as nat % n by {
        lemma_lifting_folds_back(seed, n, checks, i, s);
        lemma_lifting_folds_back(seed, n, checks, i, t);
        assert(draws(seed, n, checks).drawn[s] != draws(seed, n, checks).drawn[t]);
    }
}

/// Where the domain length and the expansion factor are powers of two, the rounds
/// end while the codeword still has a place for every check.
pub proof fn law_last_codeword_has_enough_places<PF: PrimeField>(fri: &Fri<PF>, m: nat, e: nat)
    requires
        fri.rounds_defined(),
        fri.domain_length == pow2(m),
        fri.expansion_factor == pow2(e),
    ensures
        fri.colinearity_checks_count <= fri.last_length(),
        fri.last_length() == fri.expansion_factor * pow2(fri.missed_rounds()),
{
    let d = fri.domain_length as nat;
    let f = fri.expansion_factor as nat;
    let missed = fri.missed_rounds();
    let r = fri.rounds();
    if m < e {
        lemma_pow2_strictly_increases(m, e);
    }
    // the trace length is 2^(m - e)
    let full = (m - e) as nat;
    lemma_pow2_pos(e);
    lemma_pow2_pos(r);
    lemma_pow2_pos(missed);
    lemma_pow2_adds(e, full);
    lemma_div_multiples_vanish(pow2(full) as int, f as int);
    assert(d / f == pow2(full));
    if full > 0 {
        lemma_pow2_strictly_increases((full - 1) as nat, full);
    }
    lemma_log_2_ceil_unique(d / f, full);
    assert(full == r + missed);
    // the last codeword has 2^(e + missed) places
    lemma_pow2_adds(r, e + missed);
    lemma_pow2_adds(e, missed);
    assert(r + (e + missed) == m);
    lemma_div_multiples_vanish(pow2(e + missed) as int, pow2(r) as int);
    // and that is enough
    if fri.expansion_factor < fri.colinearity_checks_count {
        let c = fri.colinearity_checks_count as nat;
        let q = ceil_div(c, f);
        lemma_fundamental_div_mod(c + f - 1, f as int);
        lemma_mod_bound(c + f - 1, f as int);
        lemma_enough_exists(q);
        assert(c <= f * pow2(missed)) by (nonlinear_arith)
            requires
                c + f - 1 - (f - 1) <= f * q,
                q <= pow2(missed),
                f >= 0,
        ;
    } else {
        lemma2_to64();
        assert(f * pow2(0) == f) by (nonlinear_arith)
            requires
                pow2(0) == 1,
        ;
    }
}

/// Every number has a rounded logarithm.
pub proof fn lemma_enough_exists(x: nat)
    ensures
        is_log_2_ceil(x, crate::other::log_2_ceil_spec(x)),
{
    lemma_below_power(x);
    lemma_log_2_ceil_exists(x, x);
}

proof fn lemma_below_power(x: nat)
    ensures
        x <= pow2(x),
    decreases x,
{
    lemma2_to64();
    if x > 0 {
        lemma_below_power((x - 1) as nat);
        lemma_pow2_unfold(x);
        lemma_pow2_pos((x - 1) as nat);
    }
}

// ---- the number of rounds ----

/// The number of rounds and the degree bound of the last codeword, by the domain
/// length, the expansion factor and the number of checks alone.
///
/// One more than the degree bound is the least power of two by which the expansion
/// factor has to be multiplied to reach the number of checks. Multiplied by two for
/// every round, it is the least power of two that reaches the trace length: the trace
/// length itself, where that is a power of two.
pub proof fn law_round_count<PF: PrimeField>(fri: &Fri<PF>)
    requires
        fri.rounds_defined(),
    ensures
        fri.last_degree() >= 0,
        is_power_of_two((fri.last_degree() + 1) as nat),
        fri.expansion_factor * (fri.last_degree() + 1) >= fri.colinearity_checks_count,
        fri.last_degree() > 0 ==> fri.expansion_factor * (fri.last_degree() + 1) < 2
            * fri.colinearity_checks_count,
        fri.domain_length as int / fri.expansion_factor as int <= pow2(fri.rounds()) * (
        fri.last_degree() + 1) < 2 * (fri.domain_length as int / fri.expansion_factor as int),
        forall|j: nat|
            fri.domain_length as nat / fri.expansion_factor as nat == #[trigger] pow2(j)
                ==> pow2(fri.rounds()) * (fri.last_degree() + 1) == pow2(j),
{
    let d = fri.domain_length as nat;
    let f = fri.expansion_factor as nat;
    let c = fri.colinearity_checks_count as nat;
    let t = d / f;
    let missed = fri.missed_rounds();
    let full = fri.full_rounds();
    let e = pow2(missed);
    lemma2_to64();
    lemma_pow2_pos(missed);
    lemma_trace_length(fri);
    lemma_enough_exists(t);
    assert(is_power_of_two(e));
    if f < c {
        let q = ceil_div(c, f);
        lemma_fundamental_div_mod(c + f - 1, f as int);
        lemma_mod_bound(c + f - 1, f as int);
        lemma_enough_exists(q);
        assert(f * e >= c) by (nonlinear_arith)
            requires
                c + f - 1 - (f - 1) <= f * q,
                q <= e,
                f >= 0,
        ;
        if missed > 0 {
            let h = pow2((missed - 1) as nat);
            lemma_pow2_unfold(missed);
            assert(2 * (f * h) == f * e && f * h < c) by (nonlinear_arith)
                requires
                    f * q <= c + f - 1,
                    h + 1 <= q,
                    e == 2 * h,
                    f > 0,
            ;
        }
    } else {
        assert(f * e == f) by (nonlinear_arith)
            requires
                e == 1,
        ;
    }
    lemma_pow2_adds(fri.rounds(), missed);
    if full > 0 {
        lemma_pow2_unfold(full);
    }
    assert forall|j: nat| t == #[trigger] pow2(j) implies pow2(full) == pow2(j) by {
        if j > 0 {
            lemma_pow2_strictly_increases((j - 1) as nat, j);
        }
        lemma_log_2_ceil_unique(t, j);
    }
}

// ---- how indices are drawn ----

/// The digest of a counter is the hash of the whole seed, followed by the four bytes
/// of the counter, highest first.
pub proof fn law_counter_follows_the_seed(seed: Seq<u8>, k: nat)
    requires
        k < 0x1_0000_0000,
    ensures
        counter_digest(seed, k).len() == 32,
        forall|i: int|
            0 <= i < 32 ==> #[trigger] counter_digest(seed, k)[i] == blake3_hash(
                seed + seq![
                    (k / 0x100_0000) as u8,
                    (k / 0x1_0000 % 0x100) as u8,
                    (k / 0x100 % 0x100) as u8,
                    (k % 0x100) as u8,
                ],
            )[i],
{
    reveal_with_fuel(le_bytes, 5);
    assert(k / 256 / 256 == k / 0x1_0000);
    assert(k / 256 / 256 / 256 == k / 0x100_0000);
    assert(counter_bytes(k) =~= seq![
        (k / 0x100_0000) as u8,
        (k / 0x1_0000 % 0x100) as u8,
        (k / 0x100 % 0x100) as u8,
        (k % 0x100) as u8,
    ]);
    law_digest_is_the_hash(seed + counter_bytes(k));
}

/// What is left after some draws stands in increasing order, and is what was not drawn.
proof fn lemma_left_is_sorted(seed: Seq<u8>, n: nat, k: nat)
    requires
        k <= n <= usize::MAX,
    ensures
        ({
            let d = draws(seed, n, k);
            &&& forall|i: int, j: int|
                0 <= i < j < d.left.len() ==> #[trigger] d.left[i] < #[trigger] d.left[j]
            &&& forall|v: usize|
                v < n ==> (#[trigger] d.left.contains(v) <==> !d.drawn.contains(v))
        }),
    decreases k,
{
    lemma_draws(seed, n, k);
    let now = draws(seed, n, k);
    if k == 0 {
        assert forall|v: usize| v < n implies (#[trigger] now.left.contains(v)
            <==> !now.drawn.contains(v)) by {
            assert(now.left[v as int] == v);
        }
    } else {
        let i = (k - 1) as nat;
        let before = draws(seed, n, i);
        lemma_draws(seed, n, i);
        lemma_left_is_sorted(seed, n, i);
        let j = index_of(counter_digest(seed, i), before.left.len() as usize) as int;
        assert(0 <= j < before.left.len());
        assert forall|v: usize| v < n implies (#[trigger] now.left.contains(v)
            <==> !now.drawn.contains(v)) by {
            assert(now.drawn[k - 1] == before.left[j]);
            if before.drawn.contains(v) {
                let t = before.drawn.index_of(v);
                assert(now.drawn[t] == v);
            }
            if now.drawn.contains(v) && v != before.left[j] {
                let t = now.drawn.index_of(v);
                assert(before.drawn[t] == v);
            }
            if now.left.contains(v) {
                let t = now.left.index_of(v);
                if t < j {
                    assert(before.left[t] == v);
                } else {
                    assert(before.left[t + 1] == v);
                }
            }
            if before.left.contains(v) && v != before.left[j] {
                let t = before.left.index_of(v);
                if t < j {
                    assert(now.left[t] == v);
                } else {
                    assert(now.left[t - 1] == v);
                }
            }
        }
    }
}

/// Which place of the last codeword a sample falls on: of those that no earlier
/// sample fell on, in increasing order (they are returned), the one that the hash of
/// the seed and the sample's number selects.
pub proof fn law_samples_are_drawn_in_order<PF: PrimeField>(
    fri: &Fri<PF>,
    seed: Seq<u8>,
    s: int,
) -> (left: Seq<usize>)
    requires
        fri.sampling_defined(),
        0 <= s < fri.colinearity_checks_count,
    ensures
        ({
            let n = fri.domain_length as nat / pow2(fri.rounds());
            let indices = sampled_indices(fri, seed);
            let digest = Seq::new(
                32,
                |i: int|
                    blake3_hash(
                        seed + seq![
                            (s / 0x100_0000) as u8,
                            (s / 0x1_0000 % 0x100) as u8,
                            (s / 0x100 % 0x100) as u8,
                            (s % 0x100) as u8,
                        ],
                    )[i],
            );
            &&& n > 0
            &&& indices.len() == fri.colinearity_checks_count
            &&& indices[s] < if fri.rounds() > 0 {
                n * pow2((fri.rounds() - 1) as nat)
            } else {
                n
            }
            &&& left.len() == n - s
            &&& forall|i: int, j: int|
                0 <= i < j < left.len() ==> #[trigger] left[i] < #[trigger] left[j]
            &&& forall|v: usize| #[trigger]
                left.contains(v) <==> v < n && forall|t: int|
                    0 <= t < s ==> #[trigger] indices[t] as nat % n != v
            &&& indices[s] as nat % n == left[index_of(digest, left.len() as usize) as int]
        }),
{
    let n = fri.last_length();
    let r = fri.rounds();
    let checks = fri.colinearity_checks_count as nat;
    let i = if r > 0 {
        (r - 1) as nat
    } else {
        0
    };
    let indices = sampled_indices(fri, seed);
    let k = s as nat;
    let d = draws(seed, n, k);
    let left = d.left;
    lemma_top_indices(fri, seed);
    lemma_lengths(fri.domain_length as nat, r, i);
    lemma_lengths(fri.domain_length as nat, r, 0);
    lemma2_to64();
    assert(n * pow2(0) == n) by (nonlinear_arith)
        requires
            pow2(0) == 1,
    ;
    lemma_lifted_draws(seed, n, checks, i);
    assert(indices[s] < n * pow2(i));
    lemma_draws(seed, n, k);
    lemma_draws(seed, n, k + 1);
    lemma_left_is_sorted(seed, n, k);
    assert forall|t: int| 0 <= t <= s implies #[trigger] indices[t] as nat % n == draws(
        seed,
        n,
        k + 1,
    ).drawn[t] by {
        lemma_lifting_folds_back(seed, n, checks, i, t);
        lemma_draws_stay(seed, n, k + 1, checks);
    }
    assert forall|v: usize| #[trigger]
        left.contains(v) <==> v < n && forall|t: int|
            0 <= t < s ==> #[trigger] indices[t] as nat % n != v by {
        if left.contains(v) {
            let t = left.index_of(v);
            assert(left[t] < n);
            assert(!d.drawn.contains(v));
            assert forall|t: int| 0 <= t < s implies #[trigger] indices[t] as nat % n != v by {
                assert(d.drawn[t] == draws(seed, n, k + 1).drawn[t]);
            }
        } else if v < n {
            let t = d.drawn.index_of(v);
            assert(d.drawn[t] == v);
            assert(draws(seed, n, k + 1).drawn[t] == v);
            assert(indices[t] as nat % n == v);
        }
    }
    law_counter_follows_the_seed(seed, k);
    let digest = Seq::new(
        32,
        |i: int|
            blake3_hash(
                seed + seq![
                    (s / 0x100_0000) as u8,
                    (s / 0x1_0000 % 0x100) as u8,
                    (s / 0x100 % 0x100) as u8,
                    (s % 0x100) as u8,
                ],
            )[i],
    );
    assert(digest =~= counter_digest(seed, k));
    assert(draws(seed, n, k + 1).drawn[s] == left[index_of(digest, left.len() as usize) as int]);
    left
}

/// Later draws leave earlier ones in place.
proof fn lemma_draws_stay(seed: Seq<u8>, n: nat, j: nat, k: nat)
    requires
        j <= k <= n <= usize::MAX,
    ensures
        forall|t: int|
            0 <= t < j ==> #[trigger] draws(seed, n, j).drawn[t] == draws(seed, n, k).drawn[t],
    decreases k,
{
    lemma_draws(seed, n, j);
    lemma_draws(seed, n, k);
    if j < k {
        lemma_draws_stay(seed, n, j, (k - 1) as nat);
        lemma_draws(seed, n, (k - 1) as nat);
    }
}

/// What an index was lifted from.
proof fn lemma_lifted_from(seed: Seq<u8>, n: nat, checks: nat, i: nat, j: nat, s: int)
    requires
        checks <= n,
        n > 0,
        i <= j,
        n * pow2(j) <= usize::MAX,
        0 <= s < checks,
    ensures
        lifted_draws(seed, n, checks, j)[s] as nat % (n * pow2(i)) == lifted_draws(
            seed,
            n,
            checks,
            i,
        )[s] as nat,
        n * pow2(i) <= n * pow2(j),
        n * pow2(i) > 0,
    decreases j,
{
    lemma_pow2_monotone(i, j);
    assert(n * pow2(i) <= n * pow2(j) && n * pow2(i) > 0) by (nonlinear_arith)
        requires
            0 < pow2(i) <= pow2(j),
            n > 0,
    ;
    lemma_lifted_draws(seed, n, checks, j);
    lemma_lifted_draws(seed, n, checks, i);
    if i == j {
        lemma_small_mod(lifted_draws(seed, n, checks, i)[s] as nat, n * pow2(i));
    } else {
        let k = (j - 1) as nat;
        lemma_pow2_unfold(j);
        let half = n * pow2(k);
        let m = n * pow2(i);
        assert(n * pow2(j) == 2 * half) by (nonlinear_arith)
            requires
                pow2(j) == 2 * pow2(k),
                half == n * pow2(k),
        ;
        lemma_lifted_from(seed, n, checks, i, k, s);
        lemma_lifted_draws(seed, n, checks, k);
        // half is a multiple of n * 2^i
        lemma_pow2_adds(i, (k - i) as nat);
        let c = pow2((k - i) as nat);
        assert(half == m * c) by (nonlinear_arith)
            requires
                half == n * pow2(k),
                m == n * pow2(i),
                pow2(k) == pow2(i) * c,
        ;
        let before = lifted_draws(seed, n, checks, k)[s] as int;
        assert(before < half);
        lemma_mod_multiples_vanish(c as int, before, m as int);
    }
}

/// How a sample is carried from the last codeword to the first folding: in each round
/// the place either stays or moves by half the length, and which of the two is decided
/// by the hash of the seed and a counter that no other decision uses.
pub proof fn law_samples_are_lifted<PF: PrimeField>(
    fri: &Fri<PF>,
    seed: Seq<u8>,
    s: int,
    i: nat,
)
    requires
        fri.sampling_defined(),
        0 <= s < fri.colinearity_checks_count,
        0 < i < fri.rounds(),
    ensures
        ({
            let n = fri.domain_length as nat / pow2(fri.rounds());
            let half = (n * pow2((i - 1) as nat)) as int;
            let index = sampled_indices(fri, seed)[s] as int;
            let counter = fri.colinearity_checks_count * i + s;
            let digest = Seq::new(
                32,
                |j: int|
                    blake3_hash(
                        seed + seq![
                            (counter / 0x100_0000) as u8,
                            (counter / 0x1_0000 % 0x100) as u8,
                            (counter / 0x100 % 0x100) as u8,
                            (counter % 0x100) as u8,
                        ],
                    )[j],
            );
            &&& half > 0
            &&& 0 <= counter < 0x1_0000_0000
            &&& index % (2 * half) == index % half + if index_of(digest, 2) == 0 {
                half
            } else {
                0
            }
            &&& index < n * pow2((fri.rounds() - 1) as nat)
        }),
{
    let n = fri.last_length();
    let r = fri.rounds();
    let checks = fri.colinearity_checks_count as nat;
    let top = (r - 1) as nat;
    let j = (i - 1) as nat;
    let half = (n * pow2(j)) as int;
    lemma_top_indices(fri, seed);
    lemma_lengths(fri.domain_length as nat, r, top);
    lemma_lifted_from(seed, n, checks, i, top, s);
    lemma_lifted_from(seed, n, checks, j, top, s);
    lemma_lifted_draws(seed, n, checks, top);
    lemma_lifted_draws(seed, n, checks, i);
    lemma_lifted_draws(seed, n, checks, j);
    lemma_pow2_unfold(i);
    assert(n * pow2(i) == 2 * half) by (nonlinear_arith)
        requires
            pow2(i) == 2 * pow2(j),
            half == n * pow2(j),
    ;
    let counter = checks * i + s;
    assert(0 <= counter < checks * r) by (nonlinear_arith)
        requires
            counter == checks * i + s,
            0 <= s < checks,
            i + 1 <= r,
    ;
    law_counter_follows_the_seed(seed, counter as nat);
    let digest = Seq::new(
        32,
        |j: int|
            blake3_hash(
                seed + seq![
                    (counter / 0x100_0000) as u8,
                    (counter / 0x1_0000 % 0x100) as u8,
                    (counter / 0x100 % 0x100) as u8,
                    (counter % 0x100) as u8,
                ],
            )[j],
    );
    assert(digest =~= counter_digest(seed, counter as nat));
    assert(lifted_draws(seed, n, checks, j)[s] < half);
}

} // verus!
