//! Codewords of polynomials: how folding acts on their coefficients, and what
//! follows for the proximity test.

use vstd::arithmetic::power2::*;
use vstd::prelude::*;

use crate::algebra::{
    lemma_cancel_factor, lemma_distributes_right, lemma_inv_unique, lemma_invertible_power,
    lemma_invertible_product, lemma_minus_is_plus_neg, lemma_minus_times, lemma_neg, lemma_neg_neg,
    lemma_one_times, lemma_plus_interchange, lemma_power_doubles, lemma_power_of_product,
    lemma_power_one, lemma_times_interchange, lemma_times_minus, lemma_times_neg, lemma_times_zero,
    lemma_zero_plus, neg, primitive_root,
};
use crate::field::{all_canonical, invertible, power, FieldElement, PrimeField};
use crate::fri::{Fri, FriError, ValidationError};
use crate::fri_lemmas::{
    lemma_commitment, lemma_domain, lemma_halving, lemma_next_domain, lemma_rounds_fit,
};
use crate::fri_laws::{
    law_honest_proof_is_answered, lemma_counterpart, lemma_domain_point, lemma_folded_value,
    opened_values,
};
use crate::fri_model::{
    commit_transcript, committed, domain_point, folded_value, opened_indices, proof_transcript,
    verdict, Verdict,
};
use crate::interpolation::{law_interpolation_recovers_coefficients, transformed};
use crate::ntt::interpolated;
use crate::other::lemma_pow2_monotone;
use crate::polynomial::{degree_of, evaluated, lemma_degree};
use crate::utils::digest_of;

verus! {

/// The values of a polynomial on a coset.
pub open spec fn codeword_of<F: FieldElement>(
    coefficients: Seq<F>,
    offset: F,
    generator: F,
    n: nat,
) -> Seq<F> {
    Seq::new(n, |i: int| evaluated(coefficients, domain_point(offset, generator, i as nat)))
}

/// The coefficients of even exponents.
spec fn even_part<F: FieldElement>(c: Seq<F>) -> Seq<F> {
    Seq::new(c.len() / 2, |i: int| c[2 * i])
}

/// The coefficients of odd exponents.
spec fn odd_part<F: FieldElement>(c: Seq<F>) -> Seq<F> {
    Seq::new(c.len() / 2, |i: int| c[2 * i + 1])
}

/// The polynomial that folding leaves: its even part plus `alpha` times its odd
/// part.
pub open spec fn folded_coefficients<F: FieldElement>(c: Seq<F>, alpha: F) -> Seq<F> {
    Seq::new(c.len() / 2, |i: int| c[2 * i].plus(alpha.times(c[2 * i + 1])))
}

// ---- values of a folded polynomial ----

/// A polynomial without its last two coefficients.
proof fn lemma_without_last_two<F: FieldElement>(c: Seq<F>)
    requires
        c.len() >= 2,
        c.len() % 2 == 0,
    ensures
        c.drop_last().drop_last().len() == c.len() - 2,
        even_part(c).drop_last() == even_part(c.drop_last().drop_last()),
        odd_part(c).drop_last() == odd_part(c.drop_last().drop_last()),
        even_part(c).last() == c[c.len() - 2],
        odd_part(c).last() == c[c.len() - 1],
        forall|alpha: F| #[trigger]
            folded_coefficients(c, alpha).drop_last() == folded_coefficients(
                c.drop_last().drop_last(),
                alpha,
            ),
{
    let s = c.drop_last().drop_last();
    assert(even_part(c).drop_last() =~= even_part(s));
    assert(odd_part(c).drop_last() =~= odd_part(s));
    assert forall|alpha: F| #[trigger]
        folded_coefficients(c, alpha).drop_last() == folded_coefficients(s, alpha) by {
        assert(folded_coefficients(c, alpha).drop_last() =~= folded_coefficients(s, alpha));
    }
}

/// `c(x) == even(x^2) + x * odd(x^2)`.
proof fn lemma_even_and_odd<F: FieldElement>(c: Seq<F>, x: F)
    requires
        c.len() % 2 == 0,
        x.canonical(),
    ensures
        evaluated(c, x) == evaluated(even_part(c), x.times(x)).plus(
            x.times(evaluated(odd_part(c), x.times(x))),
        ),
    decreases c.len(),
{
    let y = x.times(x);
    F::lemma_constants_canonical();
    if c.len() == 0 {
        lemma_times_zero(x);
        lemma_zero_plus(F::zero());
    } else {
        let n = c.len();
        let s = c.drop_last().drop_last();
        let h = (n / 2 - 1) as nat;
        let (p, q) = (c[n - 2], c[n - 1]);
        lemma_without_last_two(c);
        lemma_even_and_odd(s, x);
        lemma_power_doubles(x, h);
        let v = power(y, h);
        assert(v == power(x, (n - 2) as nat));
        assert(power(x, (n - 1) as nat) == x.times(v));
        let (even, odd) = (evaluated(even_part(s), y), evaluated(odd_part(s), y));
        let (low, high) = (p.times(v), q.times(x.times(v)));
        // x * (odd + q * v) == x * odd + high
        F::lemma_times_distributes(x, odd, q.times(v));
        F::lemma_times_associates(x, q, v);
        F::lemma_times_commutes(x, q);
        F::lemma_times_associates(q, x, v);
        assert(c.drop_last().last() == p);
        assert(evaluated(c.drop_last(), x) == evaluated(s, x).plus(low));
        assert(evaluated(c, x) == evaluated(s, x).plus(low).plus(high));
        F::lemma_plus_associates(evaluated(s, x), low, high);
        lemma_plus_interchange(even, x.times(odd), low, high);
    }
}

/// The folded polynomial at `y` is `even(y) + alpha * odd(y)`.
proof fn lemma_folded_at<F: FieldElement>(c: Seq<F>, alpha: F, y: F)
    requires
        c.len() % 2 == 0,
    ensures
        evaluated(folded_coefficients(c, alpha), y) == evaluated(even_part(c), y).plus(
            alpha.times(evaluated(odd_part(c), y)),
        ),
    decreases c.len(),
{
    F::lemma_constants_canonical();
    if c.len() == 0 {
        lemma_times_zero(alpha);
        lemma_zero_plus(F::zero());
    } else {
        let n = c.len();
        let s = c.drop_last().drop_last();
        let (p, q) = (c[n - 2], c[n - 1]);
        let v = power(y, (n / 2 - 1) as nat);
        lemma_without_last_two(c);
        lemma_folded_at(s, alpha, y);
        let (even, odd) = (evaluated(even_part(s), y), evaluated(odd_part(s), y));
        assert(folded_coefficients(c, alpha).drop_last() == folded_coefficients(s, alpha));
        assert(folded_coefficients(c, alpha).last() == p.plus(alpha.times(q)));
        lemma_distributes_right(p, alpha.times(q), v);
        F::lemma_times_associates(alpha, q, v);
        F::lemma_times_distributes(alpha, odd, q.times(v));
        lemma_plus_interchange(even, alpha.times(odd), p.times(v), alpha.times(q.times(v)));
    }
}

/// Folding `p + x * q` and `p - x * q` gives `p + alpha * q`.
proof fn lemma_folded_pair<F: FieldElement>(p: F, q: F, x: F, alpha: F)
    requires
        p.canonical(),
        x.canonical(),
        alpha.canonical(),
        invertible(x),
    ensures
        folded_value(p.plus(x.times(q)), p.minus(x.times(q)), x, alpha) == p.plus(alpha.times(q)),
{
    let s = x.times(q);
    let (a, b) = (p.plus(s), p.minus(s));
    let two_x = x.plus(x);
    let result = folded_value(a, b, x, alpha);
    F::lemma_constants_canonical();
    F::lemma_closed(x, q);
    F::lemma_closed(p, s);
    F::lemma_closed(p, alpha.times(q));
    lemma_folded_value(a, b, x, alpha);
    // (x + alpha) * a + (x - alpha) * b == (x * a + x * b) + (alpha * a - alpha * b)
    let (xa, xb, ca, cb) = (x.times(a), x.times(b), alpha.times(a), alpha.times(b));
    F::lemma_closed(x, b);
    F::lemma_closed(alpha, a);
    lemma_distributes_right(x, alpha, a);
    lemma_minus_times(x, alpha, b);
    lemma_minus_is_plus_neg(xb, cb);
    lemma_minus_is_plus_neg(ca, cb);
    lemma_plus_interchange(xa, ca, xb, neg(cb));
    // a + b == p + p
    F::lemma_minus_undoes_plus(p, s);
    F::lemma_plus_commutes(b, s);
    F::lemma_plus_associates(p, s, b);
    F::lemma_times_distributes(x, a, b);
    F::lemma_times_distributes(x, p, p);
    lemma_distributes_right(x, x, p);
    assert(xa.plus(xb) == two_x.times(p));
    // a - b == s + s
    F::lemma_closed(s, s);
    F::lemma_plus_associates(s, s, b);
    F::lemma_plus_commutes(s, p);
    F::lemma_minus_undoes_plus(s.plus(s), b);
    lemma_times_minus(alpha, a, b);
    F::lemma_times_distributes(alpha, s, s);
    F::lemma_times_associates(alpha, x, q);
    F::lemma_times_commutes(alpha, x);
    F::lemma_times_associates(x, alpha, q);
    lemma_distributes_right(x, x, alpha.times(q));
    assert(ca.minus(cb) == two_x.times(alpha.times(q)));
    // the factor cancels
    F::lemma_times_distributes(two_x, p, alpha.times(q));
    let two = F::one().plus(F::one());
    let half = F::lemma_half();
    lemma_inv_unique(two, half);
    lemma_one_times(x);
    F::lemma_times_distributes(x, F::one(), F::one());
    lemma_invertible_product(x, two);
    lemma_cancel_factor(two_x, result, p.plus(alpha.times(q)));
}

/// The value of a polynomial is canonical.
proof fn lemma_evaluated_canonical<F: FieldElement>(c: Seq<F>, x: F)
    ensures
        evaluated(c, x).canonical(),
{
    F::lemma_constants_canonical();
    if c.len() > 0 {
        let n = (c.len() - 1) as nat;
        F::lemma_closed(evaluated(c.drop_last(), x), c.last().times(power(x, n)));
    }
}

/// Folding the values of a polynomial at `x` and `-x` gives the value of the
/// folded polynomial at `x^2`.
pub proof fn law_folding_folds_the_polynomial<F: FieldElement>(c: Seq<F>, x: F, alpha: F)
    requires
        c.len() % 2 == 0,
        x.canonical(),
        alpha.canonical(),
        invertible(x),
    ensures
        folded_value(evaluated(c, x), evaluated(c, neg(x)), x, alpha) == evaluated(
            folded_coefficients(c, alpha),
            x.times(x),
        ),
{
    let y = x.times(x);
    let p = evaluated(even_part(c), y);
    let q = evaluated(odd_part(c), y);
    lemma_even_and_odd(c, x);
    lemma_neg(x);
    lemma_even_and_odd(c, neg(x));
    // (-x)^2 == x^2
    lemma_times_neg(neg(x), x);
    lemma_times_neg(x, x);
    F::lemma_closed(x, x);
    lemma_neg_neg(y);
    assert(neg(x).times(neg(x)) == y);
    lemma_times_neg(q, x);
    lemma_evaluated_canonical(even_part(c), y);
    lemma_minus_is_plus_neg(p, x.times(q));
    assert(neg(x).times(q) == neg(x.times(q)));
    lemma_folded_pair(p, q, x, alpha);
    lemma_folded_at(c, alpha, y);
}

// ---- codewords of polynomials ----

/// What folding leaves of the polynomial after `k` rounds of a proof.
pub open spec fn folded_polynomial<PF: PrimeField>(
    fri: &Fri<PF>,
    coefficients: Seq<PF::Elem>,
    word: Seq<PF::Elem>,
    transcript: Seq<u8>,
    k: nat,
) -> Seq<PF::Elem>
    decreases k,
{
    if k == 0 {
        coefficients
    } else {
        let j = (k - 1) as nat;
        folded_coefficients(
            folded_polynomial(fri, coefficients, word, transcript, j),
            <PF::Elem>::sampled(digest_of(committed(fri, word, transcript, j).transcript)),
        )
    }
}

/// The square of a point is a point of the next domain.
proof fn lemma_squared_point<PF: PrimeField>(fri: &Fri<PF>, k: nat, i: nat)
    requires
        fri.omega.canonical(),
        fri.offset.canonical(),
    ensures
        ({
            let x = domain_point(fri.offset_after(k), fri.generator_after(k), i);
            x.times(x) == domain_point(fri.offset_after(k + 1), fri.generator_after(k + 1), i)
        }),
{
    let g = fri.generator_after(k);
    let o = fri.offset_after(k);
    lemma_next_domain(fri, k);
    lemma_power_of_product(g, g, i);
    lemma_times_interchange(power(g, i), o, power(g, i), o);
}

/// Every codeword of a proof holds the values of the folded polynomial.
pub proof fn lemma_folded_codeword<PF: PrimeField>(
    fri: &Fri<PF>,
    coefficients: Seq<PF::Elem>,
    word: Seq<PF::Elem>,
    transcript: Seq<u8>,
    k: nat,
)
    requires
        fri.valid(),
        coefficients.len() == fri.domain_length,
        all_canonical(coefficients),
        word == codeword_of(
            coefficients,
            fri.offset,
            fri.omega,
            fri.domain_length as nat,
        ),
        k <= fri.rounds(),
    ensures
        committed(fri, word, transcript, k).word == codeword_of(
            folded_polynomial(fri, coefficients, word, transcript, k),
            fri.offset_after(k),
            fri.generator_after(k),
            fri.length_after(k),
        ),
        folded_polynomial(fri, coefficients, word, transcript, k).len() == fri.length_after(k),
        all_canonical(folded_polynomial(fri, coefficients, word, transcript, k)),
    decreases k,
{
    if k == 0 {
        lemma2_to64();
        lemma_power_one(fri.omega);
        lemma_power_one(fri.offset);
        lemma_commitment(fri, word, transcript, 0);
    } else {
        let j = (k - 1) as nat;
        lemma_folded_codeword(fri, coefficients, word, transcript, j);
        let before = committed(fri, word, transcript, j);
        let c = folded_polynomial(fri, coefficients, word, transcript, j);
        let alpha = <PF::Elem>::sampled(digest_of(before.transcript));
        let d = folded_coefficients(c, alpha);
        let half = fri.length_after(k);
        lemma_halving(fri, j);
        lemma_even_length(fri, j);
        <PF::Elem>::lemma_sampled_canonical(digest_of(before.transcript));
        let goal = codeword_of(d, fri.offset_after(k), fri.generator_after(k), half);
        let next = committed(fri, word, transcript, k).word;
        assert(next.len() == half);
        assert forall|i: int| 0 <= i < half implies #[trigger] next[i] == goal[i] by {
            let x = domain_point(fri.offset_after(j), fri.generator_after(j), i as nat);
            lemma_domain_point(fri, j, i as nat);
            lemma_counterpart(fri, j, i as nat);
            lemma_squared_point(fri, j, i as nat);
            law_folding_folds_the_polynomial(c, x, alpha);
            assert(before.word[i] == evaluated(c, x));
            assert(before.word[half + i] == evaluated(c, neg(x)));
        }
        assert(next =~= goal);
        assert forall|i: int| 0 <= i < d.len() implies (#[trigger] d[i]).canonical() by {
            <PF::Elem>::lemma_closed(c[2 * i], alpha.times(c[2 * i + 1]));
        }
    }
}

/// Codewords that are folded have even length.
proof fn lemma_even_length<PF: PrimeField>(fri: &Fri<PF>, k: nat)
    requires
        fri.valid(),
        k < fri.rounds(),
    ensures
        fri.length_after(k) % 2 == 0,
        fri.length_after(k) == 2 * fri.length_after(k + 1),
{
    lemma_domain(fri, k);
    lemma_halving(fri, k);
    let m = choose|m: nat|
        fri.length_after(k) == #[trigger] pow2(m) && primitive_root(fri.generator_after(k), m)
            && fri.rounds() <= m + k;
    lemma_pow2_unfold(m);
}

// ---- the degree of the last codeword ----

/// The polynomial in `y` that `coefficients` are in `y * offset`.
spec fn scaled<F: FieldElement>(c: Seq<F>, offset: F) -> Seq<F> {
    Seq::new(c.len(), |k: int| c[k].times(power(offset, k as nat)))
}

proof fn lemma_scaled_value<F: FieldElement>(c: Seq<F>, offset: F, y: F)
    ensures
        evaluated(scaled(c, offset), y) == evaluated(c, y.times(offset)),
    decreases c.len(),
{
    if c.len() > 0 {
        let n = (c.len() - 1) as nat;
        lemma_scaled_value(c.drop_last(), offset, y);
        assert(scaled(c, offset).drop_last() =~= scaled(c.drop_last(), offset));
        lemma_power_of_product(y, offset, n);
        F::lemma_times_commutes(power(y, n), power(offset, n));
        F::lemma_times_associates(c.last(), power(offset, n), power(y, n));
    }
}

proof fn lemma_scaled_degree<F: FieldElement>(c: Seq<F>, offset: F)
    requires
        all_canonical(c),
        offset.canonical(),
        invertible(offset),
    ensures
        degree_of(scaled(c, offset)) == degree_of(c),
    decreases c.len(),
{
    if c.len() > 0 {
        let n = (c.len() - 1) as nat;
        let factor = power(offset, n);
        assert(scaled(c, offset).drop_last() =~= scaled(c.drop_last(), offset));
        lemma_scaled_degree(c.drop_last(), offset);
        lemma_invertible_power(offset, n);
        F::lemma_constants_canonical();
        lemma_times_zero(factor);
        F::lemma_times_commutes(c.last(), factor);
        if c.last().times(factor) == F::zero() {
            lemma_cancel_factor(factor, c.last(), F::zero());
        }
    }
}

/// The last codeword of a proof has the degree of the folded polynomial.
pub proof fn lemma_last_degree<PF: PrimeField>(
    fri: &Fri<PF>,
    coefficients: Seq<PF::Elem>,
    word: Seq<PF::Elem>,
    transcript: Seq<u8>,
)
    requires
        fri.valid(),
        coefficients.len() == fri.domain_length,
        all_canonical(coefficients),
        word == codeword_of(
            coefficients,
            fri.offset,
            fri.omega,
            fri.domain_length as nat,
        ),
    ensures
        ({
            let r = fri.rounds();
            let last = committed(fri, word, transcript, r);
            degree_of(interpolated(last.word, fri.generator_after(r))) == degree_of(
                folded_polynomial(fri, coefficients, word, transcript, r),
            )
        }),
{
    let r = fri.rounds();
    let g = fri.generator_after(r);
    let o = fri.offset_after(r);
    let n = fri.length_after(r);
    let last = committed(fri, word, transcript, r).word;
    let c = folded_polynomial(fri, coefficients, word, transcript, r);
    lemma_domain(fri, r);
    let m = choose|m: nat| n == #[trigger] pow2(m) && primitive_root(g, m) && fri.rounds() <= m + r;
    lemma_folded_codeword(fri, coefficients, word, transcript, r);
    let d = scaled(c, o);
    assert forall|i: int| 0 <= i < n implies #[trigger] last[i] == transformed(d, g, n)[i] by {
        lemma_scaled_value(c, o, power(g, i as nat));
    }
    assert(last =~= transformed(d, g, n));
    assert forall|k: int| 0 <= k < d.len() implies (#[trigger] d[k]).canonical() by {
        <PF::Elem>::lemma_closed(c[k], power(o, k as nat));
    }
    law_interpolation_recovers_coefficients(d, g, m);
    lemma_scaled_degree(c, o);
}

// ---- padding ----

/// The coefficients, followed by zeros up to `n` coefficients.
spec fn padded<F: FieldElement>(c: Seq<F>, n: nat) -> Seq<F> {
    Seq::new(
        n,
        |k: int|
            if k < c.len() {
                c[k]
            } else {
                F::zero()
            },
    )
}

/// Padding changes neither the values nor the degree.
proof fn lemma_padded<F: FieldElement>(c: Seq<F>, n: nat)
    requires
        c.len() <= n,
        all_canonical(c),
    ensures
        all_canonical(padded(c, n)),
        degree_of(padded(c, n)) == degree_of(c),
        forall|x: F| #[trigger] evaluated(padded(c, n), x) == evaluated(c, x),
    decreases n,
{
    F::lemma_constants_canonical();
    if n == c.len() {
        assert(padded(c, n) =~= c);
    } else {
        let k = (n - 1) as nat;
        lemma_padded(c, k);
        assert(padded(c, n).drop_last() =~= padded(c, k));
        assert forall|x: F| #[trigger] evaluated(padded(c, n), x) == evaluated(c, x) by {
            lemma_times_zero(power(x, k));
            lemma_evaluated_canonical(c, x);
            lemma_zero_plus(evaluated(c, x));
            assert(evaluated(padded(c, k), x) == evaluated(c, x));
        }
    }
}

// ---- degrees under folding ----

/// Folding halves a degree bound.
proof fn lemma_folding_halves_bound<F: FieldElement>(c: Seq<F>, alpha: F, bound: nat)
    requires
        c.len() % 2 == 0,
        degree_of(c) < 2 * bound,
    ensures
        degree_of(folded_coefficients(c, alpha)) < bound,
{
    let d = folded_coefficients(c, alpha);
    lemma_degree(c, 2 * bound - 1);
    F::lemma_constants_canonical();
    assert forall|i: int| bound - 1 < i < d.len() implies #[trigger] d[i] == F::zero() by {
        assert(c[2 * i] == F::zero());
        assert(c[2 * i + 1] == F::zero());
        lemma_times_zero(alpha);
        lemma_zero_plus(F::zero());
    }
    lemma_degree(d, bound - 1);
}

/// Folding halves an even degree.
proof fn lemma_folding_halves_degree<F: FieldElement>(c: Seq<F>, alpha: F, q: nat)
    requires
        c.len() % 2 == 0,
        all_canonical(c),
        degree_of(c) == 2 * q,
    ensures
        degree_of(folded_coefficients(c, alpha)) == q,
{
    let d = folded_coefficients(c, alpha);
    lemma_degree(c, 2int * q);
    lemma_degree(c, 2 * q - 1);
    lemma_folding_halves_bound(c, alpha, q + 1);
    F::lemma_constants_canonical();
    lemma_times_zero(alpha);
    assert(c[2int * q] != F::zero());
    assert(c[2int * q + 1] == F::zero());
    lemma_zero_plus(c[2int * q]);
    assert(d[q as int] == c[2int * q]);
    lemma_degree(d, q - 1);
}

/// A degree below `2^n` falls below `2^(n - k)` in `k` rounds.
proof fn lemma_bound_after<PF: PrimeField>(
    fri: &Fri<PF>,
    coefficients: Seq<PF::Elem>,
    word: Seq<PF::Elem>,
    transcript: Seq<u8>,
    n: nat,
    k: nat,
)
    requires
        fri.valid(),
        coefficients.len() == fri.domain_length,
        degree_of(coefficients) < pow2(n),
        k <= n,
        k <= fri.rounds(),
    ensures
        folded_polynomial(fri, coefficients, word, transcript, k).len() == fri.length_after(k),
        degree_of(folded_polynomial(fri, coefficients, word, transcript, k)) < pow2(
            (n - k) as nat,
        ),
    decreases k,
{
    if k == 0 {
        lemma_commitment(fri, coefficients, transcript, 0);
    } else {
        let j = (k - 1) as nat;
        lemma_bound_after(fri, coefficients, word, transcript, n, j);
        lemma_even_length(fri, j);
        lemma_pow2_unfold((n - j) as nat);
        lemma_folding_halves_bound(
            folded_polynomial(fri, coefficients, word, transcript, j),
            <PF::Elem>::sampled(digest_of(committed(fri, word, transcript, j).transcript)),
            pow2((n - k) as nat),
        );
    }
}

/// A degree of `2^k * q` becomes `q` in `k` rounds.
proof fn lemma_degree_after<PF: PrimeField>(
    fri: &Fri<PF>,
    coefficients: Seq<PF::Elem>,
    word: Seq<PF::Elem>,
    transcript: Seq<u8>,
    k: nat,
    q: nat,
)
    requires
        fri.valid(),
        coefficients.len() == fri.domain_length,
        all_canonical(coefficients),
        word == codeword_of(
            coefficients,
            fri.offset,
            fri.omega,
            fri.domain_length as nat,
        ),
        degree_of(coefficients) == pow2(k) * q,
        k <= fri.rounds(),
    ensures
        degree_of(folded_polynomial(fri, coefficients, word, transcript, k)) == q,
    decreases k,
{
    if k == 0 {
        lemma2_to64();
        assert(pow2(0) * q == q) by (nonlinear_arith)
            requires
                pow2(0) == 1,
        ;
    } else {
        let j = (k - 1) as nat;
        lemma_pow2_unfold(k);
        assert(pow2(j) * (2 * q) == pow2(k) * q) by (nonlinear_arith)
            requires
                pow2(k) == 2 * pow2(j),
        ;
        lemma_degree_after(fri, coefficients, word, transcript, j, 2 * q);
        lemma_folded_codeword(fri, coefficients, word, transcript, j);
        lemma_even_length(fri, j);
        lemma_folding_halves_degree(
            folded_polynomial(fri, coefficients, word, transcript, j),
            <PF::Elem>::sampled(digest_of(committed(fri, word, transcript, j).transcript)),
            q,
        );
    }
}

/// The codeword of a polynomial is that of the padded polynomial.
proof fn lemma_padded_codeword<PF: PrimeField>(fri: &Fri<PF>, coefficients: Seq<PF::Elem>)
    requires
        coefficients.len() <= fri.domain_length,
        all_canonical(coefficients),
    ensures
        codeword_of(coefficients, fri.offset, fri.omega, fri.domain_length as nat) == codeword_of(
            padded(coefficients, fri.domain_length as nat),
            fri.offset,
            fri.omega,
            fri.domain_length as nat,
        ),
        all_canonical(
            codeword_of(coefficients, fri.offset, fri.omega, fri.domain_length as nat),
        ),
{
    let n = fri.domain_length as nat;
    let word = codeword_of(coefficients, fri.offset, fri.omega, n);
    let c = padded(coefficients, n);
    lemma_padded(coefficients, n);
    assert forall|i: int| 0 <= i < n implies #[trigger] word[i] == codeword_of(
        c,
        fri.offset,
        fri.omega,
        n,
    )[i] && word[i].canonical() by {
        let x = domain_point(fri.offset, fri.omega, i as nat);
        assert(evaluated(c, x) == evaluated(coefficients, x));
        lemma_evaluated_canonical(coefficients, x);
    }
    assert(word =~= codeword_of(c, fri.offset, fri.omega, n));
}

// ---- the laws ----

/// A codeword that holds the values of a polynomial of low degree, one with no more
/// coefficients than the domain length divided by the expansion factor, is accepted
/// on every transcript, and the values that its proof reveals are its own.
pub proof fn law_low_degree_is_accepted<PF: PrimeField>(
    fri: &Fri<PF>,
    coefficients: Seq<PF::Elem>,
    transcript: Seq<u8>,
    rest: Seq<u8>,
)
    requires
        fri.has_small_domain(),
        coefficients.len() <= fri.domain_length as nat / fri.expansion_factor as nat,
        all_canonical(coefficients),
    ensures
        ({
            let word = codeword_of(
                coefficients,
                fri.offset,
                fri.omega,
                fri.domain_length as nat,
            );
            verdict(fri, proof_transcript(fri, word, transcript) + rest, transcript.len() as int)
                == (Verdict {
                result: Ok(opened_values(fri, word, opened_indices(fri, word, transcript))),
                position: proof_transcript(fri, word, transcript).len() as int,
            })
        }),
{
    let n = fri.domain_length as nat;
    let word = codeword_of(coefficients, fri.offset, fri.omega, n);
    let c = padded(coefficients, n);
    let r = fri.rounds();
    let m = choose|m: nat| fri.domain_length == #[trigger] pow2(m) && primitive_root(fri.omega, m);
    lemma_rounds_fit(fri, m);
    lemma_pow2_pos(fri.full_rounds());
    vstd::arithmetic::div_mod::lemma_div_is_ordered_by_denominator(
        n as int,
        1,
        fri.expansion_factor as int,
    );
    lemma_padded_codeword(fri, coefficients);
    lemma_padded(coefficients, n);
    lemma_degree(coefficients, 0);
    lemma_bound_after(fri, c, word, transcript, fri.full_rounds(), r);
    assert((fri.full_rounds() - r) as nat == fri.missed_rounds());
    lemma_last_degree(fri, c, word, transcript);
    law_honest_proof_is_answered(fri, word, transcript, rest);
}

/// A codeword that holds the values of a polynomial whose degree is a multiple of
/// `2^rounds`, beyond what the last codeword may have, is rejected on every
/// transcript: no challenge lowers its degree enough.
pub proof fn law_high_degree_is_rejected<PF: PrimeField>(
    fri: &Fri<PF>,
    coefficients: Seq<PF::Elem>,
    transcript: Seq<u8>,
    rest: Seq<u8>,
    q: nat,
)
    requires
        fri.has_small_domain(),
        coefficients.len() <= fri.domain_length,
        all_canonical(coefficients),
        degree_of(coefficients) == pow2(fri.rounds()) * q,
        q > fri.last_degree(),
    ensures
        ({
            let word = codeword_of(
                coefficients,
                fri.offset,
                fri.omega,
                fri.domain_length as nat,
            );
            verdict(fri, proof_transcript(fri, word, transcript) + rest, transcript.len() as int)
                == (Verdict::<PF::Elem> {
                result: Err(FriError::Validation(ValidationError::LastIterationTooHighDegree)),
                position: commit_transcript(fri, word, transcript).len() as int,
            })
        }),
{
    let n = fri.domain_length as nat;
    let word = codeword_of(coefficients, fri.offset, fri.omega, n);
    let c = padded(coefficients, n);
    lemma_padded_codeword(fri, coefficients);
    lemma_padded(coefficients, n);
    lemma_degree_after(fri, c, word, transcript, fri.rounds(), q);
    lemma_last_degree(fri, c, word, transcript);
    law_honest_proof_is_answered(fri, word, transcript, rest);
}

/// A codeword that holds the values of a polynomial whose degree is a power of two, no
/// less than the domain length divided by the expansion factor, is rejected on every
/// transcript. Of powers of two, that quotient itself is the first such degree: the
/// degrees below it are accepted.
pub proof fn law_degree_at_the_bound_is_rejected<PF: PrimeField>(
    fri: &Fri<PF>,
    coefficients: Seq<PF::Elem>,
    transcript: Seq<u8>,
    rest: Seq<u8>,
    j: nat,
)
    requires
        fri.has_small_domain(),
        coefficients.len() <= fri.domain_length,
        all_canonical(coefficients),
        coefficients.len() == pow2(j) + 1,
        coefficients[pow2(j) as int] != <PF::Elem>::zero(),
        pow2(j) >= fri.domain_length as nat / fri.expansion_factor as nat,
    ensures
        ({
            let word = codeword_of(
                coefficients,
                fri.offset,
                fri.omega,
                fri.domain_length as nat,
            );
            verdict(fri, proof_transcript(fri, word, transcript) + rest, transcript.len() as int)
                .result == Err::<Seq<(usize, PF::Elem)>, _>(
                FriError::Validation(ValidationError::LastIterationTooHighDegree),
            )
        }),
{
    let m = choose|m: nat| fri.domain_length == #[trigger] pow2(m) && primitive_root(fri.omega, m);
    let full = fri.full_rounds();
    lemma_rounds_fit(fri, m);
    if j < full {
        lemma_pow2_monotone(j, (full - 1) as nat);
    }
    let q = pow2((j - fri.rounds()) as nat);
    lemma_pow2_adds(fri.rounds(), (j - fri.rounds()) as nat);
    lemma_pow2_monotone(fri.missed_rounds(), (j - fri.rounds()) as nat);
    law_high_degree_is_rejected(fri, coefficients, transcript, rest, q);
}

} // verus!
