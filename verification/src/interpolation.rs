//! The inverse transform recovers a polynomial from its values.

use vstd::arithmetic::power2::*;
use vstd::prelude::*;

use crate::algebra::{
    from_nat, geometric, lemma_from_nat_pow2_invertible, lemma_geometric_sum, lemma_inv,
    lemma_one_times, lemma_power_adds, lemma_power_canonical, lemma_power_multiplies,
    lemma_power_of_one, lemma_power_of_product, lemma_primitive_root, lemma_sum_canonical,
    lemma_sum_of_zeros, lemma_sum_plus, lemma_sum_scaled, lemma_times_zero, lemma_zero_plus,
    primitive_root, sum,
};
use crate::field::{all_canonical, inv, invertible, power, FieldElement};
use crate::ntt::{interpolated, intt_terms};
use crate::polynomial::evaluated;

verus! {

/// The values of a polynomial at the first `n` powers of `omega`.
pub open spec fn transformed<F: FieldElement>(coefficients: Seq<F>, omega: F, n: nat) -> Seq<F> {
    Seq::new(n, |i: int| evaluated(coefficients, power(omega, i as nat)))
}

/// One added up `n` times.
proof fn lemma_sum_of_ones<F: FieldElement>(n: nat)
    ensures
        sum(geometric(F::one()), n) == from_nat::<F>(n),
    decreases n,
{
    if n > 0 {
        lemma_sum_of_ones::<F>((n - 1) as nat);
        lemma_power_of_one::<F>((n - 1) as nat);
    }
}

/// `w^t * w^-k` is a power of `w`: a nontrivial one unless `t` is `k`.
proof fn lemma_quotient_of_powers<F: FieldElement>(w: F, m: nat, t: nat, k: nat)
    requires
        primitive_root(w, m),
        t < pow2(m),
        k < pow2(m),
    ensures
        t == k ==> power(w, t).times(power(inv(w), k)) == F::one(),
        t != k ==> exists|e: nat|
            0 < e < pow2(m) && power(w, t).times(power(inv(w), k)) == #[trigger] power(w, e),
{
    let n = pow2(m);
    let u = power(inv(w), k);
    F::lemma_constants_canonical();
    lemma_primitive_root(w, m);
    lemma_inv(w);
    lemma_power_of_product(w, inv(w), k);
    lemma_power_of_one::<F>(k);
    assert(power(w, k).times(u) == F::one());
    if t != k {
        let e: nat = if t > k {
            (t - k) as nat
        } else {
            (n + t - k) as nat
        };
        lemma_power_adds(w, e, k);
        if t > k {
            assert(e + k == t);
        } else {
            assert(e + k == n + t);
            lemma_power_adds(w, n, t);
            lemma_power_canonical(w, t);
            lemma_one_times(power(w, t));
        }
        assert(power(w, t) == power(w, e).times(power(w, k)));
        F::lemma_times_associates(power(w, e), power(w, k), u);
        lemma_power_canonical(w, e);
        lemma_one_times(power(w, e));
        assert(power(w, t).times(u) == power(w, e));
    }
}

/// The sum over all values of the polynomial with the first `t` coefficients, each
/// times a power of `w^-k`, singles out coefficient `k`.
proof fn lemma_singled_out<F: FieldElement>(c: Seq<F>, w: F, m: nat, k: nat, t: nat)
    requires
        primitive_root(w, m),
        c.len() == pow2(m),
        all_canonical(c),
        k < c.len(),
        t <= c.len(),
    ensures
        sum(intt_terms(transformed(c.take(t as int), w, c.len()), w, k), c.len()) == if k < t {
            c[k as int].times(from_nat::<F>(c.len()))
        } else {
            F::zero()
        },
    decreases t,
{
    let n = c.len();
    let now = intt_terms(transformed(c.take(t as int), w, n), w, k);
    F::lemma_constants_canonical();
    if t == 0 {
        assert forall|j: int| 0 <= j < n implies #[trigger] now(j) == F::zero() by {
            lemma_times_zero(power(power(inv(w), k), j as nat));
        }
        lemma_sum_of_zeros(now, n);
    } else {
        let s = (t - 1) as nat;
        let u = power(inv(w), k);
        let z = power(w, s).times(u);
        let before = intt_terms(transformed(c.take(s as int), w, n), w, k);
        let added = |j: int| c[s as int].times(power(z, j as nat));
        lemma_singled_out(c, w, m, k, s);
        assert(c.take(t as int).drop_last() =~= c.take(s as int));
        assert forall|j: int| 0 <= j < n implies #[trigger] now(j) == before(j).plus(added(j)) by {
            let x = power(w, j as nat);
            let v = power(u, j as nat);
            let old_value = evaluated(c.take(s as int), x);
            let term = c[s as int].times(power(x, s));
            crate::algebra::lemma_distributes_right(old_value, term, v);
            F::lemma_times_associates(c[s as int], power(x, s), v);
            lemma_power_multiplies(w, j as nat, s);
            lemma_power_multiplies(w, s, j as nat);
            assert(j as nat * s == s * j as nat) by (nonlinear_arith);
            lemma_power_of_product(power(w, s), u, j as nat);
        }
        lemma_sum_plus(before, added, now, n);
        lemma_sum_scaled(c[s as int], geometric(z), added, n);
        lemma_quotient_of_powers(w, m, s, k);
        if s == k {
            lemma_sum_of_ones::<F>(n);
            F::lemma_closed(c[s as int], from_nat::<F>(n));
            lemma_zero_plus(c[s as int].times(from_nat::<F>(n)));
        } else {
            let e = choose|e: nat| 0 < e < pow2(m) && z == #[trigger] power(w, e);
            lemma_geometric_sum(w, m, e);
            lemma_times_zero(c[s as int]);
            lemma_sum_canonical(before, n);
            lemma_zero_plus(sum(before, n));
        }
    }
}

/// The inverse transform recovers the coefficients of a polynomial from its values
/// at the powers of a primitive root.
pub proof fn law_interpolation_recovers_coefficients<F: FieldElement>(
    coefficients: Seq<F>,
    omega: F,
    m: nat,
)
    requires
        primitive_root(omega, m),
        coefficients.len() == pow2(m),
        all_canonical(coefficients),
    ensures
        interpolated(transformed(coefficients, omega, coefficients.len()), omega) == coefficients,
{
    let c = coefficients;
    let n = c.len();
    let values = transformed(c, omega, n);
    let n_element = from_nat::<F>(n);
    assert(c.take(n as int) =~= c);
    lemma_from_nat_pow2_invertible::<F>(m);
    lemma_inv(n_element);
    assert forall|k: int| 0 <= k < n implies #[trigger] interpolated(values, omega)[k] == c[k] by {
        lemma_singled_out(c, omega, m, k as nat, n);
        F::lemma_times_commutes(c[k], n_element);
        F::lemma_times_associates(inv(n_element), n_element, c[k]);
        F::lemma_times_commutes(inv(n_element), n_element);
        lemma_one_times(c[k]);
    }
    assert(interpolated(values, omega) =~= c);
}

/// The terms of a coefficient add up to the value at a power of the inverse.
proof fn lemma_terms_evaluate<F: FieldElement>(values: Seq<F>, omega: F, k: nat, n: nat)
    requires
        n <= values.len(),
    ensures
        sum(intt_terms(values, omega, k), n) == evaluated(
            values.take(n as int),
            power(inv(omega), k),
        ),
    decreases n,
{
    if n > 0 {
        let j = (n - 1) as nat;
        lemma_terms_evaluate(values, omega, k, j);
        assert(values.take(n as int).drop_last() =~= values.take(j as int));
    }
}

/// Each coefficient, multiplied by the number of values, is the value of the polynomial
/// whose coefficients are the values, at a power of the inverse of `omega`. There are
/// as many coefficients as values.
pub proof fn law_coefficients_are_evaluations<F: FieldElement>(values: Seq<F>, omega: F, k: int)
    requires
        invertible(from_nat::<F>(values.len())),
        0 <= k < values.len(),
    ensures
        interpolated(values, omega).len() == values.len(),
        from_nat::<F>(values.len()).times(interpolated(values, omega)[k]) == evaluated(
            values,
            power(inv(omega), k as nat),
        ),
{
    let n = values.len();
    let n_element = from_nat::<F>(n);
    let total = sum(intt_terms(values, omega, k as nat), n);
    lemma_terms_evaluate(values, omega, k as nat, n);
    assert(values.take(n as int) =~= values);
    lemma_inv(n_element);
    lemma_sum_canonical(intt_terms(values, omega, k as nat), n);
    F::lemma_times_associates(n_element, inv(n_element), total);
    lemma_one_times(total);
}

} // verus!
