//! The inverse number-theoretic transform.

use vstd::prelude::*;

use crate::algebra::{from_nat, lemma_inv, lemma_inv_unique, sum};
use crate::field::{all_canonical, inv, invertible, power, FieldElement};

verus! {

/// The terms whose sum is coefficient `k` of the unscaled inverse transform.
pub open spec fn intt_terms<F: FieldElement>(
    values: Seq<F>,
    omega: F,
    k: nat,
) -> spec_fn(int) -> F {
    |j: int| values[j].times(power(power(inv(omega), k), j as nat))
}

/// The coefficients of the polynomial whose values at the powers of `omega`
/// are `values`.
pub open spec fn interpolated<F: FieldElement>(values: Seq<F>, omega: F) -> Seq<F> {
    Seq::new(
        values.len(),
        |k: int|
            inv(from_nat::<F>(values.len())).times(
                sum(intt_terms(values, omega, k as nat), values.len()),
            ),
    )
}

/// `n` as an element.
fn element_of<F: FieldElement>(n: usize) -> (r: F)
    ensures
        r == from_nat::<F>(n as nat),
        r.canonical(),
{
    let one: F = F::ring_one();
    let mut acc: F = F::ring_zero();
    let mut i: usize = 0;
    proof {
        F::lemma_constants_canonical();
    }
    while i < n
        invariant
            i <= n,
            one == F::one(),
            one.canonical(),
            acc.canonical(),
            acc == from_nat::<F>(i as nat),
        decreases n - i,
    {
        proof {
            F::lemma_closed(acc, one);
        }
        acc = acc.add(one);
        i = i + 1;
    }
    acc
}

/// The inverse transform, by its definition.
pub fn slow_intt<F: FieldElement>(values: &[F], omega: F) -> (coefficients: Vec<F>)
    requires
        all_canonical(values@),
        omega.canonical(),
        invertible(omega),
        invertible(from_nat::<F>(values@.len())),
    ensures
        coefficients@ == interpolated(values@, omega),
{
    let n: usize = values.len();
    let n_element: F = element_of(n);
    let n_inv: F = match n_element.inverse() {
        Some(b) => b,
        None => F::ring_one(),
    };
    let omega_inv: F = match omega.inverse() {
        Some(b) => b,
        None => F::ring_one(),
    };
    proof {
        lemma_inv(n_element);
        lemma_inv_unique(n_element, n_inv);
        lemma_inv(omega);
        lemma_inv_unique(omega, omega_inv);
        F::lemma_constants_canonical();
    }
    let mut coefficients: Vec<F> = Vec::new();
    let mut step: F = F::ring_one();
    let mut k: usize = 0;
    while k < n
        invariant
            k <= n,
            n == values@.len(),
            all_canonical(values@),
            n_inv.canonical(),
            n_inv == inv(from_nat::<F>(n as nat)),
            omega_inv.canonical(),
            omega_inv == inv(omega),
            step.canonical(),
            step == power(omega_inv, k as nat),
            coefficients@ == interpolated(values@, omega).take(k as int),
        decreases n - k,
    {
        let ghost terms: spec_fn(int) -> F = intt_terms(values@, omega, k as nat);
        let mut acc: F = F::ring_zero();
        let mut twiddle: F = F::ring_one();
        let mut j: usize = 0;
        proof {
            F::lemma_constants_canonical();
        }
        while j < n
            invariant
                j <= n,
                n == values@.len(),
                all_canonical(values@),
                step.canonical(),
                step == power(inv(omega), k as nat),
                terms == intt_terms(values@, omega, k as nat),
                acc.canonical(),
                acc == sum(terms, j as nat),
                twiddle.canonical(),
                twiddle == power(step, j as nat),
            decreases n - j,
        {
            proof {
                F::lemma_closed(values@[j as int], twiddle);
                F::lemma_closed(acc, values@[j as int].times(twiddle));
                F::lemma_closed(step, twiddle);
                F::lemma_times_commutes(step, twiddle);
            }
            acc = acc.add(values[j].mul(twiddle));
            twiddle = twiddle.mul(step);
            j = j + 1;
        }
        coefficients.push(n_inv.mul(acc));
        proof {
            F::lemma_closed(omega_inv, step);
            F::lemma_times_commutes(omega_inv, step);
        }
        step = step.mul(omega_inv);
        k = k + 1;
        proof {
            assert(coefficients@ =~= interpolated(values@, omega).take(k as int));
        }
    }
    assert(coefficients@ =~= interpolated(values@, omega));
    coefficients
}

} // verus!
