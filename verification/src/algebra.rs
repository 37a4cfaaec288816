//! Consequences of the field laws: cancellation, negation, powers, inverses
//! and finite sums.

use vstd::arithmetic::power2::{lemma_pow2_pos, lemma_pow2_unfold, pow2};
use vstd::prelude::*;

use crate::field::{inv, invertible, power, FieldElement};

verus! {

/// The additive inverse.
pub open spec fn neg<F: FieldElement>(a: F) -> F {
    F::zero().minus(a)
}

/// `f(0) + f(1) + .. + f(n - 1)`.
pub open spec fn sum<F: FieldElement>(f: spec_fn(int) -> F, n: nat) -> F
    decreases n,
{
    if n == 0 {
        F::zero()
    } else {
        sum(f, (n - 1) as nat).plus(f(n - 1))
    }
}

/// `n` as an element: one added up `n` times.
pub open spec fn from_nat<F: FieldElement>(n: nat) -> F
    decreases n,
{
    if n == 0 {
        F::zero()
    } else {
        from_nat::<F>((n - 1) as nat).plus(F::one())
    }
}

pub proof fn lemma_pow2_zero()
    ensures
        pow2(0) == 1,
{
    vstd::arithmetic::power2::lemma2_to64();
}

pub proof fn lemma_cancel<F: FieldElement>(a: F, b: F, c: F)
    requires
        a.canonical(),
        b.canonical(),
        a.plus(c) == b.plus(c),
    ensures
        a == b,
{
    F::lemma_minus_undoes_plus(a, c);
    F::lemma_minus_undoes_plus(b, c);
}

pub proof fn lemma_zero_plus<F: FieldElement>(a: F)
    requires
        a.canonical(),
    ensures
        F::zero().plus(a) == a,
        a.plus(F::zero()) == a,
{
    F::lemma_plus_zero(a);
    F::lemma_plus_commutes(a, F::zero());
}

pub proof fn lemma_one_times<F: FieldElement>(a: F)
    requires
        a.canonical(),
    ensures
        F::one().times(a) == a,
        a.times(F::one()) == a,
{
    F::lemma_times_one(a);
    F::lemma_times_commutes(a, F::one());
}

pub proof fn lemma_times_zero<F: FieldElement>(a: F)
    ensures
        a.times(F::zero()) == F::zero(),
        F::zero().times(a) == F::zero(),
{
    let z = F::zero();
    F::lemma_constants_canonical();
    F::lemma_closed(a, z);
    F::lemma_times_distributes(a, z, z);
    lemma_zero_plus(z);
    lemma_zero_plus(a.times(z));
    lemma_cancel(a.times(z), z, a.times(z));
    F::lemma_times_commutes(a, z);
}

pub proof fn lemma_distributes_right<F: FieldElement>(a: F, b: F, c: F)
    ensures
        a.plus(b).times(c) == a.times(c).plus(b.times(c)),
{
    F::lemma_times_distributes(c, a, b);
    F::lemma_times_commutes(c, a);
    F::lemma_times_commutes(c, b);
    F::lemma_times_commutes(c, a.plus(b));
}

pub proof fn lemma_times_minus<F: FieldElement>(a: F, b: F, c: F)
    requires
        b.canonical(),
    ensures
        a.times(b.minus(c)) == a.times(b).minus(a.times(c)),
{
    F::lemma_minus_undoes_plus(b, c);
    F::lemma_times_distributes(a, b.minus(c), c);
    F::lemma_closed(a, b.minus(c));
    F::lemma_minus_undoes_plus(a.times(b.minus(c)), a.times(c));
}

pub proof fn lemma_minus_times<F: FieldElement>(a: F, b: F, c: F)
    requires
        a.canonical(),
    ensures
        a.minus(b).times(c) == a.times(c).minus(b.times(c)),
{
    lemma_times_minus(c, a, b);
    F::lemma_times_commutes(c, a);
    F::lemma_times_commutes(c, b);
    F::lemma_times_commutes(c, a.minus(b));
}

pub proof fn lemma_neg<F: FieldElement>(a: F)
    ensures
        neg(a).canonical(),
        neg(a).plus(a) == F::zero(),
        a.plus(neg(a)) == F::zero(),
{
    F::lemma_constants_canonical();
    F::lemma_closed(F::zero(), a);
    F::lemma_minus_undoes_plus(F::zero(), a);
    F::lemma_plus_commutes(a, neg(a));
}

pub proof fn lemma_minus_is_plus_neg<F: FieldElement>(a: F, b: F)
    requires
        a.canonical(),
    ensures
        a.minus(b) == a.plus(neg(b)),
{
    lemma_neg(b);
    F::lemma_plus_associates(a, neg(b), b);
    lemma_zero_plus(a);
    F::lemma_closed(a, b);
    F::lemma_closed(a, neg(b));
    F::lemma_minus_undoes_plus(a, b);
    lemma_cancel(a.minus(b), a.plus(neg(b)), b);
}

/// An element whose sum with `b` is zero is the negation of `b`.
pub proof fn lemma_neg_unique<F: FieldElement>(a: F, b: F)
    requires
        a.canonical(),
        a.plus(b) == F::zero(),
    ensures
        a == neg(b),
{
    lemma_neg(b);
    lemma_cancel(a, neg(b), b);
}

pub proof fn lemma_times_neg<F: FieldElement>(a: F, b: F)
    ensures
        a.times(neg(b)) == neg(a.times(b)),
        neg(b).times(a) == neg(a.times(b)),
        neg(b).times(a) == neg(b.times(a)),
{
    lemma_neg(b);
    F::lemma_times_distributes(a, neg(b), b);
    lemma_times_zero(a);
    F::lemma_closed(a, neg(b));
    lemma_neg_unique(a.times(neg(b)), a.times(b));
    F::lemma_times_commutes(a, neg(b));
    F::lemma_times_commutes(a, b);
}

pub proof fn lemma_neg_one_times<F: FieldElement>(a: F)
    requires
        a.canonical(),
    ensures
        neg(F::one()).times(a) == neg(a),
        a.times(neg(F::one())) == neg(a),
{
    lemma_times_neg(a, F::one());
    lemma_one_times(a);
}

pub proof fn lemma_neg_neg<F: FieldElement>(a: F)
    requires
        a.canonical(),
    ensures
        neg(neg(a)) == a,
{
    lemma_neg(a);
    lemma_neg_unique(a, neg(a));
}

/// `(a * b) * (c * d) == (a * c) * (b * d)`.
pub proof fn lemma_times_interchange<F: FieldElement>(a: F, b: F, c: F, d: F)
    ensures
        a.times(b).times(c.times(d)) == a.times(c).times(b.times(d)),
{
    F::lemma_times_associates(a, b, c.times(d));
    F::lemma_times_associates(b, c, d);
    F::lemma_times_commutes(b, c);
    F::lemma_times_associates(c, b, d);
    F::lemma_times_associates(a, c, b.times(d));
}

/// `(a + b) + (c + d) == (a + c) + (b + d)`.
pub proof fn lemma_plus_interchange<F: FieldElement>(a: F, b: F, c: F, d: F)
    ensures
        a.plus(b).plus(c.plus(d)) == a.plus(c).plus(b.plus(d)),
{
    F::lemma_plus_associates(a, b, c.plus(d));
    F::lemma_plus_associates(b, c, d);
    F::lemma_plus_commutes(b, c);
    F::lemma_plus_associates(c, b, d);
    F::lemma_plus_associates(a, c, b.plus(d));
}

// ---- powers ----

pub proof fn lemma_power_canonical<F: FieldElement>(a: F, n: nat)
    ensures
        power(a, n).canonical(),
{
    F::lemma_constants_canonical();
    if n > 0 {
        F::lemma_closed(a, power(a, (n - 1) as nat));
    }
}

pub proof fn lemma_power_one<F: FieldElement>(a: F)
    requires
        a.canonical(),
    ensures
        power(a, 1) == a,
{
    reveal_with_fuel(power, 2);
    lemma_one_times(a);
}

pub proof fn lemma_power_adds<F: FieldElement>(a: F, m: nat, n: nat)
    ensures
        power(a, m + n) == power(a, m).times(power(a, n)),
    decreases m,
{
    lemma_power_canonical(a, n);
    if m == 0 {
        lemma_one_times(power(a, n));
    } else {
        lemma_power_adds(a, (m - 1) as nat, n);
        assert((m + n - 1) as nat == (m - 1) as nat + n);
        F::lemma_times_associates(a, power(a, (m - 1) as nat), power(a, n));
    }
}

pub proof fn lemma_power_of_product<F: FieldElement>(a: F, b: F, n: nat)
    ensures
        power(a.times(b), n) == power(a, n).times(power(b, n)),
    decreases n,
{
    if n == 0 {
        F::lemma_constants_canonical();
        lemma_one_times(F::one());
    } else {
        let m = (n - 1) as nat;
        lemma_power_of_product(a, b, m);
        lemma_times_interchange(a, b, power(a, m), power(b, m));
    }
}

pub proof fn lemma_power_of_one<F: FieldElement>(n: nat)
    ensures
        power(F::one(), n) == F::one(),
    decreases n,
{
    F::lemma_constants_canonical();
    if n > 0 {
        lemma_power_of_one::<F>((n - 1) as nat);
        lemma_one_times(F::one());
    }
}

pub proof fn lemma_power_multiplies<F: FieldElement>(a: F, m: nat, n: nat)
    ensures
        power(power(a, m), n) == power(a, m * n),
    decreases n,
{
    if n == 0 {
        assert(m * n == 0) by (nonlinear_arith)
            requires
                n == 0,
        ;
    } else {
        let k = (n - 1) as nat;
        lemma_power_multiplies(a, m, k);
        assert(m * n == m + m * k) by (nonlinear_arith)
            requires
                n == k + 1,
        ;
        lemma_power_adds(a, m, m * k);
    }
}

/// `a^(2n)` is the square of `a^n`, and the `n`-th power of `a` squared.
pub proof fn lemma_power_doubles<F: FieldElement>(a: F, n: nat)
    requires
        a.canonical(),
    ensures
        power(a, 2 * n) == power(a, n).times(power(a, n)),
        power(a, 2 * n) == power(a.times(a), n),
{
    lemma_power_adds(a, n, n);
    assert(2 * n == n + n);
    lemma_power_of_product(a, a, n);
}

pub proof fn lemma_power_of_neg_one<F: FieldElement>(n: nat)
    ensures
        n % 2 == 0 ==> power(neg(F::one()), n) == F::one(),
        n % 2 == 1 ==> power(neg(F::one()), n) == neg(F::one()),
    decreases n,
{
    F::lemma_constants_canonical();
    lemma_neg(F::one());
    if n > 0 {
        lemma_power_of_neg_one::<F>((n - 1) as nat);
        lemma_neg_one_times(neg(F::one()));
        lemma_neg_neg(F::one());
        lemma_one_times(neg(F::one()));
    }
}

// ---- inverses ----

pub proof fn lemma_inv<F: FieldElement>(a: F)
    requires
        invertible(a),
    ensures
        inv(a).canonical(),
        a.times(inv(a)) == F::one(),
        inv(a).times(a) == F::one(),
{
    F::lemma_times_commutes(a, inv(a));
}

pub proof fn lemma_inv_unique<F: FieldElement>(a: F, b: F)
    requires
        b.canonical(),
        a.times(b) == F::one(),
    ensures
        invertible(a),
        inv(a) == b,
{
    lemma_inv(a);
    // b = 1 * b = (inv(a) * a) * b = inv(a) * (a * b) = inv(a)
    lemma_one_times(b);
    F::lemma_times_associates(inv(a), a, b);
    lemma_one_times(inv(a));
}

pub proof fn lemma_invertible_product<F: FieldElement>(a: F, b: F)
    requires
        invertible(a),
        invertible(b),
    ensures
        invertible(a.times(b)),
        inv(a.times(b)) == inv(a).times(inv(b)),
{
    F::lemma_constants_canonical();
    lemma_inv(a);
    lemma_inv(b);
    lemma_times_interchange(a, b, inv(a), inv(b));
    lemma_one_times(F::one());
    F::lemma_closed(inv(a), inv(b));
    lemma_inv_unique(a.times(b), inv(a).times(inv(b)));
}

pub proof fn lemma_invertible_power<F: FieldElement>(a: F, n: nat)
    requires
        invertible(a),
    ensures
        invertible(power(a, n)),
        inv(power(a, n)) == power(inv(a), n),
        power(a, n).times(power(inv(a), n)) == F::one(),
    decreases n,
{
    F::lemma_constants_canonical();
    if n == 0 {
        lemma_one_times(F::one());
        lemma_inv_unique(F::one(), F::one());
    } else {
        lemma_invertible_power(a, (n - 1) as nat);
        lemma_invertible_product(a, power(a, (n - 1) as nat));
        lemma_inv(power(a, n));
    }
}

/// A root of unity is invertible.
pub proof fn lemma_root_of_unity_invertible<F: FieldElement>(a: F, n: nat)
    requires
        n > 0,
        power(a, n) == F::one(),
    ensures
        invertible(a),
{
    lemma_power_canonical(a, (n - 1) as nat);
    lemma_inv_unique(a, power(a, (n - 1) as nat));
}

/// The factors of an invertible product are invertible.
pub proof fn lemma_invertible_factor<F: FieldElement>(a: F, b: F)
    requires
        invertible(a.times(b)),
    ensures
        invertible(a),
        invertible(b),
{
    let c = inv(a.times(b));
    lemma_inv(a.times(b));
    F::lemma_times_associates(a, b, c);
    F::lemma_closed(b, c);
    lemma_inv_unique(a, b.times(c));
    F::lemma_times_commutes(a, b);
    F::lemma_times_associates(b, a, c);
    F::lemma_closed(a, c);
    lemma_inv_unique(b, a.times(c));
}

/// An invertible factor can be cancelled.
pub proof fn lemma_cancel_factor<F: FieldElement>(a: F, b: F, c: F)
    requires
        invertible(a),
        b.canonical(),
        c.canonical(),
        a.times(b) == a.times(c),
    ensures
        b == c,
{
    lemma_inv(a);
    F::lemma_times_commutes(inv(a), a);
    F::lemma_times_associates(inv(a), a, b);
    F::lemma_times_associates(inv(a), a, c);
    lemma_one_times(b);
    lemma_one_times(c);
}

// ---- sums ----

pub proof fn lemma_sum_canonical<F: FieldElement>(f: spec_fn(int) -> F, n: nat)
    ensures
        sum(f, n).canonical(),
{
    F::lemma_constants_canonical();
    if n > 0 {
        F::lemma_closed(sum(f, (n - 1) as nat), f(n - 1));
    }
}

pub proof fn lemma_sum_plus<F: FieldElement>(
    f: spec_fn(int) -> F,
    g: spec_fn(int) -> F,
    h: spec_fn(int) -> F,
    n: nat,
)
    requires
        forall|i: int| 0 <= i < n ==> #[trigger] h(i) == f(i).plus(g(i)),
    ensures
        sum(h, n) == sum(f, n).plus(sum(g, n)),
    decreases n,
{
    if n == 0 {
        F::lemma_constants_canonical();
        lemma_zero_plus(F::zero());
    } else {
        let m = (n - 1) as nat;
        lemma_sum_plus(f, g, h, m);
        lemma_plus_interchange(sum(f, m), sum(g, m), f(n - 1), g(n - 1));
    }
}

pub proof fn lemma_sum_scaled<F: FieldElement>(
    c: F,
    f: spec_fn(int) -> F,
    h: spec_fn(int) -> F,
    n: nat,
)
    requires
        forall|i: int| 0 <= i < n ==> #[trigger] h(i) == c.times(f(i)),
    ensures
        sum(h, n) == c.times(sum(f, n)),
    decreases n,
{
    if n == 0 {
        lemma_times_zero(c);
    } else {
        let m = (n - 1) as nat;
        lemma_sum_scaled(c, f, h, m);
        F::lemma_times_distributes(c, sum(f, m), f(n - 1));
    }
}

pub proof fn lemma_sum_of_zeros<F: FieldElement>(f: spec_fn(int) -> F, n: nat)
    requires
        forall|i: int| 0 <= i < n ==> #[trigger] f(i) == F::zero(),
    ensures
        sum(f, n) == F::zero(),
    decreases n,
{
    if n > 0 {
        F::lemma_constants_canonical();
        lemma_sum_of_zeros(f, (n - 1) as nat);
        lemma_zero_plus(F::zero());
    }
}

/// A sum of `m + n` terms, the last `n` of which `g` enumerates.
pub proof fn lemma_sum_splits<F: FieldElement>(
    f: spec_fn(int) -> F,
    g: spec_fn(int) -> F,
    m: nat,
    n: nat,
)
    requires
        forall|i: int| 0 <= i < n ==> #[trigger] g(i) == f(m + i),
    ensures
        sum(f, m + n) == sum(f, m).plus(sum(g, n)),
    decreases n,
{
    lemma_sum_canonical(f, m);
    if n == 0 {
        lemma_zero_plus(sum(f, m));
    } else {
        let k = (n - 1) as nat;
        lemma_sum_splits(f, g, m, k);
        assert((m + n - 1) as nat == m + k);
        assert(g(n - 1) == f(m + n - 1));
        F::lemma_plus_associates(sum(f, m), sum(g, k), g(n - 1));
    }
}

pub proof fn lemma_from_nat_canonical<F: FieldElement>(n: nat)
    ensures
        from_nat::<F>(n).canonical(),
{
    F::lemma_constants_canonical();
    if n > 0 {
        F::lemma_closed(from_nat::<F>((n - 1) as nat), F::one());
    }
}

pub proof fn lemma_from_nat_adds<F: FieldElement>(m: nat, n: nat)
    ensures
        from_nat::<F>(m + n) == from_nat::<F>(m).plus(from_nat::<F>(n)),
    decreases n,
{
    lemma_from_nat_canonical::<F>(m);
    if n == 0 {
        lemma_zero_plus(from_nat::<F>(m));
    } else {
        lemma_from_nat_adds::<F>(m, (n - 1) as nat);
        assert((m + n - 1) as nat == m + (n - 1) as nat);
        F::lemma_plus_associates(from_nat::<F>(m), from_nat::<F>((n - 1) as nat), F::one());
    }
}

/// A power of two is invertible.
pub proof fn lemma_from_nat_pow2_invertible<F: FieldElement>(m: nat)
    ensures
        invertible(from_nat::<F>(pow2(m))),
    decreases m,
{
    F::lemma_constants_canonical();
    if m == 0 {
        lemma_pow2_zero();
        reveal_with_fuel(from_nat, 2);
        lemma_zero_plus(F::one());
        lemma_one_times(F::one());
        lemma_inv_unique(F::one(), F::one());
    } else {
        let h = pow2((m - 1) as nat);
        let e = from_nat::<F>(h);
        lemma_pow2_unfold(m);
        lemma_from_nat_pow2_invertible::<F>((m - 1) as nat);
        lemma_from_nat_adds::<F>(h, h);
        assert(pow2(m) == h + h);
        lemma_from_nat_canonical::<F>(h);
        let two = F::one().plus(F::one());
        lemma_one_times(e);
        lemma_distributes_right(F::one(), F::one(), e);
        let half = F::lemma_half();
        lemma_inv_unique(two, half);
        lemma_invertible_product(two, e);
    }
}

// ---- roots of unity ----

/// Whether `w` generates a group of `2^m` elements: its `2^(m-1)`-th power is
/// minus one, or it is one where the group is trivial.
pub open spec fn primitive_root<F: FieldElement>(w: F, m: nat) -> bool {
    &&& w.canonical()
    &&& if m == 0 {
        w == F::one()
    } else {
        power(w, pow2((m - 1) as nat)) == neg(F::one())
    }
}

/// A primitive root of order `2^m` has `2^m`-th power one, and its square is a
/// primitive root of half the order.
pub proof fn lemma_primitive_root<F: FieldElement>(w: F, m: nat)
    requires
        primitive_root(w, m),
    ensures
        power(w, pow2(m)) == F::one(),
        invertible(w),
        m > 0 ==> primitive_root(w.times(w), (m - 1) as nat),
{
    F::lemma_constants_canonical();
    lemma_pow2_pos(m);
    if m == 0 {
        lemma_pow2_zero();
        lemma_power_one(w);
    } else {
        let h = pow2((m - 1) as nat);
        lemma_pow2_unfold(m);
        lemma_power_doubles(w, h);
        lemma_neg(F::one());
        lemma_neg_one_times(neg(F::one()));
        lemma_neg_neg(F::one());
        F::lemma_closed(w, w);
        if m == 1 {
            lemma_pow2_zero();
            lemma_power_one(w);
        } else {
            let q = pow2((m - 2) as nat);
            lemma_pow2_unfold((m - 1) as nat);
            lemma_power_doubles(w, q);
        }
    }
    lemma_root_of_unity_invertible(w, pow2(m));
}

/// The terms of a geometric series.
pub open spec fn geometric<F: FieldElement>(z: F) -> spec_fn(int) -> F {
    |j: int| power(z, j as nat)
}

/// The first `2h` terms of a geometric series, from the first `h`.
pub proof fn lemma_geometric_doubles<F: FieldElement>(z: F, h: nat)
    ensures
        sum(geometric(z), 2 * h) == sum(geometric(z), h).plus(
            power(z, h).times(sum(geometric(z), h)),
        ),
{
    let shifted = |j: int| power(z, h).times(power(z, j as nat));
    assert forall|j: int| 0 <= j < h implies #[trigger] shifted(j) == geometric(z)(h + j) by {
        lemma_power_adds(z, h, j as nat);
        assert((h + j) as nat == h + j as nat);
    }
    lemma_sum_splits(geometric(z), shifted, h, h);
    lemma_sum_scaled(power(z, h), geometric(z), shifted, h);
    assert(2 * h == h + h);
}

/// The powers of a nontrivial power of a primitive root sum up to zero.
pub proof fn lemma_geometric_sum<F: FieldElement>(w: F, m: nat, e: nat)
    requires
        primitive_root(w, m),
        0 < e < pow2(m),
    ensures
        sum(geometric(power(w, e)), pow2(m)) == F::zero(),
    decreases m,
{
    lemma_pow2_zero();
    assert(m > 0);
    let h = pow2((m - 1) as nat);
    lemma_pow2_unfold(m);
    let z = power(w, e);
    let s = sum(geometric(z), h);
    F::lemma_constants_canonical();
    lemma_power_canonical(w, e);
    lemma_sum_canonical(geometric(z), h);
    lemma_geometric_doubles(z, h);
    if e % 2 == 1 {
        // z^h = (w^h)^e = -1
        lemma_power_multiplies(w, e, h);
        lemma_power_multiplies(w, h, e);
        assert(e * h == h * e) by (nonlinear_arith);
        lemma_power_of_neg_one::<F>(e);
        lemma_neg_one_times(s);
        lemma_neg(s);
    } else {
        let d = e / 2;
        assert(e == 2 * d);
        lemma_primitive_root(w, m);
        lemma_power_doubles(w, d);
        lemma_geometric_sum(w.times(w), (m - 1) as nat, d);
        lemma_times_zero(power(z, h));
        lemma_zero_plus(F::zero());
    }
}

/// No smaller positive power of a primitive root is one.
pub proof fn lemma_primitive_root_order<F: FieldElement>(w: F, m: nat, e: nat)
    requires
        primitive_root(w, m),
        0 < e < pow2(m),
    ensures
        power(w, e) != F::one(),
    decreases m,
{
    lemma_pow2_zero();
    assert(m > 0);
    let h = pow2((m - 1) as nat);
    lemma_pow2_unfold(m);
    F::lemma_constants_canonical();
    if e % 2 == 1 {
        if power(w, e) == F::one() {
            lemma_power_multiplies(w, e, h);
            lemma_power_multiplies(w, h, e);
            assert(e * h == h * e) by (nonlinear_arith);
            lemma_power_of_neg_one::<F>(e);
            lemma_power_of_one::<F>(h);
            lemma_neg_one_is_not_one::<F>();
        }
    } else {
        let d = e / 2;
        assert(e == 2 * d);
        lemma_primitive_root(w, m);
        lemma_power_doubles(w, d);
        lemma_primitive_root_order(w.times(w), (m - 1) as nat, d);
    }
}

pub proof fn lemma_neg_one_is_not_one<F: FieldElement>()
    ensures
        neg(F::one()) != F::one(),
{
    F::lemma_constants_canonical();
    lemma_neg(F::one());
    if neg(F::one()) == F::one() {
        let half = F::lemma_half();
        lemma_times_zero(half);
    }
}

} // verus!
