//! The quotient of the base field is prime, so that it is a field.
//!
//! A proper divisor would have to be at least `2^32`: modulo it, the powers of a
//! root of unity of order `2^32` are still all different.

use vstd::arithmetic::div_mod::*;
use vstd::arithmetic::mul::*;
use vstd::arithmetic::power2::*;
use vstd::prelude::*;
use vstd::relations::*;
use vstd::set_lib::*;

use crate::algebra::{
    lemma_cancel_factor, lemma_inv_unique, lemma_minus_times, lemma_neg_unique, lemma_one_times,
    lemma_power_adds, lemma_power_canonical, lemma_power_doubles, lemma_power_multiplies,
    lemma_power_of_neg_one, lemma_power_one, lemma_primitive_root, lemma_times_zero,
    lemma_zero_plus, neg, primitive_root,
};
use crate::b_field_element::BFieldElement;
use crate::field::{invertible, power, FieldElement};
use crate::group::is_order;
use crate::roots::{lemma_two_adic_root, two_adic_root};

verus! {

/// Whether `d * e` is the quotient, with neither factor trivial.
spec fn splits(d: int, e: int) -> bool {
    1 < d && 1 < e && d * e == BFieldElement::QUOTIENT
}

/// A product of elements, modulo a factor of the quotient.
proof fn lemma_product_modulo(a: BFieldElement, b: BFieldElement, d: int, e: int)
    requires
        splits(d, e),
    ensures
        a.times(b)@ % d == ((a@ % d) * (b@ % d)) % d,
{
    BFieldElement::lemma_operations(a, b);
    BFieldElement::lemma_of(a@ * b@);
    lemma_mod_mod(a@ * b@, d, e);
    lemma_mul_mod_noop(a@, b@, d);
}

/// The powers of what is one modulo a factor.
proof fn lemma_powers_of_one_modulo(a: BFieldElement, n: nat, d: int, e: int)
    requires
        splits(d, e),
        a@ % d == 1,
    ensures
        power(a, n)@ % d == 1,
    decreases n,
{
    lemma_small_mod(1, d as nat);
    if n == 0 {
        BFieldElement::lemma_operations(a, a);
        BFieldElement::lemma_of(1);
    } else {
        lemma_powers_of_one_modulo(a, (n - 1) as nat, d, e);
        lemma_product_modulo(a, power(a, (n - 1) as nat), d, e);
    }
}

/// Minus one differs from one modulo a factor.
proof fn lemma_minus_one_modulo(d: int, e: int)
    requires
        splits(d, e),
    ensures
        neg(BFieldElement::one())@ % d == d - 1,
        d != 2,
{
    let p = BFieldElement::QUOTIENT as int;
    BFieldElement::lemma_operations(BFieldElement::zero(), BFieldElement::one());
    BFieldElement::lemma_of_operations(0, 1);
    BFieldElement::lemma_of(-1);
    BFieldElement::lemma_of_congruent(-1, p - 1, -1);
    BFieldElement::lemma_of(p - 1);
    lemma_small_mod((p - 1) as nat, p as nat);
    // p - 1 == d * (e - 1) + (d - 1)
    assert(p - 1 == d * (e - 1) + (d - 1)) by (nonlinear_arith)
        requires
            d * e == p,
    ;
    lemma_mod_multiples_vanish(e - 1, d - 1, d);
    lemma_small_mod((d - 1) as nat, d as nat);
    if d == 2 {
        assert(p == 2 * e);
    }
}

/// Modulo a factor, no smaller power of a root of unity is one.
proof fn lemma_order_modulo(m: nat, k: nat, d: int, e: int)
    requires
        splits(d, e),
        m <= 32,
        0 < k < pow2(m),
    ensures
        power(two_adic_root(m), k)@ % d != 1,
    decreases m,
{
    let w = two_adic_root(m);
    lemma2_to64();
    assert(m > 0);
    let h = pow2((m - 1) as nat);
    lemma_pow2_unfold(m);
    lemma_two_adic_root(m);
    if k % 2 == 1 {
        if power(w, k)@ % d == 1 {
            lemma_powers_of_one_modulo(power(w, k), h, d, e);
            lemma_power_multiplies(w, k, h);
            lemma_power_multiplies(w, h, k);
            lemma_mul_is_commutative(k as int, h as int);
            lemma_power_of_neg_one::<BFieldElement>(k);
            lemma_minus_one_modulo(d, e);
        }
    } else {
        let f = k / 2;
        assert(k == 2 * f);
        lemma_power_doubles(w, f);
        lemma_order_modulo((m - 1) as nat, f, d, e);
    }
}

/// Modulo a factor, all powers of the root of unity of order `2^32` are different.
proof fn lemma_powers_differ_modulo(i: nat, j: nat, d: int, e: int)
    requires
        splits(d, e),
        i < j < pow2(32),
    ensures
        power(two_adic_root(32), i)@ % d != power(two_adic_root(32), j)@ % d,
{
    let w = two_adic_root(32);
    let n = pow2(32);
    let k = (j - i) as nat;
    let rest = (n - i) as nat;
    lemma_two_adic_root(32);
    lemma_primitive_root(w, 32);
    if power(w, i)@ % d == power(w, j)@ % d {
        // multiply both by w^rest
        lemma_power_adds(w, i, rest);
        lemma_power_adds(w, j, rest);
        lemma_power_adds(w, n, k);
        assert(i + rest == n);
        assert(j + rest == n + k);
        lemma_product_modulo(power(w, i), power(w, rest), d, e);
        lemma_product_modulo(power(w, j), power(w, rest), d, e);
        lemma_power_canonical(w, k);
        lemma_one_times(power(w, k));
        BFieldElement::lemma_operations(w, w);
        BFieldElement::lemma_of(1);
        lemma_small_mod(1, d as nat);
        lemma_order_modulo(32, k, d, e);
    }
}

/// A factor of the quotient is not below `2^32`.
proof fn lemma_factors_are_large(d: int, e: int)
    requires
        splits(d, e),
    ensures
        d >= pow2(32),
{
    let n = pow2(32) as int;
    let f = |i: int| power(two_adic_root(32), i as nat)@ % d;
    let exponents = set_int_range(0, n);
    let values = exponents.map(f);
    lemma_int_range(0, n);
    lemma_int_range(0, d);
    assert forall|i: int, j: int|
        exponents.contains(i) && exponents.contains(j) && #[trigger] f(i) == #[trigger] f(
            j,
        ) implies i == j by {
        if i < j {
            lemma_powers_differ_modulo(i as nat, j as nat, d, e);
        } else if j < i {
            lemma_powers_differ_modulo(j as nat, i as nat, d, e);
        }
    }
    assert(injective_on(f, exponents));
    lemma_map_size(exponents, values, f);
    assert forall|v: int| values.contains(v) implies set_int_range(0, d).contains(v) by {
        let i = choose|i: int| exponents.contains(i) && f(i) == v;
        lemma_mod_bound(power(two_adic_root(32), i as nat)@, d);
    }
    lemma_len_subset(values, set_int_range(0, d));
}

/// The quotient is prime.
pub proof fn law_quotient_is_prime(d: int, e: int)
    requires
        d > 0,
        e > 0,
        d * e == BFieldElement::QUOTIENT,
    ensures
        d == 1 || e == 1,
{
    if d != 1 && e != 1 {
        lemma2_to64();
        lemma_mul_is_commutative(d, e);
        lemma_factors_are_large(d, e);
        lemma_factors_are_large(e, d);
        assert(d * e >= 0x1_0000_0000 * 0x1_0000_0000) by (nonlinear_arith)
            requires
                d >= 0x1_0000_0000,
                e >= 0x1_0000_0000,
        ;
    }
}

/// The greatest common divisor of two numbers as a combination of them: returns
/// `(g, s, t, u, v)` with `g == s * a + t * b`, `a == g * u` and `b == g * v`.
pub proof fn lemma_bezout(a: int, b: int) -> (r: (int, int, int, int, int))
    requires
        a > 0,
        b >= 0,
    ensures
        r.0 > 0,
        r.0 == r.1 * a + r.2 * b,
        a == r.0 * r.3,
        b == r.0 * r.4,
    decreases b,
{
    if b == 0 {
        lemma_mul_basics(a);
        assert(1 * a + 0 * b == a) by (nonlinear_arith);
        assert(a * 0 == 0) by (nonlinear_arith);
        (a, 1, 0, 1, 0)
    } else {
        let q = a / b;
        let c = a % b;
        lemma_fundamental_div_mod(a, b);
        lemma_mod_bound(a, b);
        let (g, s, t, u, v) = lemma_bezout(b, c);
        // g == s * b + t * (a - b * q)
        assert(g == t * a + (s - t * q) * b) by (nonlinear_arith)
            requires
                g == s * b + t * c,
                c == a - b * q,
        ;
        assert(a == g * (u * q + v)) by (nonlinear_arith)
            requires
                a == b * q + c,
                b == g * u,
                c == g * v,
        ;
        (g, t, s - t * q, u * q + v, u)
    }
}

/// Every element but zero has an inverse.
pub proof fn law_nonzero_is_invertible(a: BFieldElement)
    requires
        a.canonical(),
        a != BFieldElement::zero(),
    ensures
        invertible(a),
{
    let p = BFieldElement::QUOTIENT as int;
    BFieldElement::lemma_value(a);
    BFieldElement::lemma_operations(a, a);
    BFieldElement::lemma_of(0);
    let (g, s, t, u, v) = lemma_bezout(p, a@);
    if u <= 0 {
        assert(g * u <= 0) by (nonlinear_arith)
            requires
                g > 0,
                u <= 0,
        ;
    }
    law_quotient_is_prime(g, u);
    if u == 1 {
        // then the quotient divides a, which is smaller
        assert(g == p);
        if v >= 1 {
            assert(g * v >= g) by (nonlinear_arith)
                requires
                    g > 0,
                    v >= 1,
            ;
        } else {
            assert(g * v <= 0) by (nonlinear_arith)
                requires
                    g > 0,
                    v <= 0,
            ;
        }
    }
    assert(g == 1);
    // 1 == s * p + t * a
    let b = BFieldElement::of(t);
    BFieldElement::lemma_of(t);
    BFieldElement::lemma_of_operations(a@, t);
    assert(a@ * t == 1 + (-s) * p) by (nonlinear_arith)
        requires
            1 == s * p + t * a@,
    ;
    BFieldElement::lemma_of_congruent(a@ * t, 1, -s);
    lemma_inv_unique(a, b);
}

/// Half way through its order, an element is not one.
pub proof fn lemma_root_of_one_minus_one<F: FieldElement>(w: F, m: nat)
    requires
        is_order(w, pow2(m)),
        m > 0,
    ensures
        power(w, pow2((m - 1) as nat)).minus(F::one()) != F::zero(),
{
    let one = F::one();
    let y = power(w, pow2((m - 1) as nat));
    F::lemma_constants_canonical();
    lemma_pow2_unfold(m);
    lemma_pow2_pos((m - 1) as nat);
    lemma_power_canonical(w, pow2((m - 1) as nat));
    assert(y != one);
    F::lemma_minus_undoes_plus(y, one);
    lemma_zero_plus(one);
}

/// An element of order `2^m` is a primitive root, where what differs from zero half
/// way through its order is invertible.
pub proof fn lemma_order_makes_primitive_root<F: FieldElement>(w: F, m: nat)
    requires
        w.canonical(),
        is_order(w, pow2(m)),
        m > 0 ==> invertible(power(w, pow2((m - 1) as nat)).minus(F::one())),
    ensures
        primitive_root(w, m),
{
    let one = F::one();
    let zero = F::zero();
    F::lemma_constants_canonical();
    lemma_power_one(w);
    if m == 0 {
        lemma2_to64();
    } else {
        // the square of y is one
        let h = pow2((m - 1) as nat);
        lemma_pow2_unfold(m);
        let y = power(w, h);
        lemma_power_canonical(w, h);
        lemma_power_doubles(w, h);
        assert(y.times(y) == one);
        // (y - 1) * (y + 1) == 0
        let a = y.minus(one);
        let b = y.plus(one);
        F::lemma_closed(y, one);
        lemma_minus_times(y, one, b);
        F::lemma_times_distributes(y, y, one);
        lemma_one_times(y);
        lemma_one_times(b);
        F::lemma_plus_commutes(one, y);
        lemma_zero_plus(b);
        F::lemma_minus_undoes_plus(zero, b);
        assert(a.times(b) == zero);
        lemma_times_zero(a);
        lemma_cancel_factor(a, b, zero);
        lemma_neg_unique(y, one);
    }
}

/// An element that has `2^m` different powers is a primitive root of that order.
pub proof fn law_order_makes_primitive_root(w: BFieldElement, m: nat)
    requires
        w.canonical(),
        is_order(w, pow2(m)),
    ensures
        primitive_root(w, m),
{
    if m > 0 {
        let y = power(w, pow2((m - 1) as nat));
        lemma_root_of_one_minus_one(w, m);
        BFieldElement::lemma_closed(y, BFieldElement::one());
        law_nonzero_is_invertible(y.minus(BFieldElement::one()));
    }
    lemma_order_makes_primitive_root(w, m);
}

} // verus!
