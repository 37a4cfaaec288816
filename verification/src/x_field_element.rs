//! The cubic extension of the prime field by a root of `X^3 - X + 1`.

use vstd::arithmetic::mul::*;
use vstd::prelude::*;

use crate::b_field_element::BFieldElement;
use crate::bytes::{le_value, read_u64};
use crate::field::{FieldElement, PrimeField};

verus! {

/// The coefficients of a polynomial of degree at most two over the integers,
/// lowest first.
pub struct Quadratic {
    pub c0: int,
    pub c1: int,
    pub c2: int,
}

impl Quadratic {
    pub open spec fn plus(self, b: Quadratic) -> Quadratic {
        Quadratic { c0: self.c0 + b.c0, c1: self.c1 + b.c1, c2: self.c2 + b.c2 }
    }

    pub open spec fn minus(self, b: Quadratic) -> Quadratic {
        Quadratic { c0: self.c0 - b.c0, c1: self.c1 - b.c1, c2: self.c2 - b.c2 }
    }

    pub open spec fn scaled(self, k: int) -> Quadratic {
        Quadratic { c0: k * self.c0, c1: k * self.c1, c2: k * self.c2 }
    }

    /// The product by `X`, with `X^3` replaced by `X - 1`.
    pub open spec fn shifted(self) -> Quadratic {
        Quadratic { c0: -self.c2, c1: self.c0 + self.c2, c2: self.c1 }
    }

    /// The product, with `X^3` replaced by `X - 1`.
    pub open spec fn times(self, b: Quadratic) -> Quadratic {
        Quadratic {
            c0: self.c0 * b.c0 - self.c1 * b.c2 - self.c2 * b.c1,
            c1: self.c0 * b.c1 + self.c1 * b.c0 + self.c1 * b.c2 + self.c2 * b.c1 - self.c2 * b.c2,
            c2: self.c0 * b.c2 + self.c1 * b.c1 + self.c2 * b.c0 + self.c2 * b.c2,
        }
    }

    proof fn lemma_times_commutes(a: Quadratic, b: Quadratic)
        ensures
            a.times(b) == b.times(a),
    {
        lemma_mul_is_commutative(a.c0, b.c0);
        lemma_mul_is_commutative(a.c0, b.c1);
        lemma_mul_is_commutative(a.c0, b.c2);
        lemma_mul_is_commutative(a.c1, b.c0);
        lemma_mul_is_commutative(a.c1, b.c1);
        lemma_mul_is_commutative(a.c1, b.c2);
        lemma_mul_is_commutative(a.c2, b.c0);
        lemma_mul_is_commutative(a.c2, b.c1);
        lemma_mul_is_commutative(a.c2, b.c2);
    }

    proof fn lemma_times_distributes(a: Quadratic, b: Quadratic, c: Quadratic)
        ensures
            a.times(b.plus(c)) == a.times(b).plus(a.times(c)),
            b.plus(c).times(a) == b.times(a).plus(c.times(a)),
    {
        lemma_mul_is_distributive_add(a.c0, b.c0, c.c0);
        lemma_mul_is_distributive_add(a.c0, b.c1, c.c1);
        lemma_mul_is_distributive_add(a.c0, b.c2, c.c2);
        lemma_mul_is_distributive_add(a.c1, b.c0, c.c0);
        lemma_mul_is_distributive_add(a.c1, b.c1, c.c1);
        lemma_mul_is_distributive_add(a.c1, b.c2, c.c2);
        lemma_mul_is_distributive_add(a.c2, b.c0, c.c0);
        lemma_mul_is_distributive_add(a.c2, b.c1, c.c1);
        lemma_mul_is_distributive_add(a.c2, b.c2, c.c2);
        Self::lemma_times_commutes(a, b.plus(c));
        Self::lemma_times_commutes(a, b);
        Self::lemma_times_commutes(a, c);
    }

    proof fn lemma_times_scaled(a: Quadratic, b: Quadratic, k: int)
        ensures
            a.times(b.scaled(k)) == a.times(b).scaled(k),
            b.scaled(k).times(a) == b.times(a).scaled(k),
    {
        lemma_swap(a.c0, k, b.c0);
        lemma_swap(a.c0, k, b.c1);
        lemma_swap(a.c0, k, b.c2);
        lemma_swap(a.c1, k, b.c0);
        lemma_swap(a.c1, k, b.c1);
        lemma_swap(a.c1, k, b.c2);
        lemma_swap(a.c2, k, b.c0);
        lemma_swap(a.c2, k, b.c1);
        lemma_swap(a.c2, k, b.c2);
        lemma_mul_is_distributive_sub(k, a.c0 * b.c0, a.c1 * b.c2);
        lemma_mul_is_distributive_sub(k, a.c0 * b.c0 - a.c1 * b.c2, a.c2 * b.c1);
        lemma_mul_is_distributive_add(k, a.c0 * b.c1, a.c1 * b.c0);
        lemma_mul_is_distributive_add(k, a.c0 * b.c1 + a.c1 * b.c0, a.c1 * b.c2);
        lemma_mul_is_distributive_add(k, a.c0 * b.c1 + a.c1 * b.c0 + a.c1 * b.c2, a.c2 * b.c1);
        lemma_mul_is_distributive_sub(
            k,
            a.c0 * b.c1 + a.c1 * b.c0 + a.c1 * b.c2 + a.c2 * b.c1,
            a.c2 * b.c2,
        );
        lemma_mul_is_distributive_add(k, a.c0 * b.c2, a.c1 * b.c1);
        lemma_mul_is_distributive_add(k, a.c0 * b.c2 + a.c1 * b.c1, a.c2 * b.c0);
        lemma_mul_is_distributive_add(k, a.c0 * b.c2 + a.c1 * b.c1 + a.c2 * b.c0, a.c2 * b.c2);
        Self::lemma_times_commutes(a, b.scaled(k));
        Self::lemma_times_commutes(a, b);
    }

    proof fn lemma_times_shifted(b: Quadratic, c: Quadratic)
        ensures
            b.shifted().times(c) == b.times(c).shifted(),
    {
        lemma_mul_unary_negation(b.c2, c.c0);
        lemma_mul_unary_negation(b.c2, c.c1);
        lemma_mul_unary_negation(b.c2, c.c2);
        lemma_mul_is_distributive_add_other_way(c.c0, b.c0, b.c2);
        lemma_mul_is_distributive_add_other_way(c.c1, b.c0, b.c2);
        lemma_mul_is_distributive_add_other_way(c.c2, b.c0, b.c2);
    }

    /// A product as a combination of the shifts of its second factor.
    pub proof fn lemma_times_expanded(a: Quadratic, b: Quadratic)
        ensures
            a.times(b) == b.scaled(a.c0).plus(b.shifted().scaled(a.c1)).plus(
                b.shifted().shifted().scaled(a.c2),
            ),
    {
        lemma_mul_unary_negation(a.c1, b.c2);
        lemma_mul_unary_negation(a.c2, b.c1);
        lemma_mul_is_distributive_add(a.c1, b.c0, b.c2);
        lemma_mul_is_distributive_add(a.c2, b.c0, b.c2);
        lemma_mul_is_distributive_add(a.c2, -b.c2, b.c1);
        lemma_mul_unary_negation(a.c2, b.c2);
    }

    proof fn lemma_times_associates(a: Quadratic, b: Quadratic, c: Quadratic)
        ensures
            a.times(b).times(c) == a.times(b.times(c)),
    {
        let b1 = b.shifted();
        let b2 = b1.shifted();
        Self::lemma_times_expanded(a, b);
        Self::lemma_times_expanded(a, b.times(c));
        Self::lemma_times_distributes(c, b.scaled(a.c0).plus(b1.scaled(a.c1)), b2.scaled(a.c2));
        Self::lemma_times_distributes(c, b.scaled(a.c0), b1.scaled(a.c1));
        Self::lemma_times_scaled(c, b, a.c0);
        Self::lemma_times_scaled(c, b1, a.c1);
        Self::lemma_times_scaled(c, b2, a.c2);
        Self::lemma_times_shifted(b, c);
        Self::lemma_times_shifted(b1, c);
    }
}

impl Quadratic {
    pub open spec fn dot(self, b: Quadratic) -> int {
        self.c0 * b.c0 + self.c1 * b.c1 + self.c2 * b.c2
    }

    pub open spec fn cross(self, b: Quadratic) -> Quadratic {
        Quadratic {
            c0: self.c1 * b.c2 - self.c2 * b.c1,
            c1: self.c2 * b.c0 - self.c0 * b.c2,
            c2: self.c0 * b.c1 - self.c1 * b.c0,
        }
    }

    /// The determinant of the matrix by which `self` multiplies.
    pub open spec fn norm(self) -> int {
        self.dot(self.shifted().cross(self.shifted().shifted()))
    }

    proof fn lemma_dot_distributes(a: Quadratic, b: Quadratic, c: Quadratic)
        ensures
            a.dot(b.plus(c)) == a.dot(b) + a.dot(c),
            b.plus(c).dot(a) == b.dot(a) + c.dot(a),
            b.dot(a) == a.dot(b),
    {
        lemma_mul_is_distributive_add(a.c0, b.c0, c.c0);
        lemma_mul_is_distributive_add(a.c1, b.c1, c.c1);
        lemma_mul_is_distributive_add(a.c2, b.c2, c.c2);
        lemma_mul_is_distributive_add_other_way(a.c0, b.c0, c.c0);
        lemma_mul_is_distributive_add_other_way(a.c1, b.c1, c.c1);
        lemma_mul_is_distributive_add_other_way(a.c2, b.c2, c.c2);
        lemma_mul_is_commutative(a.c0, b.c0);
        lemma_mul_is_commutative(a.c1, b.c1);
        lemma_mul_is_commutative(a.c2, b.c2);
    }

    proof fn lemma_dot_scaled(a: Quadratic, b: Quadratic, k: int)
        ensures
            a.dot(b.scaled(k)) == k * a.dot(b),
            b.scaled(k).dot(a) == k * b.dot(a),
    {
        lemma_swap(a.c0, k, b.c0);
        lemma_swap(a.c1, k, b.c1);
        lemma_swap(a.c2, k, b.c2);
        lemma_mul_is_distributive_add(k, a.c0 * b.c0, a.c1 * b.c1);
        lemma_mul_is_distributive_add(k, a.c0 * b.c0 + a.c1 * b.c1, a.c2 * b.c2);
        Self::lemma_dot_distributes(a, b.scaled(k), b);
        Self::lemma_dot_distributes(a, b, b);
    }

    /// A triple product does not change when its factors are rotated.
    proof fn lemma_triple_rotates(a: Quadratic, b: Quadratic, c: Quadratic)
        ensures
            a.dot(b.cross(c)) == b.dot(c.cross(a)),
    {
        lemma_triple(a.c0, b.c1, c.c2);
        lemma_triple(a.c0, b.c2, c.c1);
        lemma_triple(a.c1, b.c2, c.c0);
        lemma_triple(a.c1, b.c0, c.c2);
        lemma_triple(a.c2, b.c0, c.c1);
        lemma_triple(a.c2, b.c1, c.c0);
        lemma_mul_is_distributive_sub(a.c0, b.c1 * c.c2, b.c2 * c.c1);
        lemma_mul_is_distributive_sub(a.c1, b.c2 * c.c0, b.c0 * c.c2);
        lemma_mul_is_distributive_sub(a.c2, b.c0 * c.c1, b.c1 * c.c0);
        lemma_mul_is_distributive_sub(b.c0, c.c1 * a.c2, c.c2 * a.c1);
        lemma_mul_is_distributive_sub(b.c1, c.c2 * a.c0, c.c0 * a.c2);
        lemma_mul_is_distributive_sub(b.c2, c.c0 * a.c1, c.c1 * a.c0);
    }

    /// A triple product with a repeated factor is zero.
    proof fn lemma_triple_repeated(a: Quadratic, b: Quadratic)
        ensures
            a.dot(a.cross(b)) == 0,
            a.dot(b.cross(a)) == 0,
    {
        lemma_triple(a.c0, a.c1, b.c2);
        lemma_triple(a.c0, a.c2, b.c1);
        lemma_triple(a.c1, a.c2, b.c0);
        lemma_triple(a.c1, a.c0, b.c2);
        lemma_triple(a.c2, a.c0, b.c1);
        lemma_triple(a.c2, a.c1, b.c0);
        lemma_mul_is_distributive_sub(a.c0, a.c1 * b.c2, a.c2 * b.c1);
        lemma_mul_is_distributive_sub(a.c1, a.c2 * b.c0, a.c0 * b.c2);
        lemma_mul_is_distributive_sub(a.c2, a.c0 * b.c1, a.c1 * b.c0);
        lemma_swap(a.c0, a.c1, b.c2);
        lemma_swap(a.c0, a.c2, b.c1);
        lemma_swap(a.c1, a.c2, b.c0);
        Self::lemma_triple_rotates(a, a, b);
        Self::lemma_triple_rotates(a, b, a);
    }

    /// The cross product of two products with one factor in common.
    proof fn lemma_cross_of_products(a: Quadratic, v: Quadratic, w: Quadratic)
        ensures
            v.times(a).cross(w.times(a)) == a.shifted().cross(a.shifted().shifted()).scaled(
                v.cross(w).c0,
            ).plus(a.shifted().shifted().cross(a).scaled(v.cross(w).c1)).plus(
                a.cross(a.shifted()).scaled(v.cross(w).c2),
            ),
    {
        let e0 = a;
        let e1 = a.shifted();
        let e2 = e1.shifted();
        Self::lemma_times_expanded(v, a);
        Self::lemma_times_expanded(w, a);
        lemma_lagrange(v, w, e0.c1, e1.c1, e2.c1, e0.c2, e1.c2, e2.c2);
        lemma_lagrange(v, w, e0.c2, e1.c2, e2.c2, e0.c0, e1.c0, e2.c0);
        lemma_lagrange(v, w, e0.c0, e1.c0, e2.c0, e0.c1, e1.c1, e2.c1);
    }

    pub proof fn lemma_norm_multiplies(a: Quadratic, b: Quadratic)
        ensures
            b.times(a).norm() == a.norm() * b.norm(),
    {
        let e0 = a;
        let e1 = a.shifted();
        let e2 = e1.shifted();
        let n = a.norm();
        let u = b;
        let v = b.shifted();
        let w = v.shifted();
        let c = v.cross(w);
        let f0 = e1.cross(e2);
        let f1 = e2.cross(e0);
        let f2 = e0.cross(e1);
        Self::lemma_times_shifted(b, a);
        Self::lemma_times_shifted(v, a);
        Self::lemma_cross_of_products(a, v, w);
        Self::lemma_times_expanded(u, a);
        // the triple products of the shifts of a
        Self::lemma_triple_repeated(e0, e1);
        Self::lemma_triple_repeated(e0, e2);
        Self::lemma_triple_repeated(e1, e0);
        Self::lemma_triple_repeated(e1, e2);
        Self::lemma_triple_repeated(e2, e0);
        Self::lemma_triple_repeated(e2, e1);
        Self::lemma_triple_rotates(e0, e1, e2);
        Self::lemma_triple_rotates(e1, e2, e0);
        let g = f0.scaled(c.c0).plus(f1.scaled(c.c1)).plus(f2.scaled(c.c2));
        assert(e0.dot(g) == c.c0 * n) by {
            Self::lemma_dot_distributes(e0, f0.scaled(c.c0).plus(f1.scaled(c.c1)), f2.scaled(c.c2));
            Self::lemma_dot_distributes(e0, f0.scaled(c.c0), f1.scaled(c.c1));
            Self::lemma_dot_scaled(e0, f0, c.c0);
            Self::lemma_dot_scaled(e0, f1, c.c1);
            Self::lemma_dot_scaled(e0, f2, c.c2);
            lemma_mul_basics(c.c1);
            lemma_mul_basics(c.c2);
        }
        assert(e1.dot(g) == c.c1 * n) by {
            Self::lemma_dot_distributes(e1, f0.scaled(c.c0).plus(f1.scaled(c.c1)), f2.scaled(c.c2));
            Self::lemma_dot_distributes(e1, f0.scaled(c.c0), f1.scaled(c.c1));
            Self::lemma_dot_scaled(e1, f0, c.c0);
            Self::lemma_dot_scaled(e1, f1, c.c1);
            Self::lemma_dot_scaled(e1, f2, c.c2);
            lemma_mul_basics(c.c0);
            lemma_mul_basics(c.c2);
        }
        assert(e2.dot(g) == c.c2 * n) by {
            Self::lemma_dot_distributes(e2, f0.scaled(c.c0).plus(f1.scaled(c.c1)), f2.scaled(c.c2));
            Self::lemma_dot_distributes(e2, f0.scaled(c.c0), f1.scaled(c.c1));
            Self::lemma_dot_scaled(e2, f0, c.c0);
            Self::lemma_dot_scaled(e2, f1, c.c1);
            Self::lemma_dot_scaled(e2, f2, c.c2);
            lemma_mul_basics(c.c0);
            lemma_mul_basics(c.c1);
        }
        assert(u.times(a).dot(g) == u.c0 * e0.dot(g) + u.c1 * e1.dot(g) + u.c2 * e2.dot(g)) by {
            Self::lemma_dot_distributes(g, e0.scaled(u.c0).plus(e1.scaled(u.c1)), e2.scaled(u.c2));
            Self::lemma_dot_distributes(g, e0.scaled(u.c0), e1.scaled(u.c1));
            Self::lemma_dot_scaled(g, e0, u.c0);
            Self::lemma_dot_scaled(g, e1, u.c1);
            Self::lemma_dot_scaled(g, e2, u.c2);
        }
        lemma_mul_is_associative(u.c0, c.c0, n);
        lemma_mul_is_associative(u.c1, c.c1, n);
        lemma_mul_is_associative(u.c2, c.c2, n);
        lemma_mul_is_distributive_add_other_way(n, u.c0 * c.c0, u.c1 * c.c1);
        lemma_mul_is_distributive_add_other_way(n, u.c0 * c.c0 + u.c1 * c.c1, u.c2 * c.c2);
        lemma_mul_is_commutative(u.dot(c), n);
    }

    /// The product of the other conjugates: multiplied by `self` it gives the norm.
    pub open spec fn cofactor(self) -> Quadratic {
        let e1 = self.shifted();
        let e2 = e1.shifted();
        Quadratic { c0: e1.cross(e2).c0, c1: e2.cross(self).c0, c2: self.cross(e1).c0 }
    }

    proof fn lemma_cofactor(a: Quadratic)
        ensures
            a.cofactor().times(a) == (Quadratic { c0: a.norm(), c1: 0, c2: 0 }),
    {
        // The first components of the cross products of the shifts, dotted with
        // the components of the shifts.
        let e1 = a.shifted();
        let e2 = e1.shifted();
        let v = a.cofactor();
        Self::lemma_times_expanded(v, a);
        let r0 = Quadratic { c0: a.c0, c1: e1.c0, c2: e2.c0 };
        let r1 = Quadratic { c0: a.c1, c1: e1.c1, c2: e2.c1 };
        let r2 = Quadratic { c0: a.c2, c1: e1.c2, c2: e2.c2 };
        assert(v == r1.cross(r2)) by {
            lemma_mul_is_commutative(e1.c1, e2.c2);
            lemma_mul_is_commutative(e1.c2, e2.c1);
            lemma_mul_is_commutative(e2.c1, a.c2);
            lemma_mul_is_commutative(e2.c2, a.c1);
            lemma_mul_is_commutative(a.c1, e1.c2);
            lemma_mul_is_commutative(a.c2, e1.c1);
        }
        Self::lemma_triple_repeated(r1, r2);
        Self::lemma_triple_repeated(r2, r1);
        Self::lemma_dot_distributes(r0, v, v);
        Self::lemma_dot_distributes(r1, v, v);
        Self::lemma_dot_distributes(r2, v, v);
        // expansion of the determinant along rows and along columns
        lemma_transpose(a, e1, e2);
    }
}

/// The determinant of a matrix is that of its transpose.
proof fn lemma_transpose(a: Quadratic, b: Quadratic, c: Quadratic)
    ensures
        a.dot(b.cross(c)) == (Quadratic { c0: a.c0, c1: b.c0, c2: c.c0 }).dot(
            (Quadratic { c0: a.c1, c1: b.c1, c2: c.c1 }).cross(
                Quadratic { c0: a.c2, c1: b.c2, c2: c.c2 },
            ),
        ),
{
    lemma_triple(a.c0, b.c1, c.c2);
    lemma_triple(a.c0, b.c2, c.c1);
    lemma_triple(a.c1, b.c2, c.c0);
    lemma_triple(a.c1, b.c0, c.c2);
    lemma_triple(a.c2, b.c0, c.c1);
    lemma_triple(a.c2, b.c1, c.c0);
    lemma_mul_is_distributive_sub(a.c0, b.c1 * c.c2, b.c2 * c.c1);
    lemma_mul_is_distributive_sub(a.c1, b.c2 * c.c0, b.c0 * c.c2);
    lemma_mul_is_distributive_sub(a.c2, b.c0 * c.c1, b.c1 * c.c0);
    lemma_mul_is_distributive_sub(a.c0, b.c1 * c.c2, c.c1 * b.c2);
    lemma_mul_is_distributive_sub(b.c0, c.c1 * a.c2, a.c1 * c.c2);
    lemma_mul_is_distributive_sub(c.c0, a.c1 * b.c2, b.c1 * a.c2);
}

/// The orders in which three factors can be multiplied.
proof fn lemma_triple(a: int, b: int, c: int)
    ensures
        a * (b * c) == a * (c * b),
        a * (b * c) == b * (c * a),
        a * (b * c) == b * (a * c),
        a * (b * c) == c * (a * b),
        a * (b * c) == c * (b * a),
{
    lemma_mul_is_commutative(b, c);
    lemma_mul_is_commutative(a, c);
    lemma_mul_is_commutative(a, b);
    lemma_swap(a, b, c);
    lemma_swap(a, c, b);
}

/// `(p * q) * (r * s) == (p * r) * (q * s)`.
proof fn lemma_interchange(p: int, q: int, r: int, s: int)
    ensures
        (p * q) * (r * s) == (p * r) * (q * s),
{
    lemma_mul_is_associative(p, q, r * s);
    lemma_swap(q, r, s);
    lemma_mul_is_associative(p, r, q * s);
}

/// `(a - b) * (c - d)`, multiplied out.
proof fn lemma_foil(a: int, b: int, c: int, d: int)
    ensures
        (a - b) * (c - d) == a * c - a * d - b * c + b * d,
{
    lemma_mul_is_distributive_sub_other_way(c - d, a, b);
    lemma_mul_is_distributive_sub(a, c, d);
    lemma_mul_is_distributive_sub(b, c, d);
}

/// `(a + b + c) * (d + e + f)`, multiplied out.
proof fn lemma_sums(a: int, b: int, c: int, d: int, e: int, f: int)
    ensures
        (a + b + c) * (d + e + f) == a * d + a * e + a * f + b * d + b * e + b * f + c * d + c * e
            + c * f,
{
    lemma_mul_is_distributive_add_other_way(d + e + f, a + b, c);
    lemma_mul_is_distributive_add_other_way(d + e + f, a, b);
    lemma_mul_is_distributive_add(a, d + e, f);
    lemma_mul_is_distributive_add(a, d, e);
    lemma_mul_is_distributive_add(b, d + e, f);
    lemma_mul_is_distributive_add(b, d, e);
    lemma_mul_is_distributive_add(c, d + e, f);
    lemma_mul_is_distributive_add(c, d, e);
}

/// The two-by-two minors of a product of matrices.
proof fn lemma_lagrange(
    v: Quadratic,
    w: Quadratic,
    p0: int,
    p1: int,
    p2: int,
    q0: int,
    q1: int,
    q2: int,
)
    ensures
        (v.c0 * p0 + v.c1 * p1 + v.c2 * p2) * (w.c0 * q0 + w.c1 * q1 + w.c2 * q2) - (v.c0 * q0
            + v.c1 * q1 + v.c2 * q2) * (w.c0 * p0 + w.c1 * p1 + w.c2 * p2) == v.cross(w).c0 * (p1
            * q2 - q1 * p2) + v.cross(w).c1 * (p2 * q0 - q2 * p0) + v.cross(w).c2 * (p0 * q1 - q0
            * p1),
{
    lemma_sums(v.c0 * p0, v.c1 * p1, v.c2 * p2, w.c0 * q0, w.c1 * q1, w.c2 * q2);
    lemma_sums(v.c0 * q0, v.c1 * q1, v.c2 * q2, w.c0 * p0, w.c1 * p1, w.c2 * p2);
    lemma_interchange(v.c0, p0, w.c0, q0);
    lemma_interchange(v.c0, p0, w.c1, q1);
    lemma_interchange(v.c0, p0, w.c2, q2);
    lemma_interchange(v.c1, p1, w.c0, q0);
    lemma_interchange(v.c1, p1, w.c1, q1);
    lemma_interchange(v.c1, p1, w.c2, q2);
    lemma_interchange(v.c2, p2, w.c0, q0);
    lemma_interchange(v.c2, p2, w.c1, q1);
    lemma_interchange(v.c2, p2, w.c2, q2);
    lemma_interchange(v.c0, q0, w.c0, p0);
    lemma_interchange(v.c0, q0, w.c1, p1);
    lemma_interchange(v.c0, q0, w.c2, p2);
    lemma_interchange(v.c1, q1, w.c0, p0);
    lemma_interchange(v.c1, q1, w.c1, p1);
    lemma_interchange(v.c1, q1, w.c2, p2);
    lemma_interchange(v.c2, q2, w.c0, p0);
    lemma_interchange(v.c2, q2, w.c1, p1);
    lemma_interchange(v.c2, q2, w.c2, p2);
    lemma_mul_is_commutative(p0, q0);
    lemma_mul_is_commutative(p1, q1);
    lemma_mul_is_commutative(p2, q2);
    lemma_mul_is_commutative(p0, q1);
    lemma_mul_is_commutative(p0, q2);
    lemma_mul_is_commutative(p1, q0);
    lemma_mul_is_commutative(p1, q2);
    lemma_mul_is_commutative(p2, q0);
    lemma_mul_is_commutative(p2, q1);
    lemma_foil(v.c1 * w.c2, v.c2 * w.c1, p1 * q2, q1 * p2);
    lemma_foil(v.c2 * w.c0, v.c0 * w.c2, p2 * q0, q2 * p0);
    lemma_foil(v.c0 * w.c1, v.c1 * w.c0, p0 * q1, q0 * p1);
}

/// `a * (k * b) == k * (a * b)`.
proof fn lemma_swap(a: int, k: int, b: int)
    ensures
        a * (k * b) == k * (a * b),
{
    lemma_mul_is_associative(a, k, b);
    lemma_mul_is_commutative(a, k);
    lemma_mul_is_associative(k, a, b);
}

/// The element `c0 + c1 * X + c2 * X^2`.
#[derive(Clone, Copy, Debug, PartialEq, Eq)]
pub struct XFieldElement {
    pub c0: BFieldElement,
    pub c1: BFieldElement,
    pub c2: BFieldElement,
}

impl View for XFieldElement {
    type V = Quadratic;

    open spec fn view(&self) -> Quadratic {
        Quadratic { c0: self.c0@, c1: self.c1@, c2: self.c2@ }
    }
}

impl XFieldElement {
    /// The element whose coefficients are congruent to those of `q`.
    pub open spec fn of(q: Quadratic) -> XFieldElement {
        XFieldElement {
            c0: BFieldElement::of(q.c0),
            c1: BFieldElement::of(q.c1),
            c2: BFieldElement::of(q.c2),
        }
    }

    /// The element of the subfield.
    pub fn new_const(element: BFieldElement) -> (r: XFieldElement)
        ensures
            r == (XFieldElement {
                c0: element,
                c1: BFieldElement::zero(),
                c2: BFieldElement::zero(),
            }),
            r.canonical(),
    {
        proof {
            use_type_invariant(&element);
            BFieldElement::lemma_type_invariant(element);
            BFieldElement::lemma_constants_canonical();
        }
        XFieldElement {
            c0: element,
            c1: BFieldElement::ring_zero(),
            c2: BFieldElement::ring_zero(),
        }
    }

    pub proof fn lemma_of(q: Quadratic)
        ensures
            Self::of(q).canonical(),
    {
        BFieldElement::lemma_of(q.c0);
        BFieldElement::lemma_of(q.c1);
        BFieldElement::lemma_of(q.c2);
    }

    proof fn lemma_value(a: XFieldElement)
        requires
            a.canonical(),
        ensures
            a == Self::of(a@),
    {
        BFieldElement::lemma_value(a.c0);
        BFieldElement::lemma_value(a.c1);
        BFieldElement::lemma_value(a.c2);
    }

    /// The multiple of the quotient by which reduction changes `q`.
    pub proof fn lemma_of_quotient(q: Quadratic) -> (k: Quadratic)
        ensures
            q == Self::of(q)@.plus(k.scaled(BFieldElement::QUOTIENT as int)),
    {
        let p = BFieldElement::QUOTIENT as int;
        let k0 = BFieldElement::lemma_of_quotient(q.c0);
        let k1 = BFieldElement::lemma_of_quotient(q.c1);
        let k2 = BFieldElement::lemma_of_quotient(q.c2);
        lemma_mul_is_commutative(k0, p);
        lemma_mul_is_commutative(k1, p);
        lemma_mul_is_commutative(k2, p);
        Quadratic { c0: k0, c1: k1, c2: k2 }
    }

    /// Adding a multiple of the quotient changes nothing.
    proof fn lemma_of_congruent(q: Quadratic, k: Quadratic)
        ensures
            Self::of(q.plus(k.scaled(BFieldElement::QUOTIENT as int))) == Self::of(q),
    {
        let p = BFieldElement::QUOTIENT as int;
        let r = q.plus(k.scaled(p));
        lemma_mul_is_commutative(k.c0, p);
        lemma_mul_is_commutative(k.c1, p);
        lemma_mul_is_commutative(k.c2, p);
        BFieldElement::lemma_of_congruent(r.c0, q.c0, k.c0);
        BFieldElement::lemma_of_congruent(r.c1, q.c1, k.c1);
        BFieldElement::lemma_of_congruent(r.c2, q.c2, k.c2);
    }

    /// Reducing a factor first does not change a reduced product.
    pub proof fn lemma_of_times(a: Quadratic, b: Quadratic)
        ensures
            Self::of(Self::of(a)@.times(b)) == Self::of(a.times(b)),
            Self::of(b.times(Self::of(a)@)) == Self::of(b.times(a)),
    {
        let p = BFieldElement::QUOTIENT as int;
        let r = Self::of(a)@;
        let k = Self::lemma_of_quotient(a);
        Quadratic::lemma_times_distributes(b, r, k.scaled(p));
        Quadratic::lemma_times_scaled(b, k, p);
        Self::lemma_of_congruent(r.times(b), k.times(b));
        Self::lemma_of_congruent(b.times(r), b.times(k));
    }

    /// Reducing an operand first does not change a reduced sum or difference.
    proof fn lemma_of_plus(a: Quadratic, b: Quadratic)
        ensures
            Self::of(a).plus(Self::of(b)) == Self::of(a.plus(b)),
            Self::of(a).minus(Self::of(b)) == Self::of(a.minus(b)),
    {
        BFieldElement::lemma_of_operations(a.c0, b.c0);
        BFieldElement::lemma_of_operations(a.c1, b.c1);
        BFieldElement::lemma_of_operations(a.c2, b.c2);
    }

    /// The norm of a reduced element, over the prime field.
    pub proof fn lemma_of_norm(q: Quadratic)
        ensures
            BFieldElement::of(Self::of(q)@.norm()) == BFieldElement::of(q.norm()),
    {
        let a = Self::of(q);
        Self::lemma_of(q);
        Self::lemma_value(a);
        lemma_norm_in_subfield(q);
        lemma_norm_in_subfield(a@);
    }
}

impl XFieldElement {
    /// Products of elements of the prime field stay in it.
    pub proof fn lemma_times_in_subfield(a: BFieldElement, b: BFieldElement)
        ensures
            ({
                let z = BFieldElement::zero();
                XFieldElement { c0: a, c1: z, c2: z }.times(XFieldElement { c0: b, c1: z, c2: z })
                    == (XFieldElement { c0: a.times(b), c1: z, c2: z })
            }),
    {
        let z = BFieldElement::zero();
        BFieldElement::lemma_operations(a, b);
        BFieldElement::lemma_of(0);
        let x = XFieldElement { c0: a, c1: z, c2: z };
        let y = XFieldElement { c0: b, c1: z, c2: z };
        lemma_constant_product(x@, y@);
    }
}

/// The norm, computed in the prime field.
spec fn subfield_norm(a: XFieldElement) -> BFieldElement {
    let z = BFieldElement::of(0);
    let m1 = z.minus(a.c1);
    let m2 = z.minus(a.c2);
    let s = a.c0.plus(a.c2);
    let d = m2.plus(a.c1);
    let f0 = s.times(s).minus(a.c1.times(d));
    let f1 = a.c1.times(m1).minus(m2.times(s));
    let f2 = m2.times(d).minus(s.times(m1));
    a.c0.times(f0).plus(a.c1.times(f1)).plus(a.c2.times(f2))
}

proof fn lemma_norm_in_subfield(q: Quadratic)
    ensures
        BFieldElement::of(q.norm()) == subfield_norm(XFieldElement::of(q)),
{
    let c0 = q.c0;
    let c1 = q.c1;
    let c2 = q.c2;
    let s = c0 + c2;
    let d = -c2 + c1;
    BFieldElement::lemma_of_operations(0, c1);
    BFieldElement::lemma_of_operations(0, c2);
    assert(0 - c1 == -c1 && 0 - c2 == -c2);
    BFieldElement::lemma_of_operations(c0, c2);
    BFieldElement::lemma_of_operations(-c2, c1);
    BFieldElement::lemma_of_operations(s, s);
    BFieldElement::lemma_of_operations(c1, d);
    BFieldElement::lemma_of_operations(s * s, c1 * d);
    BFieldElement::lemma_of_operations(c1, -c1);
    BFieldElement::lemma_of_operations(-c2, s);
    BFieldElement::lemma_of_operations(c1 * (-c1), (-c2) * s);
    BFieldElement::lemma_of_operations(-c2, d);
    BFieldElement::lemma_of_operations(s, -c1);
    BFieldElement::lemma_of_operations((-c2) * d, s * (-c1));
    let f0 = s * s - c1 * d;
    let f1 = c1 * (-c1) - (-c2) * s;
    let f2 = (-c2) * d - s * (-c1);
    BFieldElement::lemma_of_operations(c0, f0);
    BFieldElement::lemma_of_operations(c1, f1);
    BFieldElement::lemma_of_operations(c2, f2);
    BFieldElement::lemma_of_operations(c0 * f0, c1 * f1);
    BFieldElement::lemma_of_operations(c0 * f0 + c1 * f1, c2 * f2);
    assert(q.norm() == c0 * f0 + c1 * f1 + c2 * f2);
}

impl PrimeField for XFieldElement {
    type Elem = XFieldElement;
}

impl FieldElement for XFieldElement {
    open spec fn canonical(self) -> bool {
        self.c0.canonical() && self.c1.canonical() && self.c2.canonical()
    }

    open spec fn zero() -> Self {
        Self::of(Quadratic { c0: 0, c1: 0, c2: 0 })
    }

    open spec fn one() -> Self {
        Self::of(Quadratic { c0: 1, c1: 0, c2: 0 })
    }

    open spec fn plus(self, other: Self) -> Self {
        XFieldElement {
            c0: self.c0.plus(other.c0),
            c1: self.c1.plus(other.c1),
            c2: self.c2.plus(other.c2),
        }
    }

    open spec fn minus(self, other: Self) -> Self {
        XFieldElement {
            c0: self.c0.minus(other.c0),
            c1: self.c1.minus(other.c1),
            c2: self.c2.minus(other.c2),
        }
    }

    open spec fn times(self, other: Self) -> Self {
        Self::of(self@.times(other@))
    }

    open spec fn encoding(self) -> Seq<u8> {
        self.c0.encoding() + self.c1.encoding() + self.c2.encoding()
    }

    open spec fn encoding_len() -> nat {
        24
    }

    open spec fn sampled(digest: Seq<u8>) -> Self {
        XFieldElement {
            c0: BFieldElement::of(le_value(digest.subrange(0, 8)) as int),
            c1: BFieldElement::of(le_value(digest.subrange(8, 16)) as int),
            c2: BFieldElement::of(le_value(digest.subrange(16, 24)) as int),
        }
    }

    proof fn lemma_constants_canonical() {
        BFieldElement::lemma_constants_canonical();
        BFieldElement::lemma_operations(BFieldElement::zero(), BFieldElement::zero());
    }

    proof fn lemma_closed(a: Self, b: Self) {
        BFieldElement::lemma_closed(a.c0, b.c0);
        BFieldElement::lemma_closed(a.c1, b.c1);
        BFieldElement::lemma_closed(a.c2, b.c2);
        Self::lemma_of(a@.times(b@));
    }

    proof fn lemma_plus_commutes(a: Self, b: Self) {
        BFieldElement::lemma_plus_commutes(a.c0, b.c0);
        BFieldElement::lemma_plus_commutes(a.c1, b.c1);
        BFieldElement::lemma_plus_commutes(a.c2, b.c2);
    }

    proof fn lemma_plus_associates(a: Self, b: Self, c: Self) {
        BFieldElement::lemma_plus_associates(a.c0, b.c0, c.c0);
        BFieldElement::lemma_plus_associates(a.c1, b.c1, c.c1);
        BFieldElement::lemma_plus_associates(a.c2, b.c2, c.c2);
    }

    proof fn lemma_plus_zero(a: Self) {
        BFieldElement::lemma_plus_zero(a.c0);
        BFieldElement::lemma_plus_zero(a.c1);
        BFieldElement::lemma_plus_zero(a.c2);
        BFieldElement::lemma_operations(a.c0, a.c0);
    }

    proof fn lemma_minus_undoes_plus(a: Self, b: Self) {
        BFieldElement::lemma_minus_undoes_plus(a.c0, b.c0);
        BFieldElement::lemma_minus_undoes_plus(a.c1, b.c1);
        BFieldElement::lemma_minus_undoes_plus(a.c2, b.c2);
    }

    proof fn lemma_times_commutes(a: Self, b: Self) {
        Quadratic::lemma_times_commutes(a@, b@);
    }

    proof fn lemma_times_associates(a: Self, b: Self, c: Self) {
        Self::lemma_of_times(a@.times(b@), c@);
        Self::lemma_of_times(b@.times(c@), a@);
        Quadratic::lemma_times_associates(a@, b@, c@);
    }

    proof fn lemma_times_one(a: Self) {
        let u = Quadratic { c0: 1, c1: 0, c2: 0 };
        Self::lemma_of_times(u, a@);
        lemma_mul_basics(a@.c0);
        lemma_mul_basics(a@.c1);
        lemma_mul_basics(a@.c2);
        assert(a@.times(u) == a@);
        Self::lemma_value(a);
    }

    proof fn lemma_times_distributes(a: Self, b: Self, c: Self) {
        BFieldElement::lemma_operations(b.c0, c.c0);
        BFieldElement::lemma_operations(b.c1, c.c1);
        BFieldElement::lemma_operations(b.c2, c.c2);
        assert(b.plus(c) == Self::of(b@.plus(c@)));
        Self::lemma_of_times(b@.plus(c@), a@);
        Quadratic::lemma_times_distributes(a@, b@, c@);
        Self::lemma_of_plus(a@.times(b@), a@.times(c@));
    }

    proof fn lemma_half() -> (half: Self) {
        let h = BFieldElement::lemma_half();
        let two = BFieldElement::one().plus(BFieldElement::one());
        let z = BFieldElement::zero();
        BFieldElement::lemma_constants_canonical();
        BFieldElement::lemma_operations(two, h);
        BFieldElement::lemma_operations(z, z);
        BFieldElement::lemma_of(0);
        BFieldElement::lemma_plus_zero(z);
        let half = XFieldElement { c0: h, c1: z, c2: z };
        let twice = Self::one().plus(Self::one());
        assert(z@ == 0);
        assert(twice.c0 == two);
        assert(twice.c1 == z && twice.c2 == z);
        lemma_constant_product(twice@, half@);
        assert(twice@.times(half@) == (Quadratic { c0: twice@.c0 * half@.c0, c1: 0, c2: 0 }));
        half
    }

    proof fn lemma_encoding_len(a: Self) {
        BFieldElement::lemma_encoding_len(a.c0);
        BFieldElement::lemma_encoding_len(a.c1);
        BFieldElement::lemma_encoding_len(a.c2);
    }

    proof fn lemma_encoding_injective(a: Self, b: Self) {
        lemma_encoding_parts(a);
        lemma_encoding_parts(b);
        BFieldElement::lemma_encoding_injective(a.c0, b.c0);
        BFieldElement::lemma_encoding_injective(a.c1, b.c1);
        BFieldElement::lemma_encoding_injective(a.c2, b.c2);
    }

    proof fn lemma_sampled_canonical(digest: Seq<u8>) {
        BFieldElement::lemma_of(le_value(digest.subrange(0, 8)) as int);
        BFieldElement::lemma_of(le_value(digest.subrange(8, 16)) as int);
        BFieldElement::lemma_of(le_value(digest.subrange(16, 24)) as int);
    }

    fn ring_zero() -> (r: Self) {
        proof {
            BFieldElement::lemma_operations(BFieldElement::zero(), BFieldElement::zero());
        }
        XFieldElement {
            c0: BFieldElement::ring_zero(),
            c1: BFieldElement::ring_zero(),
            c2: BFieldElement::ring_zero(),
        }
    }

    fn ring_one() -> (r: Self) {
        proof {
            BFieldElement::lemma_operations(BFieldElement::zero(), BFieldElement::zero());
        }
        XFieldElement {
            c0: BFieldElement::ring_one(),
            c1: BFieldElement::ring_zero(),
            c2: BFieldElement::ring_zero(),
        }
    }

    fn add(self, other: Self) -> (r: Self) {
        XFieldElement {
            c0: self.c0.add(other.c0),
            c1: self.c1.add(other.c1),
            c2: self.c2.add(other.c2),
        }
    }

    fn sub(self, other: Self) -> (r: Self) {
        XFieldElement {
            c0: self.c0.sub(other.c0),
            c1: self.c1.sub(other.c1),
            c2: self.c2.sub(other.c2),
        }
    }

    fn mul(self, other: Self) -> (r: Self) {
        let a: XFieldElement = self;
        let b: XFieldElement = other;
        let p00: BFieldElement = checked_mul(a.c0, b.c0);
        let p01: BFieldElement = checked_mul(a.c0, b.c1);
        let p02: BFieldElement = checked_mul(a.c0, b.c2);
        let p10: BFieldElement = checked_mul(a.c1, b.c0);
        let p11: BFieldElement = checked_mul(a.c1, b.c1);
        let p12: BFieldElement = checked_mul(a.c1, b.c2);
        let p20: BFieldElement = checked_mul(a.c2, b.c0);
        let p21: BFieldElement = checked_mul(a.c2, b.c1);
        let p22: BFieldElement = checked_mul(a.c2, b.c2);
        let c0: BFieldElement = checked_sub(checked_sub(p00, p12), p21);
        let c1: BFieldElement = checked_sub(
            checked_add(checked_add(checked_add(p01, p10), p12), p21),
            p22,
        );
        let c2: BFieldElement = checked_add(checked_add(checked_add(p02, p11), p20), p22);
        proof {
            let u = a@;
            let v = b@;
            BFieldElement::lemma_of_operations(u.c0 * v.c0, u.c1 * v.c2);
            BFieldElement::lemma_of_operations(u.c0 * v.c0 - u.c1 * v.c2, u.c2 * v.c1);
            BFieldElement::lemma_of_operations(u.c0 * v.c1, u.c1 * v.c0);
            BFieldElement::lemma_of_operations(u.c0 * v.c1 + u.c1 * v.c0, u.c1 * v.c2);
            BFieldElement::lemma_of_operations(
                u.c0 * v.c1 + u.c1 * v.c0 + u.c1 * v.c2,
                u.c2 * v.c1,
            );
            BFieldElement::lemma_of_operations(
                u.c0 * v.c1 + u.c1 * v.c0 + u.c1 * v.c2 + u.c2 * v.c1,
                u.c2 * v.c2,
            );
            BFieldElement::lemma_of_operations(u.c0 * v.c2, u.c1 * v.c1);
            BFieldElement::lemma_of_operations(u.c0 * v.c2 + u.c1 * v.c1, u.c2 * v.c0);
            BFieldElement::lemma_of_operations(
                u.c0 * v.c2 + u.c1 * v.c1 + u.c2 * v.c0,
                u.c2 * v.c2,
            );
        }
        XFieldElement { c0, c1, c2 }
    }

    fn inverse(self) -> (r: Option<Self>) {
        let a: XFieldElement = self;
        let z: BFieldElement = BFieldElement::ring_zero();
        proof {
            BFieldElement::lemma_constants_canonical();
            BFieldElement::lemma_operations(z, z);
            BFieldElement::lemma_value(a.c0);
            BFieldElement::lemma_value(a.c1);
            BFieldElement::lemma_value(a.c2);
        }
        let m1: BFieldElement = checked_sub(z, a.c1);
        let m2: BFieldElement = checked_sub(z, a.c2);
        let s: BFieldElement = checked_add(a.c0, a.c2);
        let d: BFieldElement = checked_add(m2, a.c1);
        // the first components of the cross products of the shifts
        let f0: BFieldElement = checked_sub(checked_mul(s, s), checked_mul(a.c1, d));
        let f1: BFieldElement = checked_sub(checked_mul(a.c1, m1), checked_mul(m2, s));
        let f2: BFieldElement = checked_sub(checked_mul(m2, d), checked_mul(s, m1));
        let norm: BFieldElement = checked_add(
            checked_add(checked_mul(a.c0, f0), checked_mul(a.c1, f1)),
            checked_mul(a.c2, f2),
        );
        let v1: BFieldElement = checked_sub(checked_mul(d, a.c2), checked_mul(s, a.c1));
        let v2: BFieldElement = checked_sub(checked_mul(a.c1, a.c1), checked_mul(a.c2, s));
        proof {
            lemma_norm_in_subfield(a@);
            assert(norm == BFieldElement::of(a@.norm()));
            lemma_cofactor_in_subfield(a, f0, v1, v2);
        }
        match norm.inverse() {
            Some(m) => {
                let r: XFieldElement = XFieldElement {
                    c0: checked_mul(f0, m),
                    c1: checked_mul(v1, m),
                    c2: checked_mul(v2, m),
                };
                proof {
                    lemma_inverse_by_norm(a, m, r);
                }
                Some(r)
            },
            None => {
                proof {
                    assert forall|b: Self| #[trigger] a.times(b) != Self::one() by {
                        if a.times(b) == Self::one() {
                            lemma_norm_of_unit(a, b);
                        }
                    }
                }
                None
            },
        }
    }

    fn equals(self, other: Self) -> (r: bool) {
        self.c0.equals(other.c0) && self.c1.equals(other.c1) && self.c2.equals(other.c2)
    }

    fn encoded_len() -> (r: usize) {
        24
    }

    fn encode(self, out: &mut Vec<u8>) {
        self.c0.encode(out);
        self.c1.encode(out);
        self.c2.encode(out);
        proof {
            assert(out@ =~= old(out)@ + self.encoding());
        }
    }

    fn decode(bytes: &[u8], at: usize) -> (r: Option<Self>) {
        let len: usize = bytes.len();
        let ghost whole: Seq<u8> = bytes@.subrange(at as int, at + 24);
        proof {
            assert(whole.subrange(0, 8) =~= bytes@.subrange(at as int, at + 8));
            assert(whole.subrange(8, 16) =~= bytes@.subrange(at + 8, at + 16));
            assert(whole.subrange(16, 24) =~= bytes@.subrange(at + 16, at + 24));
            assert forall|a: Self| a.canonical() && #[trigger] a.encoding() == whole implies
                a.c0.encoding() == whole.subrange(0, 8)
                && a.c1.encoding() == whole.subrange(8, 16)
                && a.c2.encoding() == whole.subrange(16, 24) by {
                lemma_encoding_parts(a);
            }
        }
        match (
            BFieldElement::decode(bytes, at),
            BFieldElement::decode(bytes, at + 8),
            BFieldElement::decode(bytes, at + 16),
        ) {
            (Some(c0), Some(c1), Some(c2)) => {
                let a: XFieldElement = XFieldElement { c0, c1, c2 };
                proof {
                    assert(a.encoding() =~= whole);
                }
                Some(a)
            },
            _ => None,
        }
    }

    fn sample(digest: &[u8; 32]) -> (r: Self) {
        XFieldElement {
            c0: BFieldElement::new(read_u64(digest, 0)),
            c1: BFieldElement::new(read_u64(digest, 8)),
            c2: BFieldElement::new(read_u64(digest, 16)),
        }
    }
}

fn checked_add(a: BFieldElement, b: BFieldElement) -> (r: BFieldElement)
    requires
        a.canonical(),
        b.canonical(),
    ensures
        r == a.plus(b),
        r == BFieldElement::of(a@ + b@),
        r.canonical(),
{
    proof {
        BFieldElement::lemma_closed(a, b);
        BFieldElement::lemma_operations(a, b);
    }
    a.add(b)
}

fn checked_sub(a: BFieldElement, b: BFieldElement) -> (r: BFieldElement)
    requires
        a.canonical(),
        b.canonical(),
    ensures
        r == a.minus(b),
        r == BFieldElement::of(a@ - b@),
        r.canonical(),
{
    proof {
        BFieldElement::lemma_closed(a, b);
        BFieldElement::lemma_operations(a, b);
    }
    a.sub(b)
}

fn checked_mul(a: BFieldElement, b: BFieldElement) -> (r: BFieldElement)
    requires
        a.canonical(),
        b.canonical(),
    ensures
        r == a.times(b),
        r == BFieldElement::of(a@ * b@),
        r.canonical(),
{
    proof {
        BFieldElement::lemma_closed(a, b);
        BFieldElement::lemma_operations(a, b);
    }
    a.mul(b)
}

proof fn lemma_encoding_parts(a: XFieldElement)
    ensures
        a.encoding().subrange(0, 8) == a.c0.encoding(),
        a.encoding().subrange(8, 16) == a.c1.encoding(),
        a.encoding().subrange(16, 24) == a.c2.encoding(),
{
    BFieldElement::lemma_encoding_len(a.c0);
    BFieldElement::lemma_encoding_len(a.c1);
    BFieldElement::lemma_encoding_len(a.c2);
    assert(a.encoding().subrange(0, 8) =~= a.c0.encoding());
    assert(a.encoding().subrange(8, 16) =~= a.c1.encoding());
    assert(a.encoding().subrange(16, 24) =~= a.c2.encoding());
}

/// The cofactor, computed in the prime field.
proof fn lemma_cofactor_in_subfield(
    a: XFieldElement,
    f0: BFieldElement,
    v1: BFieldElement,
    v2: BFieldElement,
)
    requires
        a.canonical(),
        ({
            let s = a.c0.plus(a.c2);
            let d = BFieldElement::of(0).minus(a.c2).plus(a.c1);
            &&& f0 == s.times(s).minus(a.c1.times(d))
            &&& v1 == d.times(a.c2).minus(s.times(a.c1))
            &&& v2 == a.c1.times(a.c1).minus(a.c2.times(s))
        }),
    ensures
        XFieldElement::of(a@.cofactor()) == (XFieldElement { c0: f0, c1: v1, c2: v2 }),
{
    let c0 = a@.c0;
    let c1 = a@.c1;
    let c2 = a@.c2;
    let s = c0 + c2;
    let d = -c2 + c1;
    XFieldElement::lemma_value(a);
    BFieldElement::lemma_of_operations(0, c2);
    assert(0 - c2 == -c2);
    BFieldElement::lemma_of_operations(c0, c2);
    BFieldElement::lemma_of_operations(-c2, c1);
    BFieldElement::lemma_of_operations(s, s);
    BFieldElement::lemma_of_operations(c1, d);
    BFieldElement::lemma_of_operations(s * s, c1 * d);
    BFieldElement::lemma_of_operations(d, c2);
    BFieldElement::lemma_of_operations(s, c1);
    BFieldElement::lemma_of_operations(d * c2, s * c1);
    BFieldElement::lemma_of_operations(c1, c1);
    BFieldElement::lemma_of_operations(c2, s);
    BFieldElement::lemma_of_operations(c1 * c1, c2 * s);
    assert(a@.cofactor() == (Quadratic {
        c0: s * s - c1 * d,
        c1: d * c2 - s * c1,
        c2: c1 * c1 - c2 * s,
    }));
}

/// The cofactor divided by the norm is the inverse.
proof fn lemma_inverse_by_norm(a: XFieldElement, m: BFieldElement, r: XFieldElement)
    requires
        a.canonical(),
        m.canonical(),
        BFieldElement::of(a@.norm()).times(m) == BFieldElement::one(),
        ({
            let v = XFieldElement::of(a@.cofactor());
            r == (XFieldElement { c0: v.c0.times(m), c1: v.c1.times(m), c2: v.c2.times(m) })
        }),
    ensures
        r.canonical(),
        a.times(r) == XFieldElement::one(),
{
    let q = a@.cofactor();
    let w = q.scaled(m@);
    BFieldElement::lemma_value(m);
    BFieldElement::lemma_of_operations(q.c0, m@);
    BFieldElement::lemma_of_operations(q.c1, m@);
    BFieldElement::lemma_of_operations(q.c2, m@);
    lemma_mul_is_commutative(m@, q.c0);
    lemma_mul_is_commutative(m@, q.c1);
    lemma_mul_is_commutative(m@, q.c2);
    assert(r == XFieldElement::of(w));
    XFieldElement::lemma_of(w);
    XFieldElement::lemma_of_times(w, a@);
    Quadratic::lemma_times_scaled(a@, q, m@);
    Quadratic::lemma_times_commutes(a@, q);
    Quadratic::lemma_cofactor(a@);
    let n = a@.norm();
    assert(a@.times(w) == (Quadratic { c0: m@ * n, c1: m@ * 0, c2: m@ * 0 }));
    lemma_mul_basics(m@);
    lemma_mul_is_commutative(m@, n);
    BFieldElement::lemma_of_operations(n, m@);
    BFieldElement::lemma_operations(m, m);
}

/// The product of two constants.
proof fn lemma_constant_product(a: Quadratic, b: Quadratic)
    requires
        a.c1 == 0,
        a.c2 == 0,
        b.c1 == 0,
        b.c2 == 0,
    ensures
        a.times(b) == (Quadratic { c0: a.c0 * b.c0, c1: 0, c2: 0 }),
{
    assert(forall|x: int| #[trigger] (x * b.c1) == 0 && #[trigger] (x * b.c2) == 0);
    assert(forall|x: int| #[trigger] (a.c1 * x) == 0 && #[trigger] (a.c2 * x) == 0);
}

/// The triple product of the unit vectors.
proof fn lemma_norm_of_one(a: Quadratic, b: Quadratic, c: Quadratic)
    requires
        a == (Quadratic { c0: 1, c1: 0, c2: 0 }),
        b == (Quadratic { c0: 0, c1: 1, c2: 0 }),
        c == (Quadratic { c0: 0, c1: 0, c2: 1 }),
    ensures
        a.dot(b.cross(c)) == 1,
{
    lemma_mul_basics(b.c1);
    lemma_mul_basics(b.c2);
    lemma_mul_basics(b.c0);
    assert(b.c1 * c.c2 == 1 * 1);
    let d = b.cross(c);
    assert(a.c0 * d.c0 == 1 * d.c0);
    assert(a.c1 * d.c1 == 0 * d.c1);
    assert(a.c2 * d.c2 == 0 * d.c2);
    assert(b.c2 * c.c1 == 0 * c.c1);
}

/// The norm of an invertible element is invertible.
proof fn lemma_norm_of_unit(a: XFieldElement, b: XFieldElement)
    requires
        a.times(b) == XFieldElement::one(),
    ensures
        BFieldElement::of(a@.norm()).times(BFieldElement::of(b@.norm())) == BFieldElement::one(),
{
    let u = Quadratic { c0: 1, c1: 0, c2: 0 };
    let q = a@.times(b@);
    Quadratic::lemma_norm_multiplies(b@, a@);
    lemma_mul_is_commutative(b@.norm(), a@.norm());
    BFieldElement::lemma_of_operations(a@.norm(), b@.norm());
    XFieldElement::lemma_of_norm(q);
    XFieldElement::lemma_of_norm(u);
    assert(u.shifted() == (Quadratic { c0: 0, c1: 1, c2: 0 }));
    assert(u.shifted().shifted() == (Quadratic { c0: 0, c1: 0, c2: 1 }));
    lemma_norm_of_one(u, u.shifted(), u.shifted().shifted());
    BFieldElement::lemma_operations(BFieldElement::zero(), BFieldElement::zero());
}

} // verus!
