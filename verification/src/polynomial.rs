//! Polynomials by their coefficients, lowest first.

use vstd::prelude::*;

use crate::field::{power, FieldElement};

verus! {

/// A polynomial.
pub struct Polynomial<F: FieldElement> {
    pub coefficients: Vec<F>,
}

/// The value at `x` of the polynomial with the given coefficients.
pub open spec fn evaluated<F: FieldElement>(coefficients: Seq<F>, x: F) -> F
    decreases coefficients.len(),
{
    if coefficients.len() == 0 {
        F::zero()
    } else {
        let n = (coefficients.len() - 1) as nat;
        evaluated(coefficients.drop_last(), x).plus(coefficients.last().times(power(x, n)))
    }
}

/// The largest exponent with a nonzero coefficient; minus one where all are zero.
pub open spec fn degree_of<F: FieldElement>(coefficients: Seq<F>) -> int
    decreases coefficients.len(),
{
    if coefficients.len() == 0 {
        -1
    } else if coefficients.last() != F::zero() {
        coefficients.len() - 1
    } else {
        degree_of(coefficients.drop_last())
    }
}

/// Whether three points lie on one line.
pub open spec fn colinear<F: FieldElement>(p0: (F, F), p1: (F, F), p2: (F, F)) -> bool {
    p0.0.minus(p1.0).times(p2.1.minus(p0.1)) == p0.1.minus(p1.1).times(p2.0.minus(p0.0))
}

/// A degree bound is a bound on the nonzero coefficients.
pub proof fn lemma_degree<F: FieldElement>(coefficients: Seq<F>, bound: int)
    requires
        bound >= -1,
    ensures
        degree_of(coefficients) <= bound <==> forall|k: int|
            bound < k < coefficients.len() ==> #[trigger] coefficients[k] == F::zero(),
        -1 <= degree_of(coefficients) < coefficients.len(),
    decreases coefficients.len(),
{
    if coefficients.len() > 0 {
        let shorter = coefficients.drop_last();
        lemma_degree(shorter, bound);
        if coefficients.last() == F::zero() {
            assert(forall|k: int|
                0 <= k < shorter.len() ==> #[trigger] shorter[k] == coefficients[k]);
            if degree_of(shorter) <= bound {
                assert forall|k: int| bound < k < coefficients.len() implies #[trigger]
                coefficients[k] == F::zero() by {
                    if k < shorter.len() {
                        assert(shorter[k] == F::zero());
                    }
                }
            }
        } else {
            assert(coefficients[coefficients.len() - 1] != F::zero());
        }
    }
}

impl<F: FieldElement> Polynomial<F> {
    /// The degree; `None` for the zero polynomial.
    pub fn degree(&self) -> (r: Option<usize>)
        ensures
            match r {
                Some(d) => d == degree_of(self.coefficients@),
                None => degree_of(self.coefficients@) == -1,
            },
            r matches Some(d) ==> d < self.coefficients@.len() && self.coefficients@[d as int]
                != F::zero(),
            forall|k: int|
                0 <= k < self.coefficients@.len() && #[trigger] self.coefficients@[k] != F::zero()
                    ==> (r matches Some(d) && k <= d),
    {
        let zero: F = F::ring_zero();
        let ghost c: Seq<F> = self.coefficients@;
        let mut n: usize = self.coefficients.len();
        assert(c.take(n as int) =~= c);
        while n > 0
            invariant
                n <= c.len(),
                c == self.coefficients@,
                zero == F::zero(),
                degree_of(c) == degree_of(c.take(n as int)),
                forall|k: int| n <= k < c.len() ==> #[trigger] c[k] == F::zero(),
            decreases n,
        {
            proof {
                assert(c.take(n as int).drop_last() =~= c.take(n - 1));
            }
            if !self.coefficients[n - 1].equals(zero) {
                return Some(n - 1);
            }
            n = n - 1;
        }
        None
    }

    /// Whether three points lie on one line.
    pub fn are_colinear_3(p0: (F, F), p1: (F, F), p2: (F, F)) -> (r: bool)
        requires
            p0.0.canonical(),
            p0.1.canonical(),
            p1.0.canonical(),
            p1.1.canonical(),
            p2.0.canonical(),
            p2.1.canonical(),
        ensures
            r == colinear(p0, p1, p2),
            r <==> p0.0.minus(p1.0).times(p2.1.minus(p0.1)) == p0.1.minus(p1.1).times(
                p2.0.minus(p0.0),
            ),
    {
        proof {
            F::lemma_closed(p0.0, p1.0);
            F::lemma_closed(p2.1, p0.1);
            F::lemma_closed(p0.1, p1.1);
            F::lemma_closed(p2.0, p0.0);
        }
        let dx: F = p0.0.sub(p1.0);
        let dy: F = p0.1.sub(p1.1);
        dx.mul(p2.1.sub(p0.1)).equals(dy.mul(p2.0.sub(p0.0)))
    }
}

} // verus!
