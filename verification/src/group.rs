//! Powers, cyclic groups and inverses of many elements at once.

use vstd::prelude::*;

use crate::algebra::{
    lemma_inv, lemma_inv_unique, lemma_invertible_product, lemma_one_times, lemma_power_canonical,
    lemma_power_doubles,
};
use crate::field::{all_canonical, inv, invertible, power, FieldElement};

verus! {

/// Whether `n` is the number of distinct powers of `g`.
pub open spec fn is_order<F: FieldElement>(g: F, n: nat) -> bool {
    &&& n > 0
    &&& power(g, n) == F::one()
    &&& forall|k: nat| 0 < k < n ==> #[trigger] power(g, k) != F::one()
}

/// Whether some positive power of `g`, below the limit of a length, is one.
pub open spec fn has_order<F: FieldElement>(g: F) -> bool {
    exists|n: nat| 0 < n <= usize::MAX && #[trigger] power(g, n) == F::one()
}

/// Whether the first `n` powers of `g` are different.
pub open spec fn order_at_least<F: FieldElement>(g: F, n: nat) -> bool {
    forall|k: nat| 0 < k < n ==> #[trigger] power(g, k) != F::one()
}

/// The powers of `g`, up to the first that is one again.
pub open spec fn powers<F: FieldElement>(g: F, n: nat) -> Seq<F> {
    Seq::new(n, |i: int| power(g, i as nat))
}

/// `base` to the power of `exponent`.
pub fn mod_pow_u32<F: FieldElement>(base: F, exponent: u32) -> (r: F)
    requires
        base.canonical(),
    ensures
        r == power(base, exponent as nat),
        r.canonical(),
{
    mod_pow_u64(base, exponent as u64)
}

/// `base` to the power of `exponent`.
pub fn mod_pow_u64<F: FieldElement>(base: F, exponent: u64) -> (r: F)
    requires
        base.canonical(),
    ensures
        r == power(base, exponent as nat),
        r.canonical(),
{
    let mut acc: F = F::ring_one();
    let mut square: F = base;
    let mut rest: u64 = exponent;
    proof {
        F::lemma_constants_canonical();
        lemma_power_canonical(base, exponent as nat);
        lemma_one_times(power(base, exponent as nat));
    }
    while rest > 0
        invariant
            base.canonical(),
            acc.canonical(),
            square.canonical(),
            acc.times(power(square, rest as nat)) == power(base, exponent as nat),
        decreases rest,
    {
        proof {
            let h = rest as nat / 2;
            lemma_power_doubles(square, h);
            F::lemma_closed(square, square);
            F::lemma_closed(acc, square);
            if rest % 2 == 1 {
                assert(rest as nat == 1 + 2 * h);
                assert(power(square, rest as nat) == square.times(power(square, 2 * h)));
                F::lemma_times_associates(acc, square, power(square, 2 * h));
            } else {
                assert(rest as nat == 2 * h);
            }
        }
        if rest % 2 == 1 {
            acc = acc.mul(square);
        }
        square = square.mul(square);
        rest = rest / 2;
    }
    proof {
        lemma_one_times(acc);
    }
    acc
}

/// The powers of `g`, from the zeroth up to the last before they repeat.
pub fn get_cyclic_group_elements<F: FieldElement>(g: F) -> (elements: Vec<F>)
    requires
        g.canonical(),
        has_order(g),
    ensures
        is_order(g, elements@.len()),
        elements@ == powers(g, elements@.len()),
        forall|i: int| 0 <= i < elements@.len() ==> #[trigger] elements@[i] == power(g, i as nat),
        all_canonical(elements@),
{
    let ghost bound: nat = choose|n: nat| 0 < n <= usize::MAX && #[trigger] power(g, n) == F::one();
    let one: F = F::ring_one();
    let mut elements: Vec<F> = Vec::new();
    elements.push(one);
    let mut next: F = g;
    proof {
        F::lemma_constants_canonical();
        crate::algebra::lemma_power_one(g);
        assert(elements@ =~= powers(g, 1));
    }
    while !next.equals(one)
        invariant
            g.canonical(),
            next.canonical(),
            one == F::one(),
            bound <= usize::MAX,
            power(g, bound) == F::one(),
            1 <= elements@.len() <= bound,
            elements@ == powers(g, elements@.len()),
            next == power(g, elements@.len()),
            forall|k: nat| 0 < k < elements@.len() ==> #[trigger] power(g, k) != F::one(),
        decreases bound - elements@.len(),
    {
        let ghost n: nat = elements@.len();
        elements.push(next);
        proof {
            assert(elements@ =~= powers(g, n + 1));
            F::lemma_closed(g, next);
            assert(power(g, n + 1) == g.times(power(g, n)));
            F::lemma_times_commutes(g, next);
        }
        next = next.mul(g);
    }
    proof {
        assert forall|i: int| 0 <= i < elements@.len() implies (#[trigger]
        elements@[i]).canonical() by {
            lemma_power_canonical(g, i as nat);
        }
    }
    elements
}

/// The product of the first `n` elements.
spec fn prefix_product<F: FieldElement>(s: Seq<F>, n: nat) -> F
    decreases n,
{
    if n == 0 {
        F::one()
    } else {
        prefix_product(s, (n - 1) as nat).times(s[n - 1])
    }
}

proof fn lemma_prefix_product_invertible<F: FieldElement>(s: Seq<F>, n: nat)
    requires
        n <= s.len(),
        forall|i: int| 0 <= i < s.len() ==> invertible(#[trigger] s[i]),
    ensures
        invertible(prefix_product(s, n)),
        prefix_product(s, n).canonical(),
    decreases n,
{
    F::lemma_constants_canonical();
    if n == 0 {
        lemma_one_times(F::one());
        lemma_inv_unique(F::one(), F::one());
    } else {
        lemma_prefix_product_invertible(s, (n - 1) as nat);
        F::lemma_closed(prefix_product(s, (n - 1) as nat), s[n - 1]);
        lemma_invertible_product(prefix_product(s, (n - 1) as nat), s[n - 1]);
    }
}

/// The inverses of the elements, at the cost of a single inversion.
pub fn batch_inversion<F: FieldElement>(elements: &[F]) -> (inverses: Vec<F>)
    requires
        all_canonical(elements@),
        forall|i: int| 0 <= i < elements@.len() ==> invertible(#[trigger] elements@[i]),
    ensures
        inverses@ == Seq::new(elements@.len(), |i: int| inv(elements@[i])),
        forall|i: int|
            0 <= i < elements@.len() ==> elements@[i].times(#[trigger] inverses@[i]) == F::one(),
        all_canonical(inverses@),
{
    let n: usize = elements.len();
    let ghost s: Seq<F> = elements@;
    // products of the elements before each position
    let mut scratch: Vec<F> = Vec::new();
    let mut acc: F = F::ring_one();
    let mut i: usize = 0;
    proof {
        F::lemma_constants_canonical();
    }
    while i < n
        invariant
            i <= n,
            n == s.len(),
            s == elements@,
            all_canonical(s),
            acc.canonical(),
            acc == prefix_product(s, i as nat),
            scratch@.len() == i,
            forall|j: int| 0 <= j < i ==> #[trigger] scratch@[j] == prefix_product(s, j as nat),
        decreases n - i,
    {
        scratch.push(acc);
        proof {
            F::lemma_closed(acc, s[i as int]);
        }
        acc = acc.mul(elements[i]);
        i = i + 1;
    }
    proof {
        lemma_prefix_product_invertible(s, n as nat);
        lemma_inv(acc);
    }
    // the inverse of the product of the elements before position `i`
    let mut rest: F = match acc.inverse() {
        Some(b) => b,
        None => F::ring_one(),
    };
    proof {
        lemma_inv_unique(acc, rest);
    }
    let mut i: usize = n;
    while i > 0
        invariant
            i <= n,
            n == s.len(),
            s == elements@,
            all_canonical(s),
            forall|j: int| 0 <= j < s.len() ==> invertible(#[trigger] s[j]),
            scratch@.len() == n,
            rest.canonical(),
            rest == inv(prefix_product(s, i as nat)),
            forall|j: int| 0 <= j < i ==> #[trigger] scratch@[j] == prefix_product(s, j as nat),
            forall|j: int| i <= j < n ==> #[trigger] scratch@[j] == inv(s[j]),
        decreases i,
    {
        i = i - 1;
        let ghost before: F = prefix_product(s, i as nat);
        let ghost x: F = s[i as int];
        proof {
            lemma_prefix_product_invertible(s, i as nat);
            lemma_invertible_product(before, x);
            lemma_inv(before);
            lemma_inv(x);
            // rest * before = inv(x), and rest * x = inv(before)
            F::lemma_times_commutes(inv(before), inv(x));
            F::lemma_times_associates(inv(x), inv(before), before);
            lemma_one_times(inv(x));
            F::lemma_times_associates(inv(before), inv(x), x);
            lemma_one_times(inv(before));
        }
        let inverse: F = rest.mul(scratch[i]);
        rest = rest.mul(elements[i]);
        scratch.set(i, inverse);
    }
    proof {
        assert(scratch@ =~= Seq::new(s.len(), |i: int| inv(s[i])));
        assert forall|j: int| 0 <= j < scratch@.len() implies (#[trigger]
        scratch@[j]).canonical() by {
            lemma_inv(s[j]);
        }
    }
    scratch
}

} // verus!
