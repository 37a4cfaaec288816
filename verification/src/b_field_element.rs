//! The prime field with `2^64 - 2^32 + 1` elements.

use vstd::arithmetic::div_mod::*;
use vstd::arithmetic::mul::*;
use vstd::prelude::*;

use crate::bytes::{le_bytes, le_value, push_u64, read_u64};
use crate::field::{FieldElement, PrimeField};

verus! {

/// An integer modulo [`BFieldElement::QUOTIENT`].
#[derive(Clone, Copy, Debug, PartialEq, Eq)]
pub struct BFieldElement {
    value: u64,
}

impl View for BFieldElement {
    type V = int;

    closed spec fn view(&self) -> int {
        self.value as int
    }
}

impl BFieldElement {
    /// Every element is reduced.
    #[verifier::type_invariant]
    pub closed spec fn is_reduced(&self) -> bool {
        self.value < Self::QUOTIENT
    }

    /// A reduced element is canonical.
    pub proof fn lemma_type_invariant(a: BFieldElement)
        ensures
            a.is_reduced() == a.canonical(),
    {
    }

    /// The number of elements, `2^64 - 2^32 + 1`.
    pub const QUOTIENT: u64 = 0xffff_ffff_0000_0001;

    /// The element that the integer `v` is congruent to.
    pub closed spec fn of(v: int) -> BFieldElement {
        BFieldElement { value: (v % (Self::QUOTIENT as int)) as u64 }
    }

    pub proof fn lemma_of(v: int)
        ensures
            Self::of(v)@ == v % (Self::QUOTIENT as int),
            Self::of(v).canonical(),
    {
    }

    /// Integers that differ by a multiple of the quotient give one element.
    pub proof fn lemma_of_congruent(v: int, w: int, k: int)
        requires
            v == w + k * (Self::QUOTIENT as int),
        ensures
            Self::of(v) == Self::of(w),
    {
        lemma_mul_is_commutative(k, Self::QUOTIENT as int);
        lemma_mod_multiples_vanish(k, w, Self::QUOTIENT as int);
    }

    /// An integer is its element's value plus a multiple of the quotient.
    pub proof fn lemma_of_quotient(v: int) -> (k: int)
        ensures
            v == Self::of(v)@ + k * (Self::QUOTIENT as int),
    {
        lemma_fundamental_div_mod(v, Self::QUOTIENT as int);
        lemma_mul_is_commutative(v / (Self::QUOTIENT as int), Self::QUOTIENT as int);
        v / (Self::QUOTIENT as int)
    }

    /// A canonical element is determined by its value.
    pub proof fn lemma_value(a: BFieldElement)
        ensures
            a@ >= 0,
            a.canonical() <==> a@ < Self::QUOTIENT,
            a.canonical() ==> a == Self::of(a@),
    {
        if a.canonical() {
            lemma_small_mod(a@ as nat, Self::QUOTIENT as nat);
        }
    }

    pub proof fn lemma_operations(a: BFieldElement, b: BFieldElement)
        ensures
            a.plus(b) == Self::of(a@ + b@),
            a.minus(b) == Self::of(a@ - b@),
            a.times(b) == Self::of(a@ * b@),
            Self::zero() == Self::of(0),
            Self::one() == Self::of(1),
    {
    }

    /// Reduction commutes with the ring operations.
    pub proof fn lemma_of_operations(v: int, w: int)
        ensures
            Self::of(v).plus(Self::of(w)) == Self::of(v + w),
            Self::of(v).minus(Self::of(w)) == Self::of(v - w),
            Self::of(v).times(Self::of(w)) == Self::of(v * w),
    {
        let p = Self::QUOTIENT as int;
        lemma_add_mod_noop(v, w, p);
        lemma_sub_mod_noop(v, w, p);
        lemma_mul_mod_noop(v, w, p);
    }

    /// The element congruent to `value`.
    pub fn new(value: u64) -> (r: BFieldElement)
        ensures
            r == Self::of(value as int),
            r@ == value % Self::QUOTIENT,
            r.canonical(),
    {
        BFieldElement { value: value % Self::QUOTIENT }
    }

    /// The representative below the quotient.
    pub fn value(&self) -> (v: u64)
        ensures
            v == self@,
    {
        self.value
    }
}

impl PrimeField for BFieldElement {
    type Elem = BFieldElement;
}

impl FieldElement for BFieldElement {
    closed spec fn canonical(self) -> bool {
        self.value < Self::QUOTIENT
    }

    closed spec fn zero() -> Self {
        Self::of(0)
    }

    closed spec fn one() -> Self {
        Self::of(1)
    }

    closed spec fn plus(self, other: Self) -> Self {
        Self::of(self@ + other@)
    }

    closed spec fn minus(self, other: Self) -> Self {
        Self::of(self@ - other@)
    }

    closed spec fn times(self, other: Self) -> Self {
        Self::of(self@ * other@)
    }

    open spec fn encoding(self) -> Seq<u8> {
        le_bytes(self@ as nat, 8)
    }

    open spec fn encoding_len() -> nat {
        8
    }

    open spec fn sampled(digest: Seq<u8>) -> Self {
        Self::of(le_value(digest.subrange(0, 8)) as int)
    }

    proof fn lemma_constants_canonical() {
    }

    proof fn lemma_closed(a: Self, b: Self) {
    }

    proof fn lemma_plus_commutes(a: Self, b: Self) {
    }

    proof fn lemma_plus_associates(a: Self, b: Self, c: Self) {
        let p = Self::QUOTIENT as int;
        lemma_add_mod_noop(a@ + b@, c@, p);
        lemma_add_mod_noop((a@ + b@) % p, c@, p);
        lemma_mod_twice(a@ + b@, p);
        lemma_add_mod_noop(a@, b@ + c@, p);
        lemma_add_mod_noop(a@, (b@ + c@) % p, p);
        lemma_mod_twice(b@ + c@, p);
    }

    proof fn lemma_plus_zero(a: Self) {
        lemma_small_mod(a@ as nat, Self::QUOTIENT as nat);
    }

    proof fn lemma_minus_undoes_plus(a: Self, b: Self) {
        let p = Self::QUOTIENT as int;
        lemma_small_mod(a@ as nat, Self::QUOTIENT as nat);
        lemma_sub_mod_noop(a@ + b@, b@, p);
        lemma_sub_mod_noop((a@ + b@) % p, b@, p);
        lemma_mod_twice(a@ + b@, p);
        lemma_add_mod_noop(a@ - b@, b@, p);
        lemma_add_mod_noop((a@ - b@) % p, b@, p);
        lemma_mod_twice(a@ - b@, p);
    }

    proof fn lemma_times_commutes(a: Self, b: Self) {
        lemma_mul_is_commutative(a@, b@);
    }

    proof fn lemma_times_associates(a: Self, b: Self, c: Self) {
        let p = Self::QUOTIENT as int;
        lemma_mul_mod_noop_left(a@ * b@, c@, p);
        lemma_mul_mod_noop_right(a@, b@ * c@, p);
        lemma_mul_is_associative(a@, b@, c@);
    }

    proof fn lemma_times_one(a: Self) {
        lemma_small_mod(a@ as nat, Self::QUOTIENT as nat);
        lemma_small_mod(1, Self::QUOTIENT as nat);
        assert(Self::one()@ == 1);
        assert(a@ * 1 == a@);
    }

    proof fn lemma_times_distributes(a: Self, b: Self, c: Self) {
        let p = Self::QUOTIENT as int;
        lemma_mul_mod_noop_right(a@, b@ + c@, p);
        lemma_mul_is_distributive_add(a@, b@, c@);
        lemma_add_mod_noop(a@ * b@, a@ * c@, p);
    }

    proof fn lemma_half() -> (half: Self) {
        // (p + 1) / 2
        let half = Self::of(0x7fff_ffff_8000_0001);
        assert(Self::one().plus(Self::one())@ == 2);
        half
    }

    proof fn lemma_encoding_len(a: Self) {
        crate::bytes::lemma_le_bytes_len(a@ as nat, 8);
    }

    proof fn lemma_encoding_injective(a: Self, b: Self) {
        crate::bytes::lemma_pow256_values();
        crate::bytes::lemma_le_bytes_injective(a@ as nat, b@ as nat, 8);
    }

    proof fn lemma_sampled_canonical(digest: Seq<u8>) {
    }

    fn ring_zero() -> (r: Self) {
        BFieldElement { value: 0 }
    }

    fn ring_one() -> (r: Self) {
        BFieldElement { value: 1 }
    }

    fn add(self, other: Self) -> (r: Self)
        ensures
            r@ == (self@ + other@) % (Self::QUOTIENT as int),
    {
        let s: u128 = self.value as u128 + other.value as u128;
        BFieldElement { value: (s % (Self::QUOTIENT as u128)) as u64 }
    }

    fn sub(self, other: Self) -> (r: Self)
        ensures
            r@ == (self@ - other@) % (Self::QUOTIENT as int),
    {
        let d: u128 = self.value as u128 + Self::QUOTIENT as u128 - other.value as u128;
        proof {
            lemma_mod_add_multiples_vanish(self@ - other@, Self::QUOTIENT as int);
        }
        BFieldElement { value: (d % (Self::QUOTIENT as u128)) as u64 }
    }

    fn mul(self, other: Self) -> (r: Self)
        ensures
            r@ == (self@ * other@) % (Self::QUOTIENT as int),
    {
        proof {
            lemma_mul_upper_bound(self@, u64::MAX as int, other@, u64::MAX as int);
            lemma_mul_nonnegative(self@, other@);
        }
        let m: u128 = self.value as u128 * other.value as u128;
        BFieldElement { value: (m % (Self::QUOTIENT as u128)) as u64 }
    }

    fn inverse(self) -> (r: Option<Self>) {
        invert(self)
    }

    fn equals(self, other: Self) -> (r: bool) {
        self.value == other.value
    }

    fn encoded_len() -> (r: usize) {
        8
    }

    fn encode(self, out: &mut Vec<u8>) {
        push_u64(out, self.value);
    }

    fn decode(bytes: &[u8], at: usize) -> (r: Option<Self>) {
        let v: u64 = read_u64(bytes, at);
        if v < Self::QUOTIENT {
            Some(BFieldElement { value: v })
        } else {
            proof {
                assert forall|a: Self| a.canonical() implies #[trigger] a.encoding()
                    != bytes@.subrange(at as int, at + Self::encoding_len()) by {
                    crate::bytes::lemma_pow256_values();
                    if a.encoding() == bytes@.subrange(at as int, at + Self::encoding_len()) {
                        crate::bytes::lemma_le_bytes_injective(a@ as nat, v as nat, 8);
                    }
                }
            }
            None
        }
    }

    fn sample(digest: &[u8; 32]) -> (r: Self) {
        let v: u64 = read_u64(digest, 0);
        BFieldElement::new(v)
    }
}

/// The inverse of `a`, by the extended Euclidean algorithm.
fn invert(a: BFieldElement) -> (r: Option<BFieldElement>)
    requires
        a.canonical(),
    ensures
        r matches Some(b) ==> b.canonical() && a.times(b) == BFieldElement::one(),
        r is None ==> forall|b: BFieldElement| #[trigger] a.times(b) != BFieldElement::one(),
{
    let ghost p: int = BFieldElement::QUOTIENT as int;
    // The remainders, each congruent to its cofactor times `a`.
    let mut r0: u64 = BFieldElement::QUOTIENT;
    let mut r1: u64 = a.value;
    let mut t0: BFieldElement = BFieldElement { value: 0 };
    let mut t1: BFieldElement = BFieldElement { value: 1 };
    // The quotient and `a` as combinations of the two remainders.
    let ghost mut x: int = 1;
    let ghost mut y: int = 0;
    let ghost mut u: int = 0;
    let ghost mut v: int = 1;
    // The multiples of the quotient by which the congruences are off.
    let ghost mut k0: int = -1;
    let ghost mut k1: int = 0;
    proof {
        assert(a@ * 0 == 0 && a@ * 1 == a@);
    }
    while r1 != 0
        invariant
            p == BFieldElement::QUOTIENT,
            a.canonical(),
            t0.canonical(),
            t1.canonical(),
            r0 > 0,
            r0 <= p,
            r1 <= p,
            a@ * t0@ == r0 + k0 * p,
            a@ * t1@ == r1 + k1 * p,
            p == x * r0 + y * r1,
            a@ == u * r0 + v * r1,
        decreases r1,
    {
        let q: u64 = r0 / r1;
        let r2: u64 = r0 % r1;
        let qt: BFieldElement = BFieldElement::new(q).mul(t1);
        let t2: BFieldElement = t0.sub(qt);
        proof {
            lemma_fundamental_div_mod(r0 as int, r1 as int);
            let qb = BFieldElement::of(q as int)@;
            let d1 = q as int / p;
            lemma_fundamental_div_mod(q as int, p);
            let d2 = (qb * t1@) / p;
            lemma_fundamental_div_mod(qb * t1@, p);
            let d3 = (t0@ - qt@) / p;
            lemma_fundamental_div_mod(t0@ - qt@, p);
            // t2 = t0 - q * t1 + p * e
            let e = d1 * t1@ + d2 - d3;
            assert(t2@ == t0@ - q * t1@ + p * e) by (nonlinear_arith)
                requires
                    q == p * d1 + qb,
                    qb * t1@ == p * d2 + qt@,
                    t0@ - qt@ == p * d3 + t2@,
                    e == d1 * t1@ + d2 - d3,
            ;
            let k2 = k0 - q * k1 + a@ * e;
            assert(a@ * t2@ == r2 + k2 * p) by (nonlinear_arith)
                requires
                    t2@ == t0@ - q * t1@ + p * e,
                    a@ * t0@ == r0 + k0 * p,
                    a@ * t1@ == r1 + k1 * p,
                    r0 == r1 * q + r2,
                    k2 == k0 - q * k1 + a@ * e,
            ;
            assert(p == (x * q + y) * r1 + x * r2) by (nonlinear_arith)
                requires
                    p == x * r0 + y * r1,
                    r0 == r1 * q + r2,
            ;
            assert(a@ == (u * q + v) * r1 + u * r2) by (nonlinear_arith)
                requires
                    a@ == u * r0 + v * r1,
                    r0 == r1 * q + r2,
            ;
            let nx = x * q + y;
            y = x;
            x = nx;
            let nu = u * q + v;
            v = u;
            u = nu;
            k0 = k1;
            k1 = k2;
        }
        r0 = r1;
        r1 = r2;
        t0 = t1;
        t1 = t2;
    }
    if r0 == 1 {
        proof {
            lemma_mod_multiples_vanish(k0, 1, p);
            lemma_mul_is_commutative(k0, p);
            lemma_small_mod(1, p as nat);
        }
        Some(t0)
    } else {
        proof {
            assert forall|b: BFieldElement| #[trigger] a.times(b) != BFieldElement::one() by {
                if a.times(b) == BFieldElement::one() {
                    lemma_small_mod(1, p as nat);
                    assert((a@ * b@) % p == 1);
                    let d = (a@ * b@) / p;
                    lemma_fundamental_div_mod(a@ * b@, p);
                    // r0 divides both a and p, hence 1
                    let w = u * b@ - x * d;
                    assert(r0 * w == 1) by (nonlinear_arith)
                        requires
                            a@ * b@ == p * d + 1,
                            a@ == u * r0 + v * r1,
                            p == x * r0 + y * r1,
                            r1 == 0,
                            w == u * b@ - x * d,
                    ;
                    assert(false) by (nonlinear_arith)
                        requires
                            r0 * w == 1,
                            r0 > 1,
                    ;
                }
            }
        }
        None
    }
}

} // verus!
