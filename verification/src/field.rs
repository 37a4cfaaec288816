//! The algebra that the proximity test needs of its elements: a commutative
//! ring with one in which two is invertible, together with a byte encoding.

use vstd::prelude::*;

verus! {

/// An element of a finite field.
///
/// `plus`, `minus` and `times` give the mathematical meaning of the executable
/// `add`, `sub` and `mul`. Only *canonical* elements stand for a field element;
/// every operation returns a canonical one.
pub trait FieldElement: Sized + Copy {
    /// Whether the representation is the reduced one.
    spec fn canonical(self) -> bool;

    spec fn zero() -> Self;

    spec fn one() -> Self;

    spec fn plus(self, other: Self) -> Self;

    spec fn minus(self, other: Self) -> Self;

    spec fn times(self, other: Self) -> Self;

    /// The byte encoding of an element.
    spec fn encoding(self) -> Seq<u8>;

    /// The length that every encoding has.
    spec fn encoding_len() -> nat;

    /// The element that a 32-byte digest determines.
    spec fn sampled(digest: Seq<u8>) -> Self;

    proof fn lemma_constants_canonical()
        ensures
            Self::zero().canonical(),
            Self::one().canonical(),
            Self::zero() != Self::one(),
    ;

    proof fn lemma_closed(a: Self, b: Self)
        ensures
            a.plus(b).canonical(),
            a.minus(b).canonical(),
            a.times(b).canonical(),
    ;

    proof fn lemma_plus_commutes(a: Self, b: Self)
        ensures
            a.plus(b) == b.plus(a),
    ;

    proof fn lemma_plus_associates(a: Self, b: Self, c: Self)
        ensures
            a.plus(b).plus(c) == a.plus(b.plus(c)),
    ;

    proof fn lemma_plus_zero(a: Self)
        requires
            a.canonical(),
        ensures
            a.plus(Self::zero()) == a,
    ;

    proof fn lemma_minus_undoes_plus(a: Self, b: Self)
        requires
            a.canonical(),
        ensures
            a.plus(b).minus(b) == a,
            a.minus(b).plus(b) == a,
    ;

    proof fn lemma_times_commutes(a: Self, b: Self)
        ensures
            a.times(b) == b.times(a),
    ;

    proof fn lemma_times_associates(a: Self, b: Self, c: Self)
        ensures
            a.times(b).times(c) == a.times(b.times(c)),
    ;

    proof fn lemma_times_one(a: Self)
        requires
            a.canonical(),
        ensures
            a.times(Self::one()) == a,
    ;

    proof fn lemma_times_distributes(a: Self, b: Self, c: Self)
        ensures
            a.times(b.plus(c)) == a.times(b).plus(a.times(c)),
    ;

    /// Two has an inverse.
    proof fn lemma_half() -> (half: Self)
        ensures
            half.canonical(),
            Self::one().plus(Self::one()).times(half) == Self::one(),
    ;

    proof fn lemma_encoding_len(a: Self)
        ensures
            a.encoding().len() == Self::encoding_len(),
            8 <= Self::encoding_len() <= 1024,
    ;

    proof fn lemma_encoding_injective(a: Self, b: Self)
        requires
            a.canonical(),
            b.canonical(),
            a.encoding() == b.encoding(),
        ensures
            a == b,
    ;

    proof fn lemma_sampled_canonical(digest: Seq<u8>)
        ensures
            Self::sampled(digest).canonical(),
    ;

    fn ring_zero() -> (r: Self)
        ensures
            r == Self::zero(),
    ;

    fn ring_one() -> (r: Self)
        ensures
            r == Self::one(),
    ;

    fn add(self, other: Self) -> (r: Self)
        requires
            self.canonical(),
            other.canonical(),
        ensures
            r == self.plus(other),
    ;

    fn sub(self, other: Self) -> (r: Self)
        requires
            self.canonical(),
            other.canonical(),
        ensures
            r == self.minus(other),
    ;

    fn mul(self, other: Self) -> (r: Self)
        requires
            self.canonical(),
            other.canonical(),
        ensures
            r == self.times(other),
    ;

    /// The inverse, where there is one.
    fn inverse(self) -> (r: Option<Self>)
        requires
            self.canonical(),
        ensures
            r matches Some(b) ==> b.canonical() && self.times(b) == Self::one(),
            r is None ==> forall|b: Self| #[trigger] self.times(b) != Self::one(),
    ;

    fn equals(self, other: Self) -> (r: bool)
        ensures
            r == (self == other),
    ;

    fn encoded_len() -> (r: usize)
        ensures
            r == Self::encoding_len(),
    ;

    /// Appends the encoding to `out`.
    fn encode(self, out: &mut Vec<u8>)
        ensures
            final(out)@ == old(out)@ + self.encoding(),
    ;

    /// Reads the element whose encoding starts at `at`; `None` where the bytes
    /// there are no canonical element's encoding.
    fn decode(bytes: &[u8], at: usize) -> (r: Option<Self>)
        requires
            at + Self::encoding_len() <= bytes@.len(),
        ensures
            r matches Some(a) ==> a.canonical() && a.encoding() == bytes@.subrange(
                at as int,
                at + Self::encoding_len(),
            ),
            r is None ==> forall|a: Self|
                a.canonical() ==> #[trigger] a.encoding() != bytes@.subrange(
                    at as int,
                    at + Self::encoding_len(),
                ),
    ;

    fn sample(digest: &[u8; 32]) -> (r: Self)
        ensures
            r == Self::sampled(digest@),
    ;
}

/// A field, by the type of its elements.
pub trait PrimeField {
    type Elem: FieldElement;
}

/// Whether every element of a sequence is canonical.
pub open spec fn all_canonical<F: FieldElement>(s: Seq<F>) -> bool {
    forall|i: int| 0 <= i < s.len() ==> (#[trigger] s[i]).canonical()
}

/// Whether `a` has a multiplicative inverse.
pub open spec fn invertible<F: FieldElement>(a: F) -> bool {
    exists|b: F| b.canonical() && #[trigger] a.times(b) == F::one()
}

/// The multiplicative inverse of an invertible `a`.
pub open spec fn inv<F: FieldElement>(a: F) -> F {
    choose|b: F| b.canonical() && #[trigger] a.times(b) == F::one()
}

/// `a` to the power of `n`.
pub open spec fn power<F: FieldElement>(a: F, n: nat) -> F
    decreases n,
{
    if n == 0 {
        F::one()
    } else {
        a.times(power(a, (n - 1) as nat))
    }
}

} // verus!
