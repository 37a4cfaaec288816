//! The arithmetic of the two fields in terms of integers, and how their elements are
//! written and sampled.

use vstd::prelude::*;

use crate::b_field_element::BFieldElement;
use crate::bytes::{law_eight_bytes, law_value_of_eight_bytes, le_value};
use crate::field::FieldElement;
use crate::x_field_element::XFieldElement;

verus! {

/// The prime field computes with integers modulo `2^64 - 2^32 + 1`.
pub proof fn law_base_arithmetic(a: BFieldElement, b: BFieldElement)
    ensures
        0 <= a@,
        a.canonical() <==> a@ < 0xffff_ffff_0000_0001,
        a.canonical() && b.canonical() ==> (a == b <==> a@ == b@),
        a.plus(b)@ == (a@ + b@) % 0xffff_ffff_0000_0001,
        a.minus(b)@ == (a@ - b@) % 0xffff_ffff_0000_0001,
        a.times(b)@ == (a@ * b@) % 0xffff_ffff_0000_0001,
        BFieldElement::zero()@ == 0,
        BFieldElement::one()@ == 1,
{
    BFieldElement::lemma_value(a);
    BFieldElement::lemma_value(b);
    BFieldElement::lemma_operations(a, b);
    BFieldElement::lemma_of(a@ + b@);
    BFieldElement::lemma_of(a@ - b@);
    BFieldElement::lemma_of(a@ * b@);
    BFieldElement::lemma_of(0);
    BFieldElement::lemma_of(1);
}

/// An element of the prime field is written in eight bytes, lowest first.
pub proof fn law_base_encoding(a: BFieldElement)
    ensures
        ({
            let v = a@;
            a.encoding() == seq![
                (v % 0x100) as u8,
                (v / 0x100 % 0x100) as u8,
                (v / 0x1_0000 % 0x100) as u8,
                (v / 0x100_0000 % 0x100) as u8,
                (v / 0x1_0000_0000 % 0x100) as u8,
                (v / 0x100_0000_0000 % 0x100) as u8,
                (v / 0x1_0000_0000_0000 % 0x100) as u8,
                (v / 0x100_0000_0000_0000 % 0x100) as u8,
            ]
        }),
{
    BFieldElement::lemma_value(a);
    law_eight_bytes(a@ as nat);
}

/// The integer that the eight bytes of a digest from position `at` on make up.
proof fn lemma_bytes_of_digest(digest: Seq<u8>, at: int)
    requires
        0 <= at,
        at + 8 <= digest.len(),
    ensures
        le_value(digest.subrange(at, at + 8)) == digest[at] + digest[at + 1] * 0x100 + digest[at
            + 2] * 0x1_0000 + digest[at + 3] * 0x100_0000 + digest[at + 4] * 0x1_0000_0000
            + digest[at + 5] * 0x100_0000_0000 + digest[at + 6] * 0x1_0000_0000_0000 + digest[at
            + 7] * 0x100_0000_0000_0000,
{
    law_value_of_eight_bytes(digest.subrange(at, at + 8));
}

/// An element of the prime field is sampled from the first eight bytes of a digest, as
/// a number with the lowest byte first.
pub proof fn law_base_sample(digest: Seq<u8>)
    requires
        digest.len() == 32,
    ensures
        BFieldElement::sampled(digest)@ == (digest[0] + digest[1] * 0x100 + digest[2] * 0x1_0000
            + digest[3] * 0x100_0000 + digest[4] * 0x1_0000_0000 + digest[5] * 0x100_0000_0000
            + digest[6] * 0x1_0000_0000_0000 + digest[7] * 0x100_0000_0000_0000)
            % 0xffff_ffff_0000_0001,
{
    lemma_bytes_of_digest(digest, 0);
    BFieldElement::lemma_of(le_value(digest.subrange(0, 8)) as int);
}

/// The extension field computes with polynomials of degree below three over the prime
/// field, modulo `X^3 - X + 1`.
pub proof fn law_extension_arithmetic(a: XFieldElement, b: XFieldElement)
    ensures
        a.canonical() <==> a.c0.canonical() && a.c1.canonical() && a.c2.canonical(),
        a.plus(b).c0 == a.c0.plus(b.c0),
        a.plus(b).c1 == a.c1.plus(b.c1),
        a.plus(b).c2 == a.c2.plus(b.c2),
        a.minus(b).c0 == a.c0.minus(b.c0),
        a.minus(b).c1 == a.c1.minus(b.c1),
        a.minus(b).c2 == a.c2.minus(b.c2),
        a.times(b).c0@ == (a.c0@ * b.c0@ - a.c1@ * b.c2@ - a.c2@ * b.c1@)
            % 0xffff_ffff_0000_0001,
        a.times(b).c1@ == (a.c0@ * b.c1@ + a.c1@ * b.c0@ + a.c1@ * b.c2@ + a.c2@ * b.c1@ - a.c2@
            * b.c2@) % 0xffff_ffff_0000_0001,
        a.times(b).c2@ == (a.c0@ * b.c2@ + a.c1@ * b.c1@ + a.c2@ * b.c0@ + a.c2@ * b.c2@)
            % 0xffff_ffff_0000_0001,
        XFieldElement::zero().c0@ == 0,
        XFieldElement::zero().c1@ == 0,
        XFieldElement::zero().c2@ == 0,
        XFieldElement::one().c0@ == 1,
        XFieldElement::one().c1@ == 0,
        XFieldElement::one().c2@ == 0,
{
    let q = a@.times(b@);
    BFieldElement::lemma_of(q.c0);
    BFieldElement::lemma_of(q.c1);
    BFieldElement::lemma_of(q.c2);
    BFieldElement::lemma_of(0);
    BFieldElement::lemma_of(1);
}

/// In the extension field `X^3` is `X - 1`, and the elements without higher terms
/// multiply as those of the prime field do.
pub proof fn law_extension_of_the_prime_field(
    x: XFieldElement,
    a: BFieldElement,
    b: BFieldElement,
    element: XFieldElement,
)
    requires
        x.c0 == BFieldElement::zero(),
        x.c1 == BFieldElement::one(),
        x.c2 == BFieldElement::zero(),
        a.canonical(),
        b.canonical(),
        element.canonical(),
    ensures
        x.times(x).times(x) == x.minus(XFieldElement::one()),
        ({
            let zero = BFieldElement::zero();
            let embedded = |c: BFieldElement| XFieldElement { c0: c, c1: zero, c2: zero };
            &&& embedded(a).times(embedded(b)) == embedded(a.times(b))
            &&& embedded(a).plus(embedded(b)) == embedded(a.plus(b))
            &&& element == embedded(element.c0).plus(embedded(element.c1).times(x)).plus(
                embedded(element.c2).times(x.times(x)),
            )
        }),
{
    let zero = BFieldElement::zero();
    let u = XFieldElement { c0: a, c1: zero, c2: zero };
    let v = XFieldElement { c0: b, c1: zero, c2: zero };
    let e0 = XFieldElement { c0: element.c0, c1: zero, c2: zero };
    let e1 = XFieldElement { c0: element.c1, c1: zero, c2: zero };
    let e2 = XFieldElement { c0: element.c2, c1: zero, c2: zero };
    BFieldElement::lemma_constants_canonical();
    law_base_arithmetic(a, b);
    law_base_arithmetic(zero, zero);
    law_base_arithmetic(element.c0, element.c1);
    law_base_arithmetic(element.c1, element.c2);
    law_base_arithmetic(element.c2, element.c0);
    // the cube
    law_extension_arithmetic(x, x);
    let square = x.times(x);
    XFieldElement::lemma_closed(x, x);
    law_extension_arithmetic(square, x);
    XFieldElement::lemma_closed(square, x);
    let one = XFieldElement::one();
    XFieldElement::lemma_constants_canonical();
    law_extension_arithmetic(x, one);
    XFieldElement::lemma_closed(x, one);
    lemma_same(square.times(x).c0, x.minus(one).c0);
    lemma_same(square.times(x).c1, x.minus(one).c1);
    lemma_same(square.times(x).c2, x.minus(one).c2);
    law_base_arithmetic(x.c0, one.c0);
    law_base_arithmetic(x.c1, one.c1);
    law_base_arithmetic(x.c2, one.c2);
    // products and sums of constants
    law_extension_arithmetic(u, v);
    XFieldElement::lemma_closed(u, v);
    BFieldElement::lemma_closed(a, b);
    lemma_same(u.times(v).c0, a.times(b));
    lemma_same(u.times(v).c1, zero);
    lemma_same(u.times(v).c2, zero);
    lemma_same(u.plus(v).c1, zero);
    // the three terms
    law_extension_arithmetic(e1, x);
    law_extension_arithmetic(e2, square);
    XFieldElement::lemma_closed(e1, x);
    XFieldElement::lemma_closed(e2, square);
    let t1 = e1.times(x);
    let t2 = e2.times(square);
    lemma_trivial_products(a@, zero@, zero@);
    lemma_trivial_products(b@, zero@, zero@);
    lemma_trivial_products(e1.c0@, zero@, x.c1@);
    assert(square.c0@ == 0 && square.c1@ == 0 && square.c2@ == 1);
    lemma_trivial_products(e2.c0@, square.c0@, square.c2@);
    lemma_trivial_products(e2.c0@, square.c1@, square.c2@);
    lemma_trivial_products(square.c2@, zero@, square.c2@);
    lemma_trivial_products(square.c1@, zero@, square.c2@);
    lemma_trivial_products(square.c0@, zero@, square.c2@);
    assert(t1.c0@ == 0 && t1.c1@ == element.c1@ && t1.c2@ == 0);
    assert(t2.c0@ == 0 && t2.c1@ == 0 && t2.c2@ == element.c2@);
    law_extension_arithmetic(e0, t1);
    XFieldElement::lemma_closed(e0, t1);
    let s = e0.plus(t1);
    law_extension_arithmetic(s, t2);
    XFieldElement::lemma_closed(s, t2);
    law_base_arithmetic(e0.c0, t1.c0);
    law_base_arithmetic(e0.c1, t1.c1);
    law_base_arithmetic(e0.c2, t1.c2);
    law_base_arithmetic(s.c0, t2.c0);
    law_base_arithmetic(s.c1, t2.c1);
    law_base_arithmetic(s.c2, t2.c2);
    lemma_same(s.plus(t2).c0, element.c0);
    lemma_same(s.plus(t2).c1, element.c1);
    lemma_same(s.plus(t2).c2, element.c2);
}

proof fn lemma_trivial_products(v: int, zero: int, one: int)
    requires
        zero == 0,
    ensures
        v * zero == 0,
        zero * v == 0,
        zero * one == 0,
        one == 1 ==> v * one == v,
{
}

/// Canonical elements with one value are the same.
proof fn lemma_same(a: BFieldElement, b: BFieldElement)
    requires
        a.canonical(),
        b.canonical(),
    ensures
        a@ == b@ ==> a == b,
{
    BFieldElement::lemma_value(a);
    BFieldElement::lemma_value(b);
}

/// An element of the extension field is written as its three coefficients, and sampled
/// from three times eight bytes of a digest.
pub proof fn law_extension_bytes(a: XFieldElement, digest: Seq<u8>)
    requires
        digest.len() == 32,
    ensures
        a.encoding() == a.c0.encoding() + a.c1.encoding() + a.c2.encoding(),
        ({
            let sampled = XFieldElement::sampled(digest);
            &&& sampled.c0@ == (digest[0] + digest[1] * 0x100 + digest[2] * 0x1_0000 + digest[3]
                * 0x100_0000 + digest[4] * 0x1_0000_0000 + digest[5] * 0x100_0000_0000
                + digest[6] * 0x1_0000_0000_0000 + digest[7] * 0x100_0000_0000_0000)
                % 0xffff_ffff_0000_0001
            &&& sampled.c1@ == (digest[8] + digest[9] * 0x100 + digest[10] * 0x1_0000
                + digest[11] * 0x100_0000 + digest[12] * 0x1_0000_0000 + digest[13]
                * 0x100_0000_0000 + digest[14] * 0x1_0000_0000_0000 + digest[15]
                * 0x100_0000_0000_0000) % 0xffff_ffff_0000_0001
            &&& sampled.c2@ == (digest[16] + digest[17] * 0x100 + digest[18] * 0x1_0000
                + digest[19] * 0x100_0000 + digest[20] * 0x1_0000_0000 + digest[21]
                * 0x100_0000_0000 + digest[22] * 0x1_0000_0000_0000 + digest[23]
                * 0x100_0000_0000_0000) % 0xffff_ffff_0000_0001
        }),
{
    lemma_bytes_of_digest(digest, 0);
    lemma_bytes_of_digest(digest, 8);
    lemma_bytes_of_digest(digest, 16);
    BFieldElement::lemma_of(le_value(digest.subrange(0, 8)) as int);
    BFieldElement::lemma_of(le_value(digest.subrange(8, 16)) as int);
    BFieldElement::lemma_of(le_value(digest.subrange(16, 24)) as int);
}

} // verus!
