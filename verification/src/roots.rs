//! Roots of unity of every order that is a power of two, up to `2^32`.

use vstd::arithmetic::power2::*;
use vstd::prelude::*;

use crate::algebra::{lemma_power_doubles, lemma_power_one, lemma_primitive_root, primitive_root};
use crate::b_field_element::BFieldElement;
use crate::field::{power, FieldElement};

verus! {

/// An element of order `2^32`.
pub const TWO_ADIC_ROOT: u64 = 1753635133440165772;

/// The root of unity of order `2^m`.
pub open spec fn two_adic_root(m: nat) -> BFieldElement {
    power(BFieldElement::of(TWO_ADIC_ROOT as int), pow2((32 - m) as nat))
}

/// One step of repeated squaring, where `a * a` is `b` plus `q` times the quotient.
proof fn lemma_squaring(root: BFieldElement, k: nat, a: int, b: int, q: int)
    requires
        root.canonical(),
        power(root, pow2(k)) == BFieldElement::of(a),
        a * a == b + q * (BFieldElement::QUOTIENT as int),
    ensures
        power(root, pow2(k + 1)) == BFieldElement::of(b),
{
    lemma_pow2_unfold(k + 1);
    lemma_power_doubles(root, pow2(k));
    BFieldElement::lemma_of_operations(a, a);
    BFieldElement::lemma_of_congruent(a * a, b, q);
}

/// The root has order `2^32`.
proof fn lemma_base_root()
    ensures
        primitive_root(BFieldElement::of(TWO_ADIC_ROOT as int), 32),
{
    let root = BFieldElement::of(TWO_ADIC_ROOT as int);
    BFieldElement::lemma_of(TWO_ADIC_ROOT as int);
    lemma2_to64();
    lemma_power_one(root);
    lemma_squaring(root, 0, 1753635133440165772, 4614640910117430873, 166708887468903991);
    lemma_squaring(root, 1, 4614640910117430873, 9123114210336311365, 1154399424049971884);
    lemma_squaring(root, 2, 9123114210336311365, 16116352524544190054, 4511973093009996851);
    lemma_squaring(root, 3, 16116352524544190054, 6414415596519834757, 14080361158478670879);
    lemma_squaring(root, 4, 6414415596519834757, 1213594585890690845, 2230460144622294524);
    lemma_squaring(root, 5, 1213594585890690845, 17096174751763063430, 79841288704448195);
    lemma_squaring(root, 6, 17096174751763063430, 5456943929260765144, 15844486704156700236);
    lemma_squaring(root, 7, 5456943929260765144, 9713644485405565297, 1614281465338340559);
    lemma_squaring(root, 8, 9713644485405565297, 16905767614792059275, 5114988793349933654);
    lemma_squaring(root, 9, 16905767614792059275, 5416168637041100469, 15493518941330557636);
    lemma_squaring(root, 10, 5416168637041100469, 17654865857378133588, 1590247178281506213);
    lemma_squaring(root, 11, 17654865857378133588, 3511170319078647661, 16896981237942002723);
    lemma_squaring(root, 12, 3511170319078647661, 18146160046829613826, 668319404399374695);
    lemma_squaring(root, 13, 18146160046829613826, 9306717745644682924, 17850473948468743512);
    lemma_squaring(root, 14, 9306717745644682924, 12380578893860276750, 4695408299218975106);
    lemma_squaring(root, 15, 12380578893860276750, 6115771955107415310, 8309256808156222390);
    lemma_squaring(root, 16, 6115771955107415310, 17776499369601055404, 2027602620068516376);
    lemma_squaring(root, 17, 17776499369601055404, 16207902636198568418, 17130607366173278638);
    lemma_squaring(root, 18, 16207902636198568418, 1532612707718625687, 14240784545824149997);
    lemma_squaring(root, 19, 1532612707718625687, 17492915097719143606, 127334216977357403);
    lemma_squaring(root, 20, 17492915097719143606, 455906449640507599, 16588405924890216597);
    lemma_squaring(root, 21, 455906449640507599, 11353340290879379826, 11267608529812975);
    lemma_squaring(root, 22, 11353340290879379826, 1803076106186727246, 6987592784692205430);
    lemma_squaring(root, 23, 1803076106186727246, 13797081185216407910, 176241586724885086);
    lemma_squaring(root, 24, 13797081185216407910, 17870292113338400769, 10319406422896923811);
    lemma_squaring(root, 25, 17870292113338400769, 549755813888, 17311854006015885313);
    lemma_squaring(root, 26, 549755813888, 70368744161280, 16384);
    lemma_squaring(root, 27, 70368744161280, 17293822564807737345, 268435455);
    lemma_squaring(root, 28, 17293822564807737345, 18446744069397807105, 16212958654255595520);
    lemma_squaring(root, 29, 18446744069397807105, 281474976710656, 18446744069381029889);
    lemma_squaring(root, 30, 281474976710656, 18446744069414584320, 4294967296);
    // the last square is minus one
    BFieldElement::lemma_operations(root, root);
    BFieldElement::lemma_of_operations(0, 1);
    BFieldElement::lemma_of_congruent(18446744069414584320, -1, 1);
}

/// Its powers have the smaller orders.
pub proof fn lemma_two_adic_root(m: nat)
    requires
        m <= 32,
    ensures
        primitive_root(two_adic_root(m), m),
        m > 0 ==> two_adic_root((m - 1) as nat) == two_adic_root(m).times(two_adic_root(m)),
    decreases 32 - m,
{
    let root = BFieldElement::of(TWO_ADIC_ROOT as int);
    BFieldElement::lemma_of(TWO_ADIC_ROOT as int);
    if m == 32 {
        lemma2_to64();
        lemma_power_one(root);
        lemma_base_root();
    } else {
        lemma_two_adic_root(m + 1);
        lemma_primitive_root(two_adic_root(m + 1), m + 1);
    }
    if m > 0 {
        lemma_pow2_unfold((33 - m) as nat);
        lemma_power_doubles(root, pow2((32 - m) as nat));
    }
}

} // verus!
