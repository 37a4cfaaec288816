//! The extension field is a field: `X^3 - X + 1` has no root in the base field.
//!
//! Modulo this polynomial, the power of `X` whose exponent is the number of elements
//! of the base field differs from `X` by an invertible element. In the base field,
//! that power of any element is the element itself, so that a root would make an
//! invertible element zero.

use vstd::arithmetic::div_mod::*;
use vstd::arithmetic::mul::*;
use vstd::arithmetic::power2::*;
use vstd::prelude::*;
use vstd::relations::*;
use vstd::set_lib::*;

use crate::algebra::{
    lemma_cancel, lemma_cancel_factor, lemma_distributes_right, lemma_inv, lemma_inv_unique,
    lemma_invertible_factor, lemma_invertible_power, lemma_invertible_product, lemma_neg,
    lemma_neg_one_is_not_one, lemma_one_times, lemma_power_adds, lemma_power_canonical,
    lemma_power_multiplies, lemma_power_of_neg_one, lemma_power_of_one, lemma_power_one,
    lemma_primitive_root, lemma_root_of_unity_invertible, lemma_times_zero, lemma_zero_plus, neg,
    primitive_root,
};
use crate::b_field_element::BFieldElement;
use crate::field::{inv, invertible, power, FieldElement};
use crate::fri::Fri;
use crate::generator::{generator, law_generator_generates, lifted_to_extension, GROUP_ORDER};
use crate::group::is_order;
use crate::other::lemma_pow2_monotone;
use crate::primality::{
    law_nonzero_is_invertible, law_order_makes_primitive_root, lemma_order_makes_primitive_root,
    lemma_root_of_one_minus_one,
};
use crate::x_field_element::{Quadratic, XFieldElement};

verus! {

// ---- the little theorem of Fermat ----

/// Every nonzero element is a power of the generator.
proof fn lemma_is_power_of_generator(a: BFieldElement) -> (k: nat)
    requires
        a.canonical(),
        a != BFieldElement::zero(),
    ensures
        a == power(generator(), k),
{
    let g = generator();
    let n = GROUP_ORDER as int;
    let p = BFieldElement::QUOTIENT as int;
    let f = |i: int| power(g, i as nat)@;
    let exponents = set_int_range(0, n);
    let values = exponents.map(f);
    let nonzero = set_int_range(1, p);
    law_generator_generates();
    lemma_root_of_unity_invertible(g, n as nat);
    lemma_int_range(0, n);
    lemma_int_range(1, p);
    BFieldElement::lemma_constants_canonical();
    assert forall|i: int, j: int|
        exponents.contains(i) && exponents.contains(j) && #[trigger] f(i) == #[trigger] f(
            j,
        ) implies i == j by {
        lemma_power_canonical(g, i as nat);
        lemma_power_canonical(g, j as nat);
        lemma_equal_values(power(g, i as nat), power(g, j as nat));
        if i < j {
            lemma_equal_powers(g, i as nat, j as nat);
        } else if j < i {
            lemma_equal_powers(g, j as nat, i as nat);
        }
    }
    assert(injective_on(f, exponents));
    lemma_map_size(exponents, values, f);
    assert forall|v: int| values.contains(v) implies nonzero.contains(v) by {
        let i = choose|i: int| exponents.contains(i) && f(i) == v;
        let w = power(g, i as nat);
        lemma_power_canonical(g, i as nat);
        BFieldElement::lemma_value(w);
        if w@ == 0 {
            // zero is not invertible
            lemma_invertible_power(g, i as nat);
            BFieldElement::lemma_operations(w, w);
            lemma_inv(w);
            lemma_times_zero(inv(w));
        }
    }
    lemma_subset_equality(values, nonzero);
    BFieldElement::lemma_value(a);
    BFieldElement::lemma_operations(a, a);
    assert(nonzero.contains(a@));
    let k = choose|k: int| exponents.contains(k) && f(k) == a@;
    lemma_power_canonical(g, k as nat);
    lemma_equal_values(power(g, k as nat), a);
    k as nat
}

/// Canonical elements of one value are equal.
proof fn lemma_equal_values(a: BFieldElement, b: BFieldElement)
    requires
        a.canonical(),
        b.canonical(),
        a@ == b@,
    ensures
        a == b,
{
    BFieldElement::lemma_value(a);
    BFieldElement::lemma_value(b);
}

/// Two equal powers of an invertible element.
proof fn lemma_equal_powers(g: BFieldElement, i: nat, j: nat)
    requires
        invertible(g),
        i < j,
        power(g, i) == power(g, j),
    ensures
        power(g, (j - i) as nat) == BFieldElement::one(),
{
    let k = (j - i) as nat;
    lemma_power_canonical(g, i);
    lemma_power_canonical(g, k);
    lemma_power_adds(g, i, k);
    BFieldElement::lemma_constants_canonical();
    lemma_one_times(power(g, i));
    lemma_invertible_power(g, i);
    lemma_cancel_factor(power(g, i), power(g, k), BFieldElement::one());
}

/// An element to the number of elements is the element itself.
pub proof fn law_power_of_the_quotient(a: BFieldElement)
    requires
        a.canonical(),
    ensures
        power(a, BFieldElement::QUOTIENT as nat) == a,
{
    let n = GROUP_ORDER as nat;
    assert(power(a, n + 1) == a.times(power(a, n)));
    if a == BFieldElement::zero() {
        lemma_times_zero(power(a, n));
    } else {
        let g = generator();
        let k = lemma_is_power_of_generator(a);
        law_generator_generates();
        lemma_power_multiplies(g, k, n);
        lemma_power_multiplies(g, n, k);
        lemma_mul_is_commutative(k as int, n as int);
        lemma_power_of_one::<BFieldElement>(k);
        lemma_one_times(a);
    }
}

// ---- powers of `X` ----

/// The polynomial `X`.
spec fn x() -> XFieldElement {
    XFieldElement::of(Quadratic { c0: 0, c1: 1, c2: 0 })
}

proof fn lemma_x()
    ensures
        x().canonical(),
        power(x(), 1) == x(),
{
    XFieldElement::lemma_of(Quadratic { c0: 0, c1: 1, c2: 0 });
    lemma_power_one(x());
}

/// An element depends on its coefficients modulo the quotient.
proof fn lemma_reduced(v: int, c: int)
    requires
        v % 0xffff_ffff_0000_0001 == c,
    ensures
        BFieldElement::of(v) == BFieldElement::of(c),
{
    let p = BFieldElement::QUOTIENT as int;
    lemma_fundamental_div_mod(v, p);
    lemma_mul_is_commutative(p, v / p);
    BFieldElement::lemma_of_congruent(v, c, v / p);
}

/// The product of reduced polynomials is the reduced product.
proof fn lemma_product_of_reduced(a: Quadratic, b: Quadratic)
    ensures
        XFieldElement::of(a).times(XFieldElement::of(b)) == XFieldElement::of(a.times(b)),
{
    XFieldElement::lemma_of_times(a, XFieldElement::of(b)@);
    XFieldElement::lemma_of_times(b, a);
}

/// A product with given coefficients.
proof fn lemma_product(
    a0: int,
    a1: int,
    a2: int,
    b0: int,
    b1: int,
    b2: int,
    c0: int,
    c1: int,
    c2: int,
)
    requires
        (a0 * b0 - a1 * b2 - a2 * b1) % 0xffff_ffff_0000_0001 == c0,
        (a0 * b1 + a1 * b0 + a1 * b2 + a2 * b1 - a2 * b2) % 0xffff_ffff_0000_0001 == c1,
        (a0 * b2 + a1 * b1 + a2 * b0 + a2 * b2) % 0xffff_ffff_0000_0001 == c2,
    ensures
        XFieldElement::of(Quadratic { c0: a0, c1: a1, c2: a2 }).times(
            XFieldElement::of(Quadratic { c0: b0, c1: b1, c2: b2 }),
        ) == XFieldElement::of(Quadratic { c0, c1, c2 }),
{
    let a = Quadratic { c0: a0, c1: a1, c2: a2 };
    let b = Quadratic { c0: b0, c1: b1, c2: b2 };
    lemma_product_of_reduced(a, b);
    lemma_reduced(a.times(b).c0, c0);
    lemma_reduced(a.times(b).c1, c1);
    lemma_reduced(a.times(b).c2, c2);
}

/// A product of two powers of `X`.
proof fn lemma_x_product(
    e: nat,
    a0: int,
    a1: int,
    a2: int,
    f: nat,
    b0: int,
    b1: int,
    b2: int,
    c0: int,
    c1: int,
    c2: int,
)
    requires
        power(x(), e) == XFieldElement::of(Quadratic { c0: a0, c1: a1, c2: a2 }),
        power(x(), f) == XFieldElement::of(Quadratic { c0: b0, c1: b1, c2: b2 }),
        (a0 * b0 - a1 * b2 - a2 * b1) % 0xffff_ffff_0000_0001 == c0,
        (a0 * b1 + a1 * b0 + a1 * b2 + a2 * b1 - a2 * b2) % 0xffff_ffff_0000_0001 == c1,
        (a0 * b2 + a1 * b1 + a2 * b0 + a2 * b2) % 0xffff_ffff_0000_0001 == c2,
    ensures
        power(x(), e + f) == XFieldElement::of(Quadratic { c0, c1, c2 }),
{
    lemma_power_adds(x(), e, f);
    lemma_product(a0, a1, a2, b0, b1, b2, c0, c1, c2);
}

/// The square of a power of `X`.
proof fn lemma_x_square(e: nat, a0: int, a1: int, a2: int, c0: int, c1: int, c2: int)
    requires
        power(x(), e) == XFieldElement::of(Quadratic { c0: a0, c1: a1, c2: a2 }),
        (a0 * a0 - a1 * a2 - a2 * a1) % 0xffff_ffff_0000_0001 == c0,
        (a0 * a1 + a1 * a0 + a1 * a2 + a2 * a1 - a2 * a2) % 0xffff_ffff_0000_0001 == c1,
        (a0 * a2 + a1 * a1 + a2 * a0 + a2 * a2) % 0xffff_ffff_0000_0001 == c2,
    ensures
        power(x(), 2 * e) == XFieldElement::of(Quadratic { c0, c1, c2 }),
{
    lemma_x_product(e, a0, a1, a2, e, a0, a1, a2, c0, c1, c2);
    assert(e + e == 2 * e);
}

/// The power of `X` with exponent `2^16 - 1`.
proof fn lemma_x_to_65535()
    ensures
        power(x(), 65535) == XFieldElement::of(
            Quadratic {
                c0: 10228633144022348979,
                c1: 6124110923987225995,
                c2: 18061050701021327386,
            },
        ),
{
    lemma_x();
    lemma_x_square(
        1,
        0,
        1,
        0,
        0,
        0,
        1,
    );
    lemma_x_product(
        2,
        0,
        0,
        1,
        1,
        0,
        1,
        0,
        18446744069414584320,
        1,
        0,
    );
    lemma_x_square(
        3,
        18446744069414584320,
        1,
        0,
        1,
        18446744069414584319,
        1,
    );
    lemma_x_square(
        6,
        1,
        18446744069414584319,
        1,
        5,
        18446744069414584312,
        7,
    );
    lemma_x_product(
        12,
        5,
        18446744069414584312,
        7,
        3,
        18446744069414584320,
        1,
        0,
        18446744069414584309,
        21,
        18446744069414584305,
    );
    lemma_x_square(
        15,
        18446744069414584309,
        21,
        18446744069414584305,
        816,
        18446744069414582889,
        1081,
    );
    lemma_x_square(
        30,
        816,
        18446744069414582889,
        1081,
        3761840,
        18446744069407982752,
        4983377,
    );
    lemma_x_square(
        60,
        3761840,
        18446744069407982752,
        4983377,
        79947654422626,
        18446603771061369246,
        105908093453250,
    );
    lemma_x_square(
        120,
        79947654422626,
        18446603771061369246,
        105908093453250,
        17980645091317442664,
        9594044430961326271,
        5447082384365101621,
    );
    lemma_x_product(
        240,
        17980645091317442664,
        9594044430961326271,
        5447082384365101621,
        15,
        18446744069414584309,
        21,
        18446744069414584305,
        7815680422050617537,
        15354445961624571197,
        1073977729275519852,
    );
    lemma_x_square(
        255,
        7815680422050617537,
        15354445961624571197,
        1073977729275519852,
        11642382840603130735,
        14937284348133659167,
        8005352931033794961,
    );
    lemma_x_square(
        510,
        11642382840603130735,
        14937284348133659167,
        8005352931033794961,
        8722407100972045483,
        7264279786528801646,
        14105383511345480831,
    );
    lemma_x_square(
        1020,
        8722407100972045483,
        7264279786528801646,
        14105383511345480831,
        6565031480602841121,
        8756377869358835764,
        16905547949217495440,
    );
    lemma_x_square(
        2040,
        6565031480602841121,
        8756377869358835764,
        16905547949217495440,
        5862177410779602797,
        9489502021919899265,
        4368008315936126456,
    );
    lemma_x_square(
        4080,
        5862177410779602797,
        9489502021919899265,
        4368008315936126456,
        14740604449669919285,
        5223137846941093371,
        17945842937365129654,
    );
    lemma_x_square(
        8160,
        14740604449669919285,
        5223137846941093371,
        17945842937365129654,
        12094145270838400600,
        1816882727500738826,
        3992817318765355094,
    );
    lemma_x_square(
        16320,
        12094145270838400600,
        1816882727500738826,
        3992817318765355094,
        14075926751811780946,
        15808430783876729160,
        4352873181766470537,
    );
    lemma_x_square(
        32640,
        14075926751811780946,
        15808430783876729160,
        4352873181766470537,
        16330877276621946674,
        12632454100760274054,
        14443460011098895316,
    );
    lemma_x_product(
        65280,
        16330877276621946674,
        12632454100760274054,
        14443460011098895316,
        255,
        7815680422050617537,
        15354445961624571197,
        1073977729275519852,
        10228633144022348979,
        6124110923987225995,
        18061050701021327386,
    );
}

/// The power of `X` with exponent `2^32 - 1`.
proof fn lemma_x_to_4294967295()
    requires
        power(x(), 65535) == XFieldElement::of(
            Quadratic {
                c0: 10228633144022348979,
                c1: 6124110923987225995,
                c2: 18061050701021327386,
            },
        ),
    ensures
        power(x(), 4294967295) == XFieldElement::of(
            Quadratic {
                c0: 189277058413434262,
                c1: 13756005300681981762,
                c2: 14133710443631557474,
            },
        ),
{
    lemma_x_square(
        65535,
        10228633144022348979,
        6124110923987225995,
        18061050701021327386,
        12312375245523276375,
        15593621952214790101,
        4659076516666767726,
    );
    lemma_x_square(
        131070,
        12312375245523276375,
        15593621952214790101,
        4659076516666767726,
        9877145471185263683,
        16197379592698373147,
        9902538481307127372,
    );
    lemma_x_square(
        262140,
        9877145471185263683,
        16197379592698373147,
        9902538481307127372,
        791602526708101430,
        216498182624015025,
        3024927831104171858,
    );
    lemma_x_square(
        524280,
        791602526708101430,
        216498182624015025,
        3024927831104171858,
        7248626995732407972,
        9310636160256017479,
        10568194660252669565,
    );
    lemma_x_square(
        1048560,
        7248626995732407972,
        9310636160256017479,
        10568194660252669565,
        12639928331275581530,
        15868872345348844106,
        15996893937336685645,
    );
    lemma_x_square(
        2097120,
        12639928331275581530,
        15868872345348844106,
        15996893937336685645,
        12773823225613554528,
        5997427638740064925,
        2525325153483889850,
    );
    lemma_x_square(
        4194240,
        12773823225613554528,
        5997427638740064925,
        2525325153483889850,
        13940314100745030559,
        9076142735122261066,
        12338836887612289749,
    );
    lemma_x_square(
        8388480,
        13940314100745030559,
        9076142735122261066,
        12338836887612289749,
        16191637269260531356,
        8537036674400109412,
        1020696225367372052,
    );
    lemma_x_square(
        16776960,
        16191637269260531356,
        8537036674400109412,
        1020696225367372052,
        10566376567046228800,
        9750455129054304570,
        6098675303663291854,
    );
    lemma_x_square(
        33553920,
        10566376567046228800,
        9750455129054304570,
        6098675303663291854,
        10824687464206112429,
        16783357980495903704,
        17392215470730353710,
    );
    lemma_x_square(
        67107840,
        10824687464206112429,
        16783357980495903704,
        17392215470730353710,
        2047807997536339412,
        5535382795943028878,
        7030257196525153913,
    );
    lemma_x_square(
        134215680,
        2047807997536339412,
        5535382795943028878,
        7030257196525153913,
        14159316387831194227,
        2138834204986750301,
        11343743606013598826,
    );
    lemma_x_square(
        268431360,
        14159316387831194227,
        2138834204986750301,
        11343743606013598826,
        9244535892653028717,
        10940868665575123378,
        493365972571205970,
    );
    lemma_x_square(
        536862720,
        9244535892653028717,
        10940868665575123378,
        493365972571205970,
        4163549627499955133,
        11976502947311788780,
        2933781512027498445,
    );
    lemma_x_square(
        1073725440,
        4163549627499955133,
        11976502947311788780,
        2933781512027498445,
        12561366561881000669,
        9621369497575659509,
        7562324918469638967,
    );
    lemma_x_square(
        2147450880,
        12561366561881000669,
        9621369497575659509,
        7562324918469638967,
        11110273487887186323,
        18029993830671156432,
        8691879359732830763,
    );
    lemma_x_product(
        4294901760,
        11110273487887186323,
        18029993830671156432,
        8691879359732830763,
        65535,
        10228633144022348979,
        6124110923987225995,
        18061050701021327386,
        189277058413434262,
        13756005300681981762,
        14133710443631557474,
    );
}

/// That power, squared sixteen times.
proof fn lemma_x_shifted_half()
    requires
        power(x(), 4294967295) == XFieldElement::of(
            Quadratic {
                c0: 189277058413434262,
                c1: 13756005300681981762,
                c2: 14133710443631557474,
            },
        ),
    ensures
        power(x(), 281474976645120) == XFieldElement::of(
            Quadratic {
                c0: 10629920536230044341,
                c1: 10061406005584500687,
                c2: 367283264183613029,
            },
        ),
{
    lemma_x_square(
        4294967295,
        189277058413434262,
        13756005300681981762,
        14133710443631557474,
        17014327679150878234,
        5839097664679471543,
        719963853502925156,
    );
    lemma_x_square(
        8589934590,
        17014327679150878234,
        5839097664679471543,
        719963853502925156,
        6536060914437731233,
        3643896918901481661,
        4569251470381443657,
    );
    lemma_x_square(
        17179869180,
        6536060914437731233,
        3643896918901481661,
        4569251470381443657,
        4911856645428035848,
        3738737860684581170,
        9714945969397219739,
    );
    lemma_x_square(
        34359738360,
        4911856645428035848,
        3738737860684581170,
        9714945969397219739,
        14292518544408152065,
        5177501736348460703,
        7030524943306024153,
    );
    lemma_x_square(
        68719476720,
        14292518544408152065,
        5177501736348460703,
        7030524943306024153,
        14349349722776201078,
        14366915700821733860,
        10033683277415949707,
    );
    lemma_x_square(
        137438953440,
        14349349722776201078,
        14366915700821733860,
        10033683277415949707,
        2391313368065354046,
        2610933221086007685,
        4870656255852043891,
    );
    lemma_x_square(
        274877906880,
        2391313368065354046,
        2610933221086007685,
        4870656255852043891,
        8292492632139951228,
        1201283243602663153,
        18423858443108432591,
    );
    lemma_x_square(
        549755813760,
        8292492632139951228,
        1201283243602663153,
        18423858443108432591,
        14796088139877651157,
        16753280971220788293,
        14062111816298843526,
    );
    lemma_x_square(
        1099511627520,
        14796088139877651157,
        16753280971220788293,
        14062111816298843526,
        841263094355012209,
        10337270906548826720,
        16373445232156981938,
    );
    lemma_x_square(
        2199023255040,
        841263094355012209,
        10337270906548826720,
        16373445232156981938,
        13478154773546286730,
        1543063341613637380,
        5561652030637103799,
    );
    lemma_x_square(
        4398046510080,
        13478154773546286730,
        1543063341613637380,
        5561652030637103799,
        5477011168738302849,
        8281578377070980556,
        17166566317511879892,
    );
    lemma_x_square(
        8796093020160,
        5477011168738302849,
        8281578377070980556,
        17166566317511879892,
        13629797061167796708,
        12127052355081589122,
        18186267925883894336,
    );
    lemma_x_square(
        17592186040320,
        13629797061167796708,
        12127052355081589122,
        18186267925883894336,
        17188729530031364938,
        12848444388264175823,
        4423674743041695813,
    );
    lemma_x_square(
        35184372080640,
        17188729530031364938,
        12848444388264175823,
        4423674743041695813,
        16393786127884735934,
        791609271695466581,
        3870802745629922731,
    );
    lemma_x_square(
        70368744161280,
        16393786127884735934,
        791609271695466581,
        3870802745629922731,
        1810135185655154611,
        4379401193004461353,
        9257028593542338537,
    );
    lemma_x_square(
        140737488322560,
        1810135185655154611,
        4379401193004461353,
        9257028593542338537,
        10629920536230044341,
        10061406005584500687,
        367283264183613029,
    );
}

/// And sixteen times more.
proof fn lemma_x_shifted()
    requires
        power(x(), 281474976645120) == XFieldElement::of(
            Quadratic {
                c0: 10629920536230044341,
                c1: 10061406005584500687,
                c2: 367283264183613029,
            },
        ),
    ensures
        power(x(), 18446744069414584320) == XFieldElement::of(
            Quadratic {
                c0: 17881315270014256396,
                c1: 6700183068485440219,
                c2: 10615703402128488253,
            },
        ),
{
    lemma_x_square(
        281474976645120,
        10629920536230044341,
        10061406005584500687,
        367283264183613029,
        10042142244375803560,
        11374161099597352466,
        9357497855393547019,
    );
    lemma_x_square(
        562949953290240,
        10042142244375803560,
        11374161099597352466,
        9357497855393547019,
        59770504549512050,
        10474750073292464588,
        6342428284262850828,
    );
    lemma_x_square(
        1125899906580480,
        59770504549512050,
        10474750073292464588,
        6342428284262850828,
        2622868630606559356,
        16000898254659234305,
        7294939645723340231,
    );
    lemma_x_square(
        2251799813160960,
        2622868630606559356,
        16000898254659234305,
        7294939645723340231,
        325843287025805937,
        17505554563073821498,
        4936306696661642492,
    );
    lemma_x_square(
        4503599626321920,
        325843287025805937,
        17505554563073821498,
        4936306696661642492,
        5709830688519504325,
        13151906982381394867,
        13789788311344091380,
    );
    lemma_x_square(
        9007199252643840,
        5709830688519504325,
        13151906982381394867,
        13789788311344091380,
        10141470528471579244,
        8561459139524298356,
        17377392563805199104,
    );
    lemma_x_square(
        18014398505287680,
        10141470528471579244,
        8561459139524298356,
        17377392563805199104,
        618545735250886487,
        13716442848741872867,
        4975800268008024812,
    );
    lemma_x_square(
        36028797010575360,
        618545735250886487,
        13716442848741872867,
        4975800268008024812,
        2750817074336557468,
        1187801206115380101,
        11170078648365466503,
    );
    lemma_x_square(
        72057594021150720,
        2750817074336557468,
        1187801206115380101,
        11170078648365466503,
        6906452560844364261,
        5582654599908513804,
        3709527049109576701,
    );
    lemma_x_square(
        144115188042301440,
        6906452560844364261,
        5582654599908513804,
        3709527049109576701,
        1328844093254793213,
        1688961072982407792,
        6187720237288532511,
    );
    lemma_x_square(
        288230376084602880,
        1328844093254793213,
        1688961072982407792,
        6187720237288532511,
        8285684540255011865,
        17485037739162129574,
        2301801694352089067,
    );
    lemma_x_square(
        576460752169205760,
        8285684540255011865,
        17485037739162129574,
        2301801694352089067,
        3412694788194576059,
        9007794700896658625,
        2618429826639837760,
    );
    lemma_x_square(
        1152921504338411520,
        3412694788194576059,
        9007794700896658625,
        2618429826639837760,
        13044716511520563032,
        10292290254933059359,
        396018648220892799,
    );
    lemma_x_square(
        2305843008676823040,
        13044716511520563032,
        10292290254933059359,
        396018648220892799,
        10323009335397958739,
        7794026842615467223,
        13326952731142629115,
    );
    lemma_x_square(
        4611686017353646080,
        10323009335397958739,
        7794026842615467223,
        13326952731142629115,
        365860228024675213,
        13447304433486235345,
        8426174225170048632,
    );
    lemma_x_square(
        9223372034707292160,
        365860228024675213,
        13447304433486235345,
        8426174225170048632,
        17881315270014256396,
        6700183068485440219,
        10615703402128488253,
    );
}

/// The power of `X` with the number of elements of the base field as exponent.
proof fn lemma_x_to_quotient()
    ensures
        power(x(), BFieldElement::QUOTIENT as nat) == XFieldElement::of(
            Quadratic {
                c0: 7831040667286096068,
                c1: 10050274602728160328,
                c2: 6700183068485440219,
            },
        ),
{
    lemma_x();
    lemma_x_to_65535();
    lemma_x_to_4294967295();
    lemma_x_shifted_half();
    lemma_x_shifted();
    lemma_x_product(
        18446744069414584320,
        17881315270014256396,
        6700183068485440219,
        10615703402128488253,
        1,
        0,
        1,
        0,
        7831040667286096068,
        10050274602728160328,
        6700183068485440219,
    );
}

/// That power minus `X`.
spec fn difference() -> Quadratic {
    Quadratic {
        c0: 7831040667286096068,
        c1: 10050274602728160327,
        c2: 6700183068485440219,
    }
}

/// Its inverse.
spec fn difference_inverse() -> Quadratic {
    Quadratic {
        c0: 17455428877415444409,
        c1: 15238614666038134874,
        c2: 7360253288463281919,
    }
}

proof fn lemma_difference()
    ensures
        XFieldElement::of(difference()).times(XFieldElement::of(difference_inverse()))
            == XFieldElement::one(),
{
    lemma_product(
        7831040667286096068,
        10050274602728160327,
        6700183068485440219,
        17455428877415444409,
        15238614666038134874,
        7360253288463281919,
        1,
        0,
        0,
    );
}

// ---- evaluation ----

/// Whether `t` is a root of `X^3 - X + 1` modulo the quotient.
spec fn is_root(t: int) -> bool {
    BFieldElement::of(t * t * t - t + 1) == BFieldElement::of(0)
}

/// The value of a polynomial at `t`.
spec fn value_at(q: Quadratic, t: int) -> BFieldElement {
    BFieldElement::of(q.c0 + q.c1 * t + q.c2 * (t * t))
}

proof fn lemma_value_of_sum(a: Quadratic, b: Quadratic, t: int)
    ensures
        value_at(a.plus(b), t) == value_at(a, t).plus(value_at(b, t)),
{
    lemma_mul_is_distributive_add_other_way(t, a.c1, b.c1);
    lemma_mul_is_distributive_add_other_way(t * t, a.c2, b.c2);
    BFieldElement::lemma_of_operations(
        a.c0 + a.c1 * t + a.c2 * (t * t),
        b.c0 + b.c1 * t + b.c2 * (t * t),
    );
}

proof fn lemma_value_of_multiple(a: Quadratic, k: int, t: int)
    ensures
        value_at(a.scaled(k), t) == BFieldElement::of(k).times(value_at(a, t)),
{
    let (u, v) = (a.c1 * t, a.c2 * (t * t));
    lemma_mul_is_associative(k, a.c1, t);
    lemma_mul_is_associative(k, a.c2, t * t);
    lemma_mul_is_distributive_add(k, a.c0 + u, v);
    lemma_mul_is_distributive_add(k, a.c0, u);
    BFieldElement::lemma_of_operations(k, a.c0 + u + v);
}

/// At a root, shifting multiplies by the root.
proof fn lemma_value_of_shift(a: Quadratic, t: int)
    requires
        is_root(t),
    ensures
        value_at(a.shifted(), t) == BFieldElement::of(t).times(value_at(a, t)),
{
    let p = BFieldElement::QUOTIENT as int;
    let z = t * t * t - t + 1;
    let v = a.c0 + a.c1 * t + a.c2 * (t * t);
    let w = -a.c2 + (a.c0 + a.c2) * t + a.c1 * (t * t);
    let k = BFieldElement::lemma_of_quotient(z);
    BFieldElement::lemma_of(0);
    assert(z == k * p);
    // t * v == w + c2 * z
    lemma_mul_is_distributive_add_other_way(t, a.c0, a.c2);
    lemma_mul_is_distributive_add(t, a.c0 + a.c1 * t, a.c2 * (t * t));
    lemma_mul_is_distributive_add(t, a.c0, a.c1 * t);
    lemma_mul_is_commutative(t, a.c0);
    lemma_swap_factors(t, a.c1, t);
    lemma_swap_factors(t, a.c2, t * t);
    lemma_mul_is_associative(t, t, t);
    lemma_mul_is_distributive_add(a.c2, t * t * t - t, 1);
    lemma_mul_is_distributive_sub(a.c2, t * t * t, t);
    assert(t * v == w + a.c2 * z);
    lemma_mul_is_associative(a.c2, k, p);
    BFieldElement::lemma_of_congruent(t * v, w, a.c2 * k);
    BFieldElement::lemma_of_operations(t, v);
}

/// `a * (b * c) == b * (a * c)`.
proof fn lemma_swap_factors(a: int, b: int, c: int)
    ensures
        a * (b * c) == b * (a * c),
{
    lemma_mul_is_associative(a, b, c);
    lemma_mul_is_commutative(a, b);
    lemma_mul_is_associative(b, a, c);
}

/// At a root, the value of a product is the product of the values.
proof fn lemma_value_of_product(a: Quadratic, b: Quadratic, t: int)
    requires
        is_root(t),
    ensures
        value_at(a.times(b), t) == value_at(a, t).times(value_at(b, t)),
{
    let s = BFieldElement::of(t);
    let v = value_at(b, t);
    let b1 = b.shifted();
    let b2 = b1.shifted();
    let (k0, k1, k2) = (BFieldElement::of(a.c0), BFieldElement::of(a.c1), BFieldElement::of(a.c2));
    Quadratic::lemma_times_expanded(a, b);
    lemma_value_of_sum(b.scaled(a.c0).plus(b1.scaled(a.c1)), b2.scaled(a.c2), t);
    lemma_value_of_sum(b.scaled(a.c0), b1.scaled(a.c1), t);
    lemma_value_of_multiple(b, a.c0, t);
    lemma_value_of_multiple(b1, a.c1, t);
    lemma_value_of_multiple(b2, a.c2, t);
    lemma_value_of_shift(b, t);
    lemma_value_of_shift(b1, t);
    BFieldElement::lemma_times_associates(k1, s, v);
    BFieldElement::lemma_times_associates(s, s, v);
    BFieldElement::lemma_times_associates(k2, s.times(s), v);
    // the value of the first factor
    BFieldElement::lemma_of_operations(t, t);
    BFieldElement::lemma_of_operations(a.c1, t);
    BFieldElement::lemma_of_operations(a.c2, t * t);
    BFieldElement::lemma_of_operations(a.c0, a.c1 * t);
    BFieldElement::lemma_of_operations(a.c0 + a.c1 * t, a.c2 * (t * t));
    lemma_distributes_right(k0.plus(k1.times(s)), k2.times(s.times(s)), v);
    lemma_distributes_right(k0, k1.times(s), v);
}

/// Reducing the coefficients does not change a value.
proof fn lemma_value_of_reduced(a: Quadratic, t: int)
    ensures
        value_at(XFieldElement::of(a)@, t) == value_at(a, t),
{
    let p = BFieldElement::QUOTIENT as int;
    let r = XFieldElement::of(a)@;
    let k = XFieldElement::lemma_of_quotient(a);
    lemma_value_of_sum(r, k.scaled(p), t);
    lemma_value_of_multiple(k, p, t);
    BFieldElement::lemma_of_congruent(p, 0, 1);
    BFieldElement::lemma_operations(value_at(r, t), value_at(k, t));
    lemma_times_zero(value_at(k, t));
    BFieldElement::lemma_of(r.c0 + r.c1 * t + r.c2 * (t * t));
    lemma_zero_plus(value_at(r, t));
}

/// At a root, the value of a power of `X` is that power of the root.
proof fn lemma_value_of_power(n: nat, t: int)
    requires
        is_root(t),
    ensures
        value_at(power(x(), n)@, t) == power(BFieldElement::of(t), n),
    decreases n,
{
    let one = Quadratic { c0: 1, c1: 0, c2: 0 };
    let lone = Quadratic { c0: 0, c1: 1, c2: 0 };
    lemma_mul_basics(t);
    lemma_mul_basics(t * t);
    if n == 0 {
        lemma_value_of_reduced(one, t);
        BFieldElement::lemma_operations(BFieldElement::of(t), BFieldElement::of(t));
    } else {
        let before = power(x(), (n - 1) as nat);
        lemma_value_of_power((n - 1) as nat, t);
        lemma_value_of_reduced(x()@.times(before@), t);
        lemma_value_of_product(x()@, before@, t);
        lemma_value_of_reduced(lone, t);
    }
}

/// The polynomial `X^3 - X + 1` has no root in the base field.
proof fn lemma_no_root(t: int)
    ensures
        !is_root(t),
{
    if is_root(t) {
        let s = BFieldElement::of(t);
        let p = BFieldElement::QUOTIENT as nat;
        let lone = Quadratic { c0: 0, c1: 1, c2: 0 };
        let one = Quadratic { c0: 1, c1: 0, c2: 0 };
        let d = difference();
        BFieldElement::lemma_of(t);
        BFieldElement::lemma_constants_canonical();
        BFieldElement::lemma_operations(s, s);
        lemma_mul_basics(t);
        lemma_mul_basics(t * t);
        // the value of the power is the root
        law_power_of_the_quotient(s);
        lemma_value_of_power(p, t);
        lemma_x_to_quotient();
        lemma_value_of_reduced(d.plus(lone), t);
        lemma_value_of_sum(d, lone, t);
        assert(value_at(lone, t) == s);
        assert(value_at(d, t).plus(s) == s);
        // so the value of the difference is zero
        BFieldElement::lemma_of(d.c0 + d.c1 * t + d.c2 * (t * t));
        lemma_zero_plus(s);
        lemma_cancel(value_at(d, t), BFieldElement::zero(), s);
        // but the difference is invertible
        lemma_difference();
        lemma_product_of_reduced(d, difference_inverse());
        lemma_value_of_reduced(d.times(difference_inverse()), t);
        lemma_value_of_reduced(one, t);
        lemma_value_of_product(d, difference_inverse(), t);
        lemma_times_zero(value_at(difference_inverse(), t));
        assert(value_at(one, t) == BFieldElement::one());
    }
}

// ---- inverses ----

/// A nonzero element of the base field is invertible in the extension.
proof fn lemma_constant_is_invertible(c: BFieldElement)
    requires
        c.canonical(),
        c != BFieldElement::zero(),
    ensures
        invertible(lifted_to_extension(c)),
{
    law_nonzero_is_invertible(c);
    lemma_inv(c);
    XFieldElement::lemma_times_in_subfield(c, inv(c));
    BFieldElement::lemma_constants_canonical();
    BFieldElement::lemma_operations(c, c);
    assert(XFieldElement::one() == lifted_to_extension(BFieldElement::one()));
    lemma_inv_unique(lifted_to_extension(c), lifted_to_extension(inv(c)));
}

/// Multiplying by an element of the base field multiplies the coefficients.
proof fn lemma_times_constant(c: BFieldElement, a: XFieldElement)
    ensures
        lifted_to_extension(c).times(a) == (XFieldElement {
            c0: c.times(a.c0),
            c1: c.times(a.c1),
            c2: c.times(a.c2),
        }),
{
    BFieldElement::lemma_operations(c, a.c0);
    BFieldElement::lemma_operations(c, a.c1);
    BFieldElement::lemma_operations(c, a.c2);
    BFieldElement::lemma_of(0);
    lemma_mul_basics(a.c0@);
    lemma_mul_basics(a.c1@);
    lemma_mul_basics(a.c2@);
}

/// The linear polynomial `X - t` is invertible.
proof fn lemma_linear_is_invertible(t: int)
    ensures
        invertible(XFieldElement::of(Quadratic { c0: -t, c1: 1, c2: 0 })),
{
    let a = Quadratic { c0: -t, c1: 1, c2: 0 };
    let b = Quadratic { c0: t * t - 1, c1: t, c2: 1 };
    let z = t * t * t - t + 1;
    // the product is minus the value of X^3 - X + 1 at t
    assert(a.times(b) == (Quadratic { c0: -z, c1: 0, c2: 0 })) by {
        assert(-t * (t * t - 1) - 1 * 1 - 0 * t == -z) by (nonlinear_arith)
            requires
                z == t * t * t - t + 1,
        ;
        assert(-t * t + 1 * (t * t - 1) + 1 * 1 + 0 * t - 0 * 1 == 0) by (nonlinear_arith);
        assert(-t * 1 + 1 * t + 0 * (t * t - 1) + 0 * 1 == 0) by (nonlinear_arith);
    }
    lemma_product_of_reduced(a, b);
    lemma_no_root(t);
    let c = BFieldElement::of(-z);
    BFieldElement::lemma_of(-z);
    BFieldElement::lemma_of_operations(0, -z);
    BFieldElement::lemma_operations(c, c);
    if c == BFieldElement::zero() {
        // then z is zero too
        BFieldElement::lemma_of_operations(0, 0);
        assert(0 - (-z) == z && 0 - 0 == 0int);
    }
    lemma_constant_is_invertible(c);
    assert(XFieldElement::of(a.times(b)) == lifted_to_extension(c));
    lemma_invertible_factor(XFieldElement::of(a), XFieldElement::of(b));
}

/// A nonzero polynomial of degree at most one is invertible.
proof fn lemma_degree_one_is_invertible(a: XFieldElement)
    requires
        a.canonical(),
        a.c2 == BFieldElement::zero(),
        a != XFieldElement::zero(),
    ensures
        invertible(a),
{
    BFieldElement::lemma_operations(a.c0, a.c0);
    if a.c1 == BFieldElement::zero() {
        lemma_constant_is_invertible(a.c0);
        assert(a == lifted_to_extension(a.c0));
    } else {
        // a == c1 * (X - t), where t is -c0 / c1
        law_nonzero_is_invertible(a.c1);
        lemma_inv(a.c1);
        let r = a.c0.times(inv(a.c1));
        BFieldElement::lemma_closed(a.c0, inv(a.c1));
        let t = -r@;
        let l = XFieldElement::of(Quadratic { c0: -t, c1: 1, c2: 0 });
        BFieldElement::lemma_value(r);
        assert(l.c0 == r);
        lemma_times_constant(a.c1, l);
        BFieldElement::lemma_times_commutes(a.c1, r);
        BFieldElement::lemma_times_associates(a.c0, inv(a.c1), a.c1);
        BFieldElement::lemma_times_commutes(inv(a.c1), a.c1);
        lemma_one_times(a.c0);
        lemma_one_times(a.c1);
        lemma_times_zero(a.c1);
        assert(lifted_to_extension(a.c1).times(l) == a);
        lemma_linear_is_invertible(t);
        lemma_constant_is_invertible(a.c1);
        lemma_lift_canonical(a.c1);
        XFieldElement::lemma_of(Quadratic { c0: -t, c1: 1, c2: 0 });
        lemma_invertible_product(lifted_to_extension(a.c1), l);
    }
}

proof fn lemma_lift_canonical(c: BFieldElement)
    requires
        c.canonical(),
    ensures
        lifted_to_extension(c).canonical(),
{
    BFieldElement::lemma_constants_canonical();
}

/// The polynomial `X^2 + t * X + w` is invertible.
proof fn lemma_monic_quadratic_is_invertible(w: int, t: int)
    ensures
        invertible(XFieldElement::of(Quadratic { c0: w, c1: t, c2: 1 })),
{
    let a = Quadratic { c0: w, c1: t, c2: 1 };
    let b = Quadratic { c0: -t, c1: 1, c2: 0 };
    let l0 = -(w * t) - 1;
    let l1 = w - t * t + 1;
    let l = XFieldElement::of(Quadratic { c0: l0, c1: l1, c2: 0 });
    // the product with X - t is of degree at most one
    assert(a.times(b) == (Quadratic { c0: l0, c1: l1, c2: 0 })) by {
        assert(w * (-t) - t * 0 - 1 * 1 == -(w * t) - 1) by (nonlinear_arith);
        assert(w * 1 + t * (-t) + t * 0 + 1 * 1 - 1 * 0 == w - t * t + 1) by (nonlinear_arith);
        assert(w * 0 + t * 1 + 1 * (-t) + 1 * 0 == 0) by (nonlinear_arith);
    }
    lemma_product_of_reduced(a, b);
    XFieldElement::lemma_of(Quadratic { c0: l0, c1: l1, c2: 0 });
    BFieldElement::lemma_operations(l.c0, l.c1);
    if l == XFieldElement::zero() {
        // then t is a root
        let z = t * t * t - t + 1;
        assert(z == 0 - l0 - t * l1) by (nonlinear_arith)
            requires
                z == t * t * t - t + 1,
                l0 == -(w * t) - 1,
                l1 == w - t * t + 1,
        ;
        BFieldElement::lemma_of_operations(t, l1);
        BFieldElement::lemma_of_operations(t, 0);
        BFieldElement::lemma_of_operations(0, l0);
        BFieldElement::lemma_of_operations(0, 0);
        BFieldElement::lemma_of_operations(0 - l0, t * l1);
        lemma_mul_basics(t);
        lemma_no_root(t);
    }
    lemma_degree_one_is_invertible(l);
    lemma_invertible_factor(XFieldElement::of(a), XFieldElement::of(b));
}

/// Every element of the extension field but zero has an inverse.
pub proof fn law_extension_nonzero_is_invertible(a: XFieldElement)
    requires
        a.canonical(),
        a != XFieldElement::zero(),
    ensures
        invertible(a),
{
    if a.c2 == BFieldElement::zero() {
        lemma_degree_one_is_invertible(a);
    } else {
        // a == c2 * (X^2 + u * X + v)
        law_nonzero_is_invertible(a.c2);
        lemma_inv(a.c2);
        let k = inv(a.c2);
        let u = a.c1.times(k);
        let v = a.c0.times(k);
        BFieldElement::lemma_closed(a.c1, k);
        BFieldElement::lemma_closed(a.c0, k);
        BFieldElement::lemma_value(u);
        BFieldElement::lemma_value(v);
        BFieldElement::lemma_operations(u, v);
        let m = XFieldElement::of(Quadratic { c0: v@, c1: u@, c2: 1 });
        lemma_times_constant(a.c2, m);
        BFieldElement::lemma_times_commutes(a.c2, u);
        BFieldElement::lemma_times_commutes(a.c2, v);
        BFieldElement::lemma_times_associates(a.c1, k, a.c2);
        BFieldElement::lemma_times_associates(a.c0, k, a.c2);
        BFieldElement::lemma_times_commutes(k, a.c2);
        lemma_one_times(a.c0);
        lemma_one_times(a.c1);
        lemma_one_times(a.c2);
        assert(lifted_to_extension(a.c2).times(m) == a);
        lemma_monic_quadratic_is_invertible(v@, u@);
        lemma_constant_is_invertible(a.c2);
        lemma_lift_canonical(a.c2);
        XFieldElement::lemma_of(Quadratic { c0: v@, c1: u@, c2: 1 });
        lemma_invertible_product(lifted_to_extension(a.c2), m);
    }
}

/// An element of the extension field that has `2^m` different powers is a primitive
/// root of that order.
pub proof fn law_extension_order_makes_primitive_root(w: XFieldElement, m: nat)
    requires
        w.canonical(),
        is_order(w, pow2(m)),
    ensures
        primitive_root(w, m),
{
    if m > 0 {
        let y = power(w, pow2((m - 1) as nat));
        lemma_root_of_one_minus_one(w, m);
        XFieldElement::lemma_closed(y, XFieldElement::one());
        law_extension_nonzero_is_invertible(y.minus(XFieldElement::one()));
    }
    lemma_order_makes_primitive_root(w, m);
}

// ---- the sizes of domains ----

/// No power of an element of the base field with exponent `2^32` is minus one.
proof fn lemma_no_root_of_minus_one(a: BFieldElement)
    requires
        a.canonical(),
    ensures
        power(a, 0x1_0000_0000) != neg(BFieldElement::one()),
{
    let one = BFieldElement::one();
    let zero = BFieldElement::zero();
    let n = GROUP_ORDER as nat;
    if power(a, 0x1_0000_0000) == neg(one) {
        BFieldElement::lemma_constants_canonical();
        lemma_neg_one_is_not_one::<BFieldElement>();
        // an odd power of minus one is minus one
        lemma_power_multiplies(a, 0x1_0000_0000, 0xffff_ffff);
        lemma_power_of_neg_one::<BFieldElement>(0xffff_ffff);
        assert(power(a, n) == neg(one));
        if a == zero {
            lemma_times_zero(power(a, 0xffff_ffff));
            assert(power(a, 0x1_0000_0000) == zero);
            lemma_neg(one);
            lemma_zero_plus(one);
        } else {
            // but this power is one
            law_power_of_the_quotient(a);
            assert(power(a, n + 1) == a.times(power(a, n)));
            lemma_one_times(a);
            lemma_power_canonical(a, n);
            law_nonzero_is_invertible(a);
            lemma_cancel_factor(a, power(a, n), one);
        }
    }
}

/// The norm of an element of the extension field.
spec fn base_norm(a: XFieldElement) -> BFieldElement {
    BFieldElement::of(a@.norm())
}

/// The norm of a power is the power of the norm.
proof fn lemma_norm_of_power(a: XFieldElement, n: nat)
    ensures
        base_norm(power(a, n)) == power(base_norm(a), n),
    decreases n,
{
    if n == 0 {
        let one = Quadratic { c0: 1, c1: 0, c2: 0 };
        XFieldElement::lemma_of_norm(one);
        lemma_norm_of_constant(1);
        BFieldElement::lemma_operations(base_norm(a), base_norm(a));
    } else {
        let b = power(a, (n - 1) as nat);
        lemma_norm_of_power(a, (n - 1) as nat);
        XFieldElement::lemma_of_norm(a@.times(b@));
        Quadratic::lemma_norm_multiplies(b@, a@);
        lemma_mul_is_commutative(b@.norm(), a@.norm());
        BFieldElement::lemma_of_operations(a@.norm(), b@.norm());
    }
}

/// The norm of a constant is its cube.
proof fn lemma_norm_of_constant(k: int)
    ensures
        (Quadratic { c0: k, c1: 0, c2: 0 }).norm() == k * (k * k),
{
    let a = Quadratic { c0: k, c1: 0, c2: 0 };
    let b = a.shifted();
    let c = b.shifted();
    assert(b == (Quadratic { c0: 0, c1: k, c2: 0 }));
    assert(c == (Quadratic { c0: 0, c1: 0, c2: k }));
    let d = b.cross(c);
    assert(b.c2 * c.c1 == 0 && b.c2 * c.c0 == 0 && b.c0 * c.c2 == 0 && b.c0 * c.c1 == 0 && b.c1
        * c.c0 == 0) by {
        lemma_mul_basics(k);
    }
    assert(d.c0 == k * k);
    lemma_mul_basics(d.c1);
    lemma_mul_basics(d.c2);
}

/// No power of an element of the extension field with exponent `2^32` is minus one.
proof fn lemma_no_extension_root_of_minus_one(a: XFieldElement)
    ensures
        power(a, 0x1_0000_0000) != neg(XFieldElement::one()),
{
    let n = base_norm(a);
    let minus = Quadratic { c0: -1, c1: 0, c2: 0 };
    BFieldElement::lemma_of(a@.norm());
    lemma_norm_of_power(a, 0x1_0000_0000);
    if power(a, 0x1_0000_0000) == neg(XFieldElement::one()) {
        // the norm of minus one is minus one
        BFieldElement::lemma_of_operations(0, 1);
        BFieldElement::lemma_of_operations(0, 0);
        BFieldElement::lemma_operations(n, n);
        assert(neg(XFieldElement::one()) == XFieldElement::of(minus));
        XFieldElement::lemma_of_norm(minus);
        lemma_norm_of_constant(-1);
        assert(power(n, 0x1_0000_0000) == neg(BFieldElement::one()));
        lemma_no_root_of_minus_one(n);
    }
}

/// A primitive root of order `2^m`, with `m` above 32, has a power that is minus one
/// when raised to `2^32`.
proof fn lemma_large_root<F: FieldElement>(w: F, m: nat) -> (v: F)
    requires
        primitive_root(w, m),
        m > 32,
    ensures
        power(v, 0x1_0000_0000) == neg(F::one()),
        v.canonical(),
{
    let e = pow2((m - 33) as nat);
    let v = power(w, e);
    lemma_power_canonical(w, e);
    lemma_power_multiplies(w, e, pow2(32));
    lemma_pow2_adds((m - 33) as nat, 32);
    lemma2_to64();
    v
}

/// Over the base field, every domain that `omega` generates has at most `2^32`
/// points.
pub proof fn law_base_domain_is_small(fri: &Fri<BFieldElement>)
    requires
        fri.valid(),
    ensures
        fri.has_small_domain(),
{
    let m = choose|m: nat| fri.domain_length == #[trigger] pow2(m) && primitive_root(fri.omega, m);
    lemma2_to64();
    if m > 32 {
        let v = lemma_large_root(fri.omega, m);
        lemma_no_root_of_minus_one(v);
    }
    lemma_pow2_monotone(m, 32);
}

/// Over the extension field, every domain that `omega` generates has at most `2^32`
/// points.
pub proof fn law_extension_domain_is_small(fri: &Fri<XFieldElement>)
    requires
        fri.valid(),
    ensures
        fri.has_small_domain(),
{
    let m = choose|m: nat| fri.domain_length == #[trigger] pow2(m) && primitive_root(fri.omega, m);
    lemma2_to64();
    if m > 32 {
        let v = lemma_large_root(fri.omega, m);
        lemma_no_extension_root_of_minus_one(v);
    }
    lemma_pow2_monotone(m, 32);
}

/// Over the base field, parameters whose `omega` has the domain length as its order
/// and whose offset is not zero are those that the laws of the protocol speak of.
pub proof fn law_base_generator_is_valid(fri: &Fri<BFieldElement>, m: nat)
    requires
        fri.sampling_defined(),
        fri.offset.canonical(),
        fri.omega.canonical(),
        fri.offset != BFieldElement::zero(),
        fri.domain_length == pow2(m),
        is_order(fri.omega, pow2(m)),
        2 * fri.domain_length <= usize::MAX,
    ensures
        fri.valid(),
        fri.has_small_domain(),
{
    law_nonzero_is_invertible(fri.offset);
    law_order_makes_primitive_root(fri.omega, m);
    lemma_primitive_root(fri.omega, m);
    law_base_domain_is_small(fri);
}

/// Over the extension field, parameters whose `omega` has the domain length as its order
/// and whose offset is not zero are those that the laws of the protocol speak of.
pub proof fn law_extension_generator_is_valid(fri: &Fri<XFieldElement>, m: nat)
    requires
        fri.sampling_defined(),
        fri.offset.canonical(),
        fri.omega.canonical(),
        fri.offset != XFieldElement::zero(),
        fri.domain_length == pow2(m),
        is_order(fri.omega, pow2(m)),
        2 * fri.domain_length <= usize::MAX,
    ensures
        fri.valid(),
        fri.has_small_domain(),
{
    law_extension_nonzero_is_invertible(fri.offset);
    law_extension_order_makes_primitive_root(fri.omega, m);
    lemma_primitive_root(fri.omega, m);
    law_extension_domain_is_small(fri);
}

} // verus!
