//! The multiplicative group of the base field: seven generates it, and so there is
//! a root of unity of every order that divides the order of the group.

use vstd::arithmetic::div_mod::*;
use vstd::arithmetic::mul::*;
use vstd::arithmetic::power2::*;
use vstd::prelude::*;

use crate::algebra::{
    lemma_neg_one_is_not_one, lemma_one_times, lemma_power_adds, lemma_power_canonical,
    lemma_power_multiplies, lemma_power_of_one, lemma_power_one, lemma_primitive_root,
    primitive_root,
};
use crate::b_field_element::BFieldElement;
use crate::field::{power, FieldElement};
use crate::group::{is_order, mod_pow_u64};
use crate::primality::lemma_bezout;
use crate::roots::{lemma_two_adic_root, two_adic_root, TWO_ADIC_ROOT};
use crate::x_field_element::XFieldElement;

verus! {

/// An element whose powers are all elements but zero.
pub const GENERATOR: u64 = 7;

/// The number of elements but zero.
pub const GROUP_ORDER: u64 = 0xffff_ffff_0000_0000;

pub open spec fn generator() -> BFieldElement {
    BFieldElement::of(GENERATOR as int)
}

/// The root of unity of order `n`, where `n` divides the order of the group.
pub open spec fn root_of_unity(n: nat) -> BFieldElement {
    power(generator(), GROUP_ORDER as nat / n)
}

/// An element of the prime field as one of the extension field.
pub open spec fn lifted_to_extension(a: BFieldElement) -> XFieldElement {
    XFieldElement { c0: a, c1: BFieldElement::zero(), c2: BFieldElement::zero() }
}

// ---- powers of the generator ----

proof fn lemma_generator_canonical()
    ensures
        generator().canonical(),
{
    BFieldElement::lemma_of(GENERATOR as int);
}

/// A product of two powers.
proof fn lemma_product(e: nat, a: int, f: nat, b: int, c: int)
    requires
        power(generator(), e) == BFieldElement::of(a),
        power(generator(), f) == BFieldElement::of(b),
        (a * b) % 0xffff_ffff_0000_0001 == c,
    ensures
        power(generator(), e + f) == BFieldElement::of(c),
{
    let p = BFieldElement::QUOTIENT as int;
    lemma_power_adds(generator(), e, f);
    BFieldElement::lemma_of_operations(a, b);
    lemma_fundamental_div_mod(a * b, p);
    lemma_mul_is_commutative(p, (a * b) / p);
    BFieldElement::lemma_of_congruent(a * b, c, (a * b) / p);
}

/// The square of a power.
proof fn lemma_square(e: nat, a: int, b: int)
    requires
        power(generator(), e) == BFieldElement::of(a),
        (a * a) % 0xffff_ffff_0000_0001 == b,
    ensures
        power(generator(), 2 * e) == BFieldElement::of(b),
{
    lemma_product(e, a, e, a, b);
    assert(e + e == 2 * e);
}

/// Four squares, one after the other.
proof fn lemma_four_squares(e: nat, a: int, b: int, c: int, d: int, f: int)
    requires
        power(generator(), e) == BFieldElement::of(a),
        (a * a) % 0xffff_ffff_0000_0001 == b,
        (b * b) % 0xffff_ffff_0000_0001 == c,
        (c * c) % 0xffff_ffff_0000_0001 == d,
        (d * d) % 0xffff_ffff_0000_0001 == f,
    ensures
        power(generator(), 16 * e) == BFieldElement::of(f),
{
    lemma_square(e, a, b);
    lemma_square(2 * e, b, c);
    lemma_square(2 * (2 * e), c, d);
    lemma_square(2 * (2 * (2 * e)), d, f);
    assert(2 * (2 * (2 * (2 * e))) == 16 * e);
}

/// Up to the exponent `2^32`.
proof fn lemma_two_adic_part()
    ensures
        power(generator(), 4294967295) == BFieldElement::of(1753635133440165772),
        power(generator(), 4294967296) == BFieldElement::of(12275445934081160404),
{
    lemma_generator_canonical();
    lemma_power_one(generator());
    lemma_square(1, 7, 49);
    lemma_product(2, 49, 1, 7, 343);
    lemma_square(3, 343, 117649);
    lemma_square(6, 117649, 13841287201);
    lemma_product(12, 13841287201, 3, 343, 4747561509943);
    lemma_four_squares(
        15,
        4747561509943,
        1582037354089406189,
        6704211459967285318,
        12536486945555764682,
        8329639379454877396,
    );
    lemma_product(240, 8329639379454877396, 15, 4747561509943, 8125271997680889877);
    lemma_four_squares(
        255,
        8125271997680889877,
        10915923311382173605,
        8682737361258234340,
        13168992710278412212,
        3615243740316660512,
    );
    lemma_four_squares(
        4080,
        3615243740316660512,
        9701552052102210316,
        12082995573853045936,
        2592469405483382171,
        8929377406043347353,
    );
    lemma_product(65280, 8929377406043347353, 255, 8125271997680889877, 12134830135347446949);
    lemma_four_squares(
        65535,
        12134830135347446949,
        618113109518621269,
        10057574059836717585,
        11436575600859740313,
        2460531272136303351,
    );
    lemma_four_squares(
        1048560,
        2460531272136303351,
        5287351674330089703,
        2729558173611838869,
        5809869834850305452,
        4380238239217790048,
    );
    lemma_four_squares(
        16776960,
        4380238239217790048,
        10313688370767105378,
        1116132233887293652,
        8201916556687100419,
        9569002298025400893,
    );
    lemma_four_squares(
        268431360,
        9569002298025400893,
        3860342023949954178,
        2518827640559301834,
        4408381949760333744,
        5214785644524920463,
    );
    lemma_product(
        4294901760,
        5214785644524920463,
        65535,
        12134830135347446949,
        1753635133440165772,
    );
    lemma_product(4294967295, 1753635133440165772, 1, 7, 12275445934081160404);
}

/// Up to the cofactor of 65537.
proof fn lemma_part_65537()
    requires
        power(generator(), 4294967296) == BFieldElement::of(12275445934081160404),
    ensures
        power(generator(), 12884901888) == BFieldElement::of(1279992132519201448),
        power(generator(), 64424509440) == BFieldElement::of(11274872323250451096),
        power(generator(), 1095216660480) == BFieldElement::of(17588058450869219263),
        power(generator(), 280375465082880) == BFieldElement::of(13464544557546266752),
        power(generator(), 281470681743360) == BFieldElement::of(8478886009461009681),
{
    lemma_square(4294967296, 12275445934081160404, 4756475762779100925);
    lemma_product(
        8589934592,
        4756475762779100925,
        4294967296,
        12275445934081160404,
        1279992132519201448,
    );
    lemma_square(12884901888, 1279992132519201448, 11302600489504509467);
    lemma_square(25769803776, 11302600489504509467, 15099809066790865939);
    lemma_product(
        51539607552,
        15099809066790865939,
        12884901888,
        1279992132519201448,
        11274872323250451096,
    );
    lemma_four_squares(
        64424509440,
        11274872323250451096,
        12069298394184580155,
        5428282574489895836,
        15488913980707339956,
        14489374604437787495,
    );
    lemma_product(
        1030792151040,
        14489374604437787495,
        64424509440,
        11274872323250451096,
        17588058450869219263,
    );
    lemma_four_squares(
        1095216660480,
        17588058450869219263,
        683923235602147932,
        8835979233172182436,
        3355407709622930266,
        17799430507262292938,
    );
    lemma_four_squares(
        17523466567680,
        17799430507262292938,
        11182389913569094181,
        11350173437670463340,
        13348485338936455432,
        13464544557546266752,
    );
    lemma_product(
        280375465082880,
        13464544557546266752,
        1095216660480,
        17588058450869219263,
        8478886009461009681,
    );
}

/// The cofactor of 257.
proof fn lemma_part_257()
    requires
        power(generator(), 1095216660480) == BFieldElement::of(17588058450869219263),
        power(generator(), 280375465082880) == BFieldElement::of(13464544557546266752),
    ensures
        power(generator(), 71777214277877760) == BFieldElement::of(995085315851368103),
{
    lemma_four_squares(
        280375465082880,
        13464544557546266752,
        2636486945714830121,
        14684247676495287617,
        2274794405394038417,
        6159580149661827629,
    );
    lemma_four_squares(
        4486007441326080,
        6159580149661827629,
        12783639365566130366,
        17977965052847340432,
        6754625258790389526,
        13841762663831489400,
    );
    lemma_product(
        71776119061217280,
        13841762663831489400,
        1095216660480,
        17588058450869219263,
        995085315851368103,
    );
}

/// The cofactor of 17.
proof fn lemma_part_17()
    requires
        power(generator(), 64424509440) == BFieldElement::of(11274872323250451096),
    ensures
        power(generator(), 1085102592318504960) == BFieldElement::of(16301593560560007290),
{
    lemma_four_squares(
        64424509440,
        11274872323250451096,
        12069298394184580155,
        5428282574489895836,
        15488913980707339956,
        14489374604437787495,
    );
    lemma_four_squares(
        1030792151040,
        14489374604437787495,
        12206518770029942281,
        413094928346096057,
        15766010878259212757,
        3657091858122848375,
    );
    lemma_product(
        16492674416640,
        3657091858122848375,
        64424509440,
        11274872323250451096,
        17081009302073449373,
    );
    lemma_four_squares(
        16557098926080,
        17081009302073449373,
        9712290447447227715,
        18353052305479501654,
        3495479116764033220,
        3168539979805436219,
    );
    lemma_four_squares(
        264913582817280,
        3168539979805436219,
        3637221273663582256,
        8164110716181655783,
        2719056059350969794,
        14606834437484321538,
    );
    lemma_four_squares(
        4238617325076480,
        14606834437484321538,
        17538078484879494127,
        13322349472364422993,
        271701169835891804,
        8426978637769344579,
    );
    lemma_four_squares(
        67817877201223680,
        8426978637769344579,
        17272401663244671350,
        12667552657477068085,
        18125504883219885493,
        4923149005013927666,
    );
    lemma_product(
        1085086035219578880,
        4923149005013927666,
        16557098926080,
        17081009302073449373,
        16301593560560007290,
    );
}

/// The cofactor of 5.
proof fn lemma_part_5()
    requires
        power(generator(), 12884901888) == BFieldElement::of(1279992132519201448),
    ensures
        power(generator(), 3689348813882916864) == BFieldElement::of(1373043270956696022),
{
    lemma_four_squares(
        12884901888,
        1279992132519201448,
        11302600489504509467,
        15099809066790865939,
        14878451024585790464,
        3986470656093777568,
    );
    lemma_product(
        206158430208,
        3986470656093777568,
        12884901888,
        1279992132519201448,
        3080292546802250491,
    );
    lemma_four_squares(
        219043332096,
        3080292546802250491,
        17006525114682413860,
        8083283331813898072,
        16743901597616345696,
        794970792167364242,
    );
    lemma_four_squares(
        3504693313536,
        794970792167364242,
        7546388582528536283,
        10653659328813066384,
        827457396601441529,
        5645433850935072186,
    );
    lemma_product(
        56075093016576,
        5645433850935072186,
        219043332096,
        3080292546802250491,
        13117622064007455443,
    );
    lemma_four_squares(
        56294136348672,
        13117622064007455443,
        9907097673348654079,
        6822962341432118346,
        8387774438723502474,
        16263287269256390051,
    );
    lemma_four_squares(
        900706181578752,
        16263287269256390051,
        494088566814603655,
        1807241665396374533,
        13307880886342077856,
        18131792825513456230,
    );
    lemma_four_squares(
        14411298905260032,
        18131792825513456230,
        1081271948764867619,
        9260288528947417886,
        7218436129030341502,
        16869632680291716959,
    );
    lemma_four_squares(
        230580782484160512,
        16869632680291716959,
        11938567439809785070,
        9248764056160822388,
        16423827349953371834,
        351299289206469995,
    );
    lemma_product(
        3689292519746568192,
        351299289206469995,
        56294136348672,
        13117622064007455443,
        1373043270956696022,
    );
}

/// The cofactor of 3.
proof fn lemma_part_3()
    requires
        power(generator(), 4294967296) == BFieldElement::of(12275445934081160404),
    ensures
        power(generator(), 6148914689804861440) == BFieldElement::of(18446744065119617025),
{
    lemma_square(4294967296, 12275445934081160404, 4756475762779100925);
    lemma_square(8589934592, 4756475762779100925, 8312008622371998338);
    lemma_product(
        17179869184,
        8312008622371998338,
        4294967296,
        12275445934081160404,
        7781028390488215464,
    );
    lemma_four_squares(
        21474836480,
        7781028390488215464,
        16538725463549498621,
        7240278926970958133,
        2933687313377291533,
        9171584139645391685,
    );
    lemma_product(
        343597383680,
        9171584139645391685,
        21474836480,
        7781028390488215464,
        4733570987445959623,
    );
    lemma_four_squares(
        365072220160,
        4733570987445959623,
        10619881994662283040,
        14683850830539800883,
        4820919645240105078,
        3202614590602328516,
    );
    lemma_four_squares(
        5841155522560,
        3202614590602328516,
        6113754203944115352,
        17997615147442086792,
        8411457785826346464,
        14429561761737960082,
    );
    lemma_product(
        93458488360960,
        14429561761737960082,
        365072220160,
        4733570987445959623,
        144820208228696286,
    );
    lemma_four_squares(
        93823560581120,
        144820208228696286,
        3684268560309858177,
        2363289453392170952,
        7587693404843662632,
        12515164493598922578,
    );
    lemma_four_squares(
        1501176969297920,
        12515164493598922578,
        8965467266562060677,
        6842111060429192961,
        12254440090107020518,
        11655435991352351163,
    );
    lemma_four_squares(
        24018831508766720,
        11655435991352351163,
        3340255778841623647,
        12758233786500560203,
        2554443020152129300,
        419800627511671363,
    );
    lemma_four_squares(
        384301304140267520,
        419800627511671363,
        6417457863729027941,
        235579216894932503,
        2870055250468911957,
        16697449633631685757,
    );
    lemma_product(
        6148820866244280320,
        16697449633631685757,
        93823560581120,
        144820208228696286,
        18446744065119617025,
    );
}

/// Whether `q` is a prime factor of the order of the group.
spec fn is_group_prime(q: int) -> bool {
    q == 2 || q == 3 || q == 5 || q == 17 || q == 257 || q == 65537
}

/// The generator to the order of the group is one, but not to a maximal proper
/// divisor of it.
proof fn lemma_maximal_divisors(q: nat)
    requires
        is_group_prime(q as int),
    ensures
        power(generator(), GROUP_ORDER as nat) == BFieldElement::one(),
        power(generator(), GROUP_ORDER as nat / q) != BFieldElement::one(),
{
    let g = generator();
    lemma_two_adic_part();
    // the even part
    lemma2_to64();
    lemma_two_adic_root(32);
    lemma_two_adic_base();
    let w = two_adic_root(32);
    lemma_primitive_root(w, 32);
    lemma_power_multiplies(g, 0xffff_ffff, pow2(32));
    lemma_power_multiplies(g, 0xffff_ffff, pow2(31));
    lemma_neg_one_is_not_one::<BFieldElement>();
    // the odd part
    lemma_part_65537();
    lemma_part_257();
    lemma_part_17();
    lemma_part_5();
    lemma_part_3();
    BFieldElement::lemma_operations(g, g);
    BFieldElement::lemma_of(1);
    BFieldElement::lemma_of(18446744065119617025);
    BFieldElement::lemma_of(1373043270956696022);
    BFieldElement::lemma_of(16301593560560007290);
    BFieldElement::lemma_of(995085315851368103);
    BFieldElement::lemma_of(8478886009461009681);
}

/// The root of order `2^32` is a power of the generator.
proof fn lemma_two_adic_base()
    ensures
        two_adic_root(32) == BFieldElement::of(TWO_ADIC_ROOT as int),
        power(generator(), 0xffff_ffff) == two_adic_root(32),
{
    lemma2_to64();
    BFieldElement::lemma_of(TWO_ADIC_ROOT as int);
    lemma_power_one(BFieldElement::of(TWO_ADIC_ROOT as int));
    lemma_two_adic_part();
}

// ---- divisors of the order of the group ----

/// The prime factors are prime.
proof fn lemma_group_prime(q: int, d: int, e: int)
    requires
        is_group_prime(q),
        d > 0,
        e > 0,
        d * e == q,
    ensures
        d == 1 || e == 1,
{
    if d > 1 && e > 1 {
        let f: int = if d <= e {
            d
        } else {
            e
        };
        assert(f * f <= q) by (nonlinear_arith)
            requires
                d * e == q,
                d > 1,
                e > 1,
                f == d || f == e,
                f <= d,
                f <= e,
        ;
        lemma_mul_is_commutative(d, e);
        lemma_mod_multiples_basic(e, d);
        lemma_mod_multiples_basic(d, e);
        assert(q % f == 0);
        assert(f <= 256) by (nonlinear_arith)
            requires
                f * f <= q,
                q <= 65537,
                f >= 0,
        ;
        assert(q <= 257 ==> f <= 16) by (nonlinear_arith)
            requires
                f * f <= q,
                f >= 0,
        ;
        assert(q <= 17 ==> f <= 4) by (nonlinear_arith)
            requires
                f * f <= q,
                f >= 0,
        ;
        let c: u32 = f as u32;
        assert(65537u32 % c != 0) by (bit_vector)
            requires
                2 <= c <= 256,
        ;
        assert(c <= 16 ==> 257u32 % c != 0) by (bit_vector)
            requires
                2 <= c <= 256,
        ;
        assert(c <= 4 ==> 17u32 % c != 0) by (bit_vector)
            requires
                2 <= c <= 256,
        ;
        assert(q <= 5 ==> f <= 2) by (nonlinear_arith)
            requires
                f * f <= q,
                f >= 0,
        ;
        assert(q <= 3 ==> f <= 1) by (nonlinear_arith)
            requires
                f * f <= q,
                f >= 0,
        ;
        assert(c == f);
        assert(q == 5 ==> f == 2);
        assert(5int % 2 == 1);
        assert(65537int % f != 0);
        assert(f <= 16 ==> 257int % f != 0);
        assert(f <= 4 ==> 17int % f != 0);
    }
}

/// A factor that `u` does not have can be taken out of a multiple of `u`.
proof fn lemma_take_out(q: int, u: int, g: int, n: int) -> (h: int)
    requires
        is_group_prime(q),
        u > 0,
        u % q != 0,
        g * u == q * n,
    ensures
        h * u == n,
{
    let (d, s, t, x, y) = lemma_bezout(q, u);
    if x <= 0 {
        assert(d * x <= 0) by (nonlinear_arith)
            requires
                d > 0,
                x <= 0,
        ;
    }
    lemma_group_prime(q, d, x);
    if x == 1 {
        assert(d == q);
        lemma_mul_is_commutative(q, y);
        lemma_mod_multiples_basic(y, q);
    }
    assert(d == 1);
    let h = g * s + t * n;
    assert(g == q * h) by (nonlinear_arith)
        requires
            1 == s * q + t * u,
            g * u == q * n,
            h == g * s + t * n,
    {
        assert(g == g * (s * q + t * u));
        assert(g * (s * q + t * u) == q * (g * s) + t * (g * u));
        assert(t * (g * u) == t * (q * n));
        assert(q * (g * s) + t * (q * n) == q * (g * s + t * n));
    }
    assert(h * u == n) by (nonlinear_arith)
        requires
            g * u == q * n,
            g == q * h,
            q > 0,
    {
        assert(q * (h * u) == q * n);
    }
    h
}

/// The factors two can be taken out of a multiple of an odd `u`.
proof fn lemma_take_out_twos(k: nat, u: int, g: int, n: int) -> (h: int)
    requires
        u > 0,
        u % 2 != 0,
        g * u == pow2(k) * n,
    ensures
        h * u == n,
    decreases k,
{
    if k == 0 {
        lemma2_to64();
        assert(pow2(0) * n == n) by (nonlinear_arith)
            requires
                pow2(0) == 1,
        ;
        g
    } else {
        let j = (k - 1) as nat;
        lemma_pow2_unfold(k);
        assert(pow2(k) * n == 2 * (pow2(j) * n)) by (nonlinear_arith)
            requires
                pow2(k) == 2 * pow2(j),
        ;
        let f = lemma_take_out(2, u, g, pow2(j) * n);
        lemma_take_out_twos(j, u, f, n)
    }
}

/// Every divisor of the order of the group but one has a prime factor.
proof fn lemma_divisor_has_prime(g: int, u: int) -> (q: nat)
    requires
        g * u == GROUP_ORDER,
        u > 1,
    ensures
        is_group_prime(q as int),
        u % (q as int) == 0,
{
    if u % 2 == 0 {
        2
    } else if u % 3 == 0 {
        3
    } else if u % 5 == 0 {
        5
    } else if u % 17 == 0 {
        17
    } else if u % 257 == 0 {
        257
    } else if u % 65537 == 0 {
        65537
    } else {
        lemma2_to64();
        let h = lemma_take_out_twos(32, u, g, 0xffff_ffff);
        let h = lemma_take_out(3, u, h, 1431655765);
        let h = lemma_take_out(5, u, h, 286331153);
        let h = lemma_take_out(17, u, h, 16843009);
        let h = lemma_take_out(257, u, h, 65537);
        let h = lemma_take_out(65537, u, h, 1);
        assert(false) by (nonlinear_arith)
            requires
                h * u == 1,
                u > 1,
        ;
        2
    }
}

/// A common divisor `g` of two exponents that give one, which gives one too: returns
/// `(g, u, v)` with `a == g * u` and `b == g * v`.
proof fn lemma_common_divisor(x: BFieldElement, a: nat, b: nat) -> (r: (nat, nat, nat))
    requires
        a > 0,
        power(x, a) == BFieldElement::one(),
        power(x, b) == BFieldElement::one(),
    ensures
        r.0 > 0,
        a == r.0 * r.1,
        b == r.0 * r.2,
        power(x, r.0) == BFieldElement::one(),
    decreases b,
{
    if b == 0 {
        assert(a * 1 == a && a * 0 == 0) by (nonlinear_arith);
        (a, 1, 0)
    } else {
        let q = a / b;
        let c = a % b;
        lemma_fundamental_div_mod(a as int, b as int);
        lemma_mod_bound(a as int, b as int);
        lemma_power_adds(x, b * q, c);
        lemma_power_multiplies(x, b, q);
        lemma_power_of_one::<BFieldElement>(q);
        lemma_power_canonical(x, c);
        lemma_one_times(power(x, c));
        assert(b * q + c == a);
        let (g, u, v) = lemma_common_divisor(x, b, c);
        assert(a == g * (u * q + v)) by (nonlinear_arith)
            requires
                a == b * q + c,
                b == g * u,
                c == g * v,
        ;
        (g, u * q + v, u)
    }
}

/// The powers of seven are all elements but zero.
pub proof fn law_generator_generates()
    ensures
        is_order(generator(), GROUP_ORDER as nat),
{
    let n = GROUP_ORDER as nat;
    let x = generator();
    lemma_maximal_divisors(2);
    assert forall|k: nat| 0 < k < n implies #[trigger] power(x, k) != BFieldElement::one() by {
        if power(x, k) == BFieldElement::one() {
            let (g, u, v) = lemma_common_divisor(x, n, k);
            assert(u > 1) by (nonlinear_arith)
                requires
                    n == g * u,
                    k == g * v,
                    0 < k < n,
                    u >= 0,
                    v >= 0,
            ;
            let q = lemma_divisor_has_prime(g as int, u as int);
            let w = u / q;
            lemma_fundamental_div_mod(u as int, q as int);
            assert(n == q * (g * w)) by (nonlinear_arith)
                requires
                    n == g * u,
                    u == q * w,
            ;
            lemma_mul_is_commutative(q as int, (g * w) as int);
            lemma_div_multiples_vanish((g * w) as int, q as int);
            lemma_power_multiplies(x, g, w);
            lemma_power_of_one::<BFieldElement>(w);
            lemma_maximal_divisors(q);
        }
    }
}

// ---- roots of unity ----

/// The root of unity of order `n` has that order.
pub proof fn law_root_of_unity_has_its_order(n: nat)
    requires
        n > 0,
        GROUP_ORDER as nat % n == 0,
    ensures
        is_order(root_of_unity(n), n),
{
    let x = generator();
    let d = GROUP_ORDER as nat / n;
    let w = root_of_unity(n);
    law_generator_generates();
    lemma_fundamental_div_mod(GROUP_ORDER as int, n as int);
    lemma_mul_is_commutative(d as int, n as int);
    lemma_power_multiplies(x, d, n);
    assert forall|k: nat| 0 < k < n implies #[trigger] power(w, k) != BFieldElement::one() by {
        lemma_power_multiplies(x, d, k);
        assert(0 < d * k < GROUP_ORDER) by (nonlinear_arith)
            requires
                d * n == GROUP_ORDER,
                0 < k < n,
                GROUP_ORDER > 0,
        ;
    }
}

/// The root of unity of order `2^m` is a primitive root.
pub proof fn lemma_root_of_unity_is_primitive(m: nat)
    requires
        m <= 32,
    ensures
        GROUP_ORDER as nat % pow2(m) == 0,
        primitive_root(root_of_unity(pow2(m)), m),
{
    let x = generator();
    let s = pow2((32 - m) as nat);
    lemma2_to64();
    lemma_pow2_pos(m);
    lemma_pow2_adds(m, (32 - m) as nat);
    assert(GROUP_ORDER == (0xffff_ffff * s) * pow2(m)) by (nonlinear_arith)
        requires
            pow2(m) * s == 0x1_0000_0000,
            GROUP_ORDER == 0xffff_ffff * 0x1_0000_0000,
    ;
    lemma_mul_is_commutative((0xffff_ffff * s) as int, pow2(m) as int);
    lemma_div_multiples_vanish((0xffff_ffff * s) as int, pow2(m) as int);
    lemma_mod_multiples_basic((0xffff_ffff * s) as int, pow2(m) as int);
    lemma_power_multiplies(x, 0xffff_ffff, s);
    lemma_two_adic_base();
    lemma_two_adic_root(m);
}

impl BFieldElement {
    /// A root of unity of the given order; `None` where the order does not divide
    /// that of the multiplicative group.
    pub fn get_primitive_root_of_unity(order: u64) -> (r: Option<BFieldElement>)
        ensures
            r == if order > 0 && GROUP_ORDER % order == 0 {
                Some(root_of_unity(order as nat))
            } else {
                None
            },
            r matches Some(w) ==> w.canonical() && is_order(w, order as nat),
            r matches Some(w) ==> w == power(
                BFieldElement::of(7),
                0xffff_ffff_0000_0000nat / order as nat,
            ),
            forall|m: nat|
                m <= 32 && order == #[trigger] pow2(m) ==> (r matches Some(w) && primitive_root(
                    w,
                    m,
                )),
    {
        proof {
            assert forall|m: nat| m <= 32 && order == #[trigger] pow2(m) implies order > 0
                && GROUP_ORDER % order == 0 && primitive_root(root_of_unity(order as nat), m) by {
                lemma_pow2_pos(m);
                lemma_root_of_unity_is_primitive(m);
            }
        }
        if order == 0 || GROUP_ORDER % order != 0 {
            return None;
        }
        let g: BFieldElement = BFieldElement::new(GENERATOR);
        proof {
            law_root_of_unity_has_its_order(order as nat);
        }
        Some(mod_pow_u64(g, GROUP_ORDER / order))
    }
}

proof fn lemma_lifted_power(a: BFieldElement, n: nat)
    ensures
        power(lifted_to_extension(a), n) == lifted_to_extension(power(a, n)),
    decreases n,
{
    if n == 0 {
        BFieldElement::lemma_operations(a, a);
    } else {
        lemma_lifted_power(a, (n - 1) as nat);
        XFieldElement::lemma_times_in_subfield(a, power(a, (n - 1) as nat));
    }
}

/// An element keeps its order in the extension field.
proof fn lemma_lifted_order(w: BFieldElement, n: nat)
    requires
        is_order(w, n),
    ensures
        is_order(lifted_to_extension(w), n),
{
    BFieldElement::lemma_operations(w, w);
    assert(XFieldElement::one() == lifted_to_extension(BFieldElement::one()));
    lemma_lifted_power(w, n);
    assert forall|k: nat| 0 < k < n implies #[trigger] power(lifted_to_extension(w), k)
        != XFieldElement::one() by {
        lemma_lifted_power(w, k);
        assert(power(w, k) != BFieldElement::one());
    }
}

/// A primitive root of the prime field is one of the extension field.
proof fn lemma_lifted_root(w: BFieldElement, m: nat)
    requires
        primitive_root(w, m),
    ensures
        primitive_root(lifted_to_extension(w), m),
{
    BFieldElement::lemma_constants_canonical();
    BFieldElement::lemma_operations(w, w);
    BFieldElement::lemma_of_operations(0, 0);
    if m > 0 {
        lemma_lifted_power(w, pow2((m - 1) as nat));
    }
}

impl XFieldElement {
    /// A root of unity of the given order, out of the prime field; `None` where the
    /// order does not divide that of its multiplicative group.
    pub fn get_primitive_root_of_unity(order: u64) -> (r: Option<XFieldElement>)
        ensures
            r == if order > 0 && GROUP_ORDER % order == 0 {
                Some(lifted_to_extension(root_of_unity(order as nat)))
            } else {
                None
            },
            r matches Some(w) ==> w.canonical() && is_order(w, order as nat),
            r matches Some(w) ==> {
                &&& w.c0 == power(BFieldElement::of(7), 0xffff_ffff_0000_0000nat / order as nat)
                &&& w.c1 == BFieldElement::zero()
                &&& w.c2 == BFieldElement::zero()
            },
            forall|m: nat|
                m <= 32 && order == #[trigger] pow2(m) ==> (r matches Some(w) && primitive_root(
                    w,
                    m,
                )),
    {
        match BFieldElement::get_primitive_root_of_unity(order) {
            Some(root) => {
                proof {
                    lemma_lifted_order(root, order as nat);
                    assert forall|m: nat| m <= 32 && order == #[trigger] pow2(m) implies
                        primitive_root(lifted_to_extension(root), m) by {
                        lemma_lifted_root(root, m);
                    }
                }
                Some(XFieldElement::new_const(root))
            },
            None => None,
        }
    }
}

} // verus!
