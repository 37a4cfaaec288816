//! The stages of the hash function, one by one.

use vstd::prelude::*;

use crate::algebra::{lemma_sum_canonical, lemma_sum_plus, lemma_times_zero, lemma_zero_plus, sum};
use crate::b_field_element::BFieldElement;
use crate::bytes::{law_eight_bytes, law_value_of_eight_bytes, le_bytes, le_value};
use crate::field::{power, FieldElement};
use crate::tip5::{
    absorbed, after_rounds, law_lookup_fits_a_byte, limbs, looked_up, mixed, padded, pair_digest,
    permuted, row_terms, split_and_looked_up, substituted, varlen_digest, INVERSE_OF_2_64,
    MDS_COLUMN, ROUND_CONSTANTS,
};

verus! {

// ---- the nonlinear layer ----

/// The byte that a byte is replaced with, as an integer.
pub open spec fn cubed(b: int) -> int {
    ((b + 1) * (b + 1) * (b + 1) - 1) % 257
}

/// An element is looked up by way of its multiple by `2^64`: the multiple of the result
/// has each of the eight bytes cubed, where bytes are shifted by one modulo 257.
pub proof fn law_bytes_are_cubed(x: BFieldElement)
    ensures
        ({
            let v = (x@ * 0x1_0000_0000_0000_0000) % 0xffff_ffff_0000_0001;
            split_and_looked_up(x).times(BFieldElement::of(0x1_0000_0000_0000_0000))
                == BFieldElement::of(
                cubed(v % 0x100) + cubed(v / 0x100 % 0x100) * 0x100 + cubed(
                    v / 0x1_0000 % 0x100,
                ) * 0x1_0000 + cubed(v / 0x100_0000 % 0x100) * 0x100_0000 + cubed(
                    v / 0x1_0000_0000 % 0x100,
                ) * 0x1_0000_0000 + cubed(v / 0x100_0000_0000 % 0x100) * 0x100_0000_0000 + cubed(
                    v / 0x1_0000_0000_0000 % 0x100,
                ) * 0x1_0000_0000_0000 + cubed(v / 0x100_0000_0000_0000 % 0x100)
                    * 0x100_0000_0000_0000,
            )
        }),
{
    let w = x@ * 0x1_0000_0000_0000_0000;
    BFieldElement::lemma_of(w);
    BFieldElement::lemma_value(BFieldElement::of(w));
    let v = BFieldElement::of(w)@;
    let bytes = le_bytes(v as nat, 8);
    let replaced = Seq::new(8, |i: int| looked_up(bytes[i]));
    law_eight_bytes(v as nat);
    law_value_of_eight_bytes(replaced);
    assert forall|i: int| 0 <= i < 8 implies #[trigger] replaced[i] == cubed(bytes[i] as int) by {
        law_lookup_fits_a_byte(bytes[i]);
    }
    assert(replaced[0] == cubed(v % 0x100));
    assert(replaced[1] == cubed(v / 0x100 % 0x100));
    assert(replaced[2] == cubed(v / 0x1_0000 % 0x100));
    assert(replaced[3] == cubed(v / 0x100_0000 % 0x100));
    assert(replaced[4] == cubed(v / 0x1_0000_0000 % 0x100));
    assert(replaced[5] == cubed(v / 0x100_0000_0000 % 0x100));
    assert(replaced[6] == cubed(v / 0x1_0000_0000_0000 % 0x100));
    assert(replaced[7] == cubed(v / 0x100_0000_0000_0000 % 0x100));
    let l = le_value(replaced) as int;
    lemma_scaled_back(l);
}

/// The constant undoes a factor of `2^64`.
proof fn lemma_scaled_back(l: int)
    ensures
        BFieldElement::of(l * INVERSE_OF_2_64).times(
            BFieldElement::of(0x1_0000_0000_0000_0000),
        ) == BFieldElement::of(l),
{
    let s = 0x1_0000_0000_0000_0000int;
    let k = 18446744069414584319int;
    BFieldElement::lemma_of_operations(l * INVERSE_OF_2_64, s);
    assert(INVERSE_OF_2_64 * s == 1 + k * 0xffff_ffff_0000_0001);
    assert((l * INVERSE_OF_2_64) * s == l + (l * k) * 0xffff_ffff_0000_0001) by (nonlinear_arith)
        requires
            INVERSE_OF_2_64 * s == 1 + k * 0xffff_ffff_0000_0001,
    ;
    BFieldElement::lemma_of_congruent((l * INVERSE_OF_2_64) * s, l, l * k);
}

/// The first four elements are looked up, the others are raised to the seventh power.
pub proof fn law_substitution(state: Seq<BFieldElement>, i: int)
    requires
        0 <= i < 16,
    ensures
        substituted(state).len() == 16,
        substituted(state)[i] == if i < 4 {
            split_and_looked_up(state[i])
        } else {
            power(state[i], 7)
        },
{
}

// ---- the linear layer ----

/// The linear layer is additive.
pub proof fn law_mixing_is_additive(
    a: Seq<BFieldElement>,
    b: Seq<BFieldElement>,
    c: Seq<BFieldElement>,
    i: int,
)
    requires
        forall|j: int| 0 <= j < 16 ==> #[trigger] c[j] == a[j].plus(b[j]),
        0 <= i < 16,
    ensures
        mixed(c).len() == 16,
        mixed(c)[i] == mixed(a)[i].plus(mixed(b)[i]),
{
    assert forall|j: int| 0 <= j < 16 implies #[trigger] row_terms(c, i)(j) == row_terms(a, i)(
        j,
    ).plus(row_terms(b, i)(j)) by {
        BFieldElement::lemma_times_distributes(
            BFieldElement::of(MDS_COLUMN@[(i - j) % 16] as int),
            a[j],
            b[j],
        );
    }
    lemma_sum_plus(row_terms(a, i), row_terms(b, i), row_terms(c, i), 16);
}

/// Terms that are all zero but one.
proof fn lemma_single_term(f: spec_fn(int) -> BFieldElement, n: nat, j: int)
    requires
        0 <= j,
        forall|k: int| 0 <= k < n && k != j ==> #[trigger] f(k) == BFieldElement::zero(),
        f(j).canonical(),
    ensures
        sum(f, n) == if j < n {
            f(j)
        } else {
            BFieldElement::zero()
        },
    decreases n,
{
    BFieldElement::lemma_constants_canonical();
    if n > 0 {
        lemma_single_term(f, (n - 1) as nat, j);
        lemma_zero_plus(f(j));
        lemma_zero_plus(BFieldElement::zero());
        lemma_sum_canonical(f, (n - 1) as nat);
        lemma_zero_plus(sum(f, (n - 1) as nat));
    }
}

/// A single element is multiplied by a column of the circulant matrix: the first column,
/// moved down by the place of the element.
pub proof fn law_mixing_of_one_element(state: Seq<BFieldElement>, j: int, i: int)
    requires
        0 <= j < 16,
        0 <= i < 16,
        forall|k: int| 0 <= k < 16 && k != j ==> #[trigger] state[k] == BFieldElement::zero(),
    ensures
        mixed(state)[i] == BFieldElement::of(
            MDS_COLUMN@[if i >= j {
                i - j
            } else {
                i - j + 16
            }] as int,
        ).times(state[j]),
{
    let f = row_terms(state, i);
    assert((i - j) % 16 == if i >= j {
        i - j
    } else {
        i - j + 16
    });
    assert forall|k: int| 0 <= k < 16 && k != j implies #[trigger] f(k)
        == BFieldElement::zero() by {
        assert(state[k] == BFieldElement::zero());
        lemma_times_zero(BFieldElement::of(MDS_COLUMN@[(i - k) % 16] as int));
    }
    BFieldElement::lemma_closed(
        BFieldElement::of(MDS_COLUMN@[(i - j) % 16] as int),
        state[j],
    );
    lemma_single_term(f, 16, j);
}

// ---- the permutation ----

/// The permutation consists of five rounds. Each substitutes, mixes, and adds its own
/// sixteen constants.
pub proof fn law_rounds_of_the_permutation(state: Seq<BFieldElement>, k: nat, i: int)
    requires
        0 <= i < 16,
    ensures
        after_rounds(state, 0) == state,
        after_rounds(state, k + 1).len() == 16,
        after_rounds(state, k + 1)[i] == mixed(substituted(after_rounds(state, k)))[i].plus(
            BFieldElement::of(ROUND_CONSTANTS@[16 * k + i] as int),
        ),
        permuted(state) == after_rounds(state, 5),
{
}

// ---- the sponge ----

/// Two digests are permuted together with six ones, and the first five elements are
/// kept.
pub proof fn law_pair_is_permuted(
    left: Seq<BFieldElement>,
    right: Seq<BFieldElement>,
    state: Seq<BFieldElement>,
)
    requires
        left.len() == 5,
        right.len() == 5,
        state.len() == 16,
        forall|i: int|
            0 <= i < 16 ==> #[trigger] state[i] == if i < 5 {
                left[i]
            } else if i < 10 {
                right[i - 5]
            } else {
                BFieldElement::one()
            },
    ensures
        pair_digest(left, right) == permuted(state).subrange(0, 5),
{
    assert(state =~= left + right + Seq::new(6, |i: int| BFieldElement::one()));
}

/// Before anything is absorbed, the state is zero.
pub proof fn law_empty_state(input: Seq<BFieldElement>, i: int)
    requires
        0 <= i < 16,
    ensures
        absorbed(padded(input), 0).len() == 16,
        absorbed(padded(input), 0)[i] == BFieldElement::zero(),
{
}

/// Each chunk of ten elements overwrites the first ten of the state, which is then
/// permuted. The input is followed by a one and by zeros.
pub proof fn law_chunk_is_absorbed(
    input: Seq<BFieldElement>,
    k: nat,
    state: Seq<BFieldElement>,
)
    requires
        10 * k <= input.len(),
        state.len() == 16,
        forall|i: int|
            0 <= i < 16 ==> #[trigger] state[i] == if i >= 10 {
                absorbed(padded(input), k)[i]
            } else if 10 * k + i < input.len() {
                input[10 * k + i]
            } else if 10 * k + i == input.len() {
                BFieldElement::one()
            } else {
                BFieldElement::zero()
            },
    ensures
        absorbed(padded(input), k + 1) == permuted(state),
{
    let before = absorbed(padded(input), k);
    assert(state =~= Seq::new(
        16,
        |i: int|
            if i < 10 {
                padded(input)[10 * (k + 1 - 1) + i]
            } else {
                before[i]
            },
    ));
}

/// The digest of an input is what its state starts with once the chunk that the end of
/// the input falls into has been absorbed.
pub proof fn law_state_is_squeezed(input: Seq<BFieldElement>, k: nat)
    requires
        10 * k <= input.len() < 10 * (k + 1),
    ensures
        varlen_digest(input) == absorbed(padded(input), k + 1).subrange(0, 5),
{
    assert(input.len() / 10 == k);
}

/// A number is hashed as its four limbs of 32 bits, lowest first.
pub proof fn law_limbs_make_up_the_number(value: u128)
    ensures
        limbs(value).len() == 4,
        forall|i: int| 0 <= i < 4 ==> 0 <= (#[trigger] limbs(value)[i])@ < 0x1_0000_0000,
        value == limbs(value)[0]@ + limbs(value)[1]@ * 0x1_0000_0000 + limbs(value)[2]@
            * 0x1_0000_0000_0000_0000 + limbs(value)[3]@ * 0x1_0000_0000_0000_0000_0000_0000,
{
    BFieldElement::lemma_of((value % 0x1_0000_0000) as int);
    BFieldElement::lemma_of((value / 0x1_0000_0000 % 0x1_0000_0000) as int);
    BFieldElement::lemma_of((value / 0x1_0000_0000_0000_0000 % 0x1_0000_0000) as int);
    BFieldElement::lemma_of((value / 0x1_0000_0000_0000_0000_0000_0000) as int);
}

} // verus!
