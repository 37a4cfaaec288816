//! The Tip5 hash function: a sponge over a permutation of sixteen field elements.

use vstd::prelude::*;

use crate::algebra::sum;
use crate::b_field_element::BFieldElement;
use crate::bytes::{le_bytes, le_value, lemma_le_bytes_len, push_u64, read_u64};
use crate::digest::Digest;
use crate::field::{all_canonical, power, FieldElement};
use crate::group::mod_pow_u32;

verus! {

/// The number of elements that the permutation acts on.
pub const STATE_SIZE: usize = 16;

/// The number of elements that are absorbed at a time.
pub const RATE: usize = 10;

/// The number of rounds of the permutation.
pub const NUM_ROUNDS: usize = 5;

/// The number of elements, from the first on, that are looked up byte by byte.
pub const NUM_SPLIT_AND_LOOKUP: usize = 4;

/// The first column of the circulant matrix.
pub const MDS_COLUMN: [u64; 16] = [
    61402, 1108, 28750, 33823,
    7454, 43244, 53865, 12034,
    56951, 27521, 41351, 40901,
    12021, 59689, 26798, 17845,
];

/// The constants that are added at the end of the rounds.
pub const ROUND_CONSTANTS: [u64; 80] = [
    13630775303355457758, 16896927574093233874, 10379449653650130495, 1965408364413093495,
    15232538947090185111, 15892634398091747074, 3989134140024871768, 2851411912127730865,
    8709136439293758776, 3694858669662939734, 12692440244315327141, 10722316166358076749,
    12745429320441639448, 17932424223723990421, 7558102534867937463, 15551047435855531404,
    17532528648579384106, 5216785850422679555, 15418071332095031847, 11921929762955146258,
    9738718993677019874, 3464580399432997147, 13408434769117164050, 264428218649616431,
    4436247869008081381, 4063129435850804221, 2865073155741120117, 5749834437609765994,
    6804196764189408435, 17060469201292988508, 9475383556737206708, 12876344085611465020,
    13835756199368269249, 1648753455944344172, 9836124473569258483, 12867641597107932229,
    11254152636692960595, 16550832737139861108, 11861573970480733262, 1256660473588673495,
    13879506000676455136, 10564103842682358721, 16142842524796397521, 3287098591948630584,
    685911471061284805, 5285298776918878023, 18310953571768047354, 3142266350630002035,
    549990724933663297, 4901984846118077401, 11458643033696775769, 8706785264119212710,
    12521758138015724072, 11877914062416978196, 11333318251134523752, 3933899631278608623,
    16635128972021157924, 10291337173108950450, 4142107155024199350, 16973934533787743537,
    11068111539125175221, 17546769694830203606, 5315217744825068993, 4609594252909613081,
    3350107164315270407, 17715942834299349177, 9600609149219873996, 12894357635820003949,
    4597649658040514631, 7735563950920491847, 1663379455870887181, 13889298103638829706,
    7375530351220884434, 3502022433285269151, 9231805330431056952, 9252272755288523725,
    10014268662326746219, 15565031632950843234, 1209725273521819323, 6024642864597845108,
];

/// The inverse of `2^64`.
pub const INVERSE_OF_2_64: u64 = 18446744065119617025;

// ---- the permutation ----

/// The byte that a byte is replaced with: the cube map, shifted by one.
pub open spec fn looked_up(b: u8) -> u8 {
    (((b + 1) * (b + 1) * (b + 1) - 1) % 257) as u8
}

/// The element whose multiple by `2^64` has each byte of that of `x` looked up.
pub open spec fn split_and_looked_up(x: BFieldElement) -> BFieldElement {
    let bytes = le_bytes(BFieldElement::of(x@ * 0x1_0000_0000_0000_0000)@ as nat, 8);
    let replaced = Seq::new(8, |i: int| looked_up(bytes[i]));
    BFieldElement::of(le_value(replaced) * INVERSE_OF_2_64)
}

/// The nonlinear layer.
pub open spec fn substituted(state: Seq<BFieldElement>) -> Seq<BFieldElement> {
    Seq::new(
        STATE_SIZE as nat,
        |i: int|
            if i < NUM_SPLIT_AND_LOOKUP {
                split_and_looked_up(state[i])
            } else {
                power(state[i], 7)
            },
    )
}

/// The terms of row `i` of the product of the circulant matrix with `state`.
pub open spec fn row_terms(state: Seq<BFieldElement>, i: int) -> spec_fn(int) -> BFieldElement {
    |j: int| BFieldElement::of(MDS_COLUMN@[(i - j) % 16] as int).times(state[j])
}

/// The linear layer.
pub open spec fn mixed(state: Seq<BFieldElement>) -> Seq<BFieldElement> {
    Seq::new(STATE_SIZE as nat, |i: int| sum(row_terms(state, i), STATE_SIZE as nat))
}

/// One round.
pub open spec fn after_round(state: Seq<BFieldElement>, round: int) -> Seq<BFieldElement> {
    let m = mixed(substituted(state));
    Seq::new(
        STATE_SIZE as nat,
        |i: int| m[i].plus(BFieldElement::of(ROUND_CONSTANTS@[16 * round + i] as int)),
    )
}

/// The first `k` rounds.
pub open spec fn after_rounds(state: Seq<BFieldElement>, k: nat) -> Seq<BFieldElement>
    decreases k,
{
    if k == 0 {
        state
    } else {
        after_round(after_rounds(state, (k - 1) as nat), k - 1)
    }
}

/// The permutation.
pub open spec fn permuted(state: Seq<BFieldElement>) -> Seq<BFieldElement> {
    after_rounds(state, NUM_ROUNDS as nat)
}

/// Bytes are looked up without loss.
pub proof fn law_lookup_fits_a_byte(b: u8)
    ensures
        looked_up(b) == ((b + 1) * (b + 1) * (b + 1) - 1) % 257,
{
    let t: u32 = (b + 1) as u32;
    assert((t * t * t) % 257 != 0) by (bit_vector)
        requires
            1 <= t <= 256,
    ;
}

/// Looks up a byte.
fn look_up(b: u8) -> (r: u8)
    ensures
        r == looked_up(b),
{
    let t: u32 = b as u32 + 1;
    proof {
        assert(t * t * t <= 0x100_0000 && t * t * t >= 1 && t * t <= 0x1_0000) by (nonlinear_arith)
            requires
                1 <= t <= 256,
        ;
    }
    ((t * t * t - 1) % 257) as u8
}

/// Looks up the bytes of an element.
fn split_and_look_up(x: BFieldElement) -> (r: BFieldElement)
    requires
        x.canonical(),
    ensures
        r == split_and_looked_up(x),
{
    let factor: BFieldElement = BFieldElement::new(0xffff_ffff);
    let shifted: BFieldElement = x.mul(factor);
    proof {
        // 2^64 is congruent to 2^32 - 1
        BFieldElement::lemma_value(x);
        BFieldElement::lemma_of_operations(x@, 0xffff_ffff);
        let p = BFieldElement::QUOTIENT as int;
        assert(x@ * 0x1_0000_0000_0000_0000 == x@ * 0xffff_ffff + x@ * p) by (nonlinear_arith)
            requires
                p == 0xffff_ffff_0000_0001,
        ;
        BFieldElement::lemma_of_congruent(x@ * 0x1_0000_0000_0000_0000, x@ * 0xffff_ffff, x@);
        lemma_le_bytes_len(shifted@ as nat, 8);
    }
    let mut bytes: Vec<u8> = Vec::new();
    push_u64(&mut bytes, shifted.value());
    assert(bytes@ =~= le_bytes(shifted@ as nat, 8));
    let mut replaced: Vec<u8> = Vec::new();
    let mut i: usize = 0;
    while i < 8
        invariant
            i <= 8,
            bytes@.len() == 8,
            replaced@.len() == i,
            forall|j: int| 0 <= j < i ==> #[trigger] replaced@[j] == looked_up(bytes@[j]),
        decreases 8 - i,
    {
        replaced.push(look_up(bytes[i]));
        i = i + 1;
    }
    assert(replaced@.subrange(0, 8) =~= Seq::new(8, |i: int| looked_up(bytes@[i])));
    let value: u64 = read_u64(&replaced, 0);
    proof {
        BFieldElement::lemma_of_operations(value as int, INVERSE_OF_2_64 as int);
    }
    BFieldElement::new(value).mul(BFieldElement::new(INVERSE_OF_2_64))
}

/// The nonlinear layer.
fn substitute(state: &Vec<BFieldElement>) -> (r: Vec<BFieldElement>)
    requires
        state@.len() == STATE_SIZE,
        all_canonical(state@),
    ensures
        r@ == substituted(state@),
        all_canonical(r@),
{
    let mut r: Vec<BFieldElement> = Vec::new();
    let mut i: usize = 0;
    while i < STATE_SIZE
        invariant
            i <= STATE_SIZE,
            state@.len() == STATE_SIZE,
            all_canonical(state@),
            r@.len() == i,
            all_canonical(r@),
            forall|j: int| 0 <= j < i ==> #[trigger] r@[j] == substituted(state@)[j],
        decreases STATE_SIZE - i,
    {
        let x: BFieldElement = state[i];
        let y: BFieldElement = if i < NUM_SPLIT_AND_LOOKUP {
            split_and_look_up(x)
        } else {
            mod_pow_u32(x, 7)
        };
        proof {
            use_type_invariant(&y);
            BFieldElement::lemma_type_invariant(y);
        }
        r.push(y);
        i = i + 1;
    }
    assert(r@ =~= substituted(state@));
    r
}

/// The linear layer.
fn mix(state: &Vec<BFieldElement>) -> (r: Vec<BFieldElement>)
    requires
        state@.len() == STATE_SIZE,
        all_canonical(state@),
    ensures
        r@ == mixed(state@),
        all_canonical(r@),
{
    let mut r: Vec<BFieldElement> = Vec::new();
    let mut i: usize = 0;
    while i < STATE_SIZE
        invariant
            i <= STATE_SIZE,
            state@.len() == STATE_SIZE,
            all_canonical(state@),
            r@.len() == i,
            all_canonical(r@),
            forall|k: int| 0 <= k < i ==> #[trigger] r@[k] == mixed(state@)[k],
        decreases STATE_SIZE - i,
    {
        let ghost terms: spec_fn(int) -> BFieldElement = row_terms(state@, i as int);
        let mut acc: BFieldElement = BFieldElement::ring_zero();
        let mut j: usize = 0;
        proof {
            BFieldElement::lemma_constants_canonical();
        }
        while j < STATE_SIZE
            invariant
                i < STATE_SIZE,
                j <= STATE_SIZE,
                state@.len() == STATE_SIZE,
                all_canonical(state@),
                terms == row_terms(state@, i as int),
                acc.canonical(),
                acc == sum(terms, j as nat),
            decreases STATE_SIZE - j,
        {
            let coefficient: BFieldElement = BFieldElement::new(MDS_COLUMN[(i + 16 - j) % 16]);
            proof {
                assert((i + 16 - j) % 16 == (i - j) % 16);
                BFieldElement::lemma_closed(coefficient, state@[j as int]);
                BFieldElement::lemma_closed(acc, coefficient.times(state@[j as int]));
            }
            acc = acc.add(coefficient.mul(state[j]));
            j = j + 1;
        }
        r.push(acc);
        i = i + 1;
    }
    assert(r@ =~= mixed(state@));
    r
}

/// The permutation.
fn permute(state: Vec<BFieldElement>) -> (r: Vec<BFieldElement>)
    requires
        state@.len() == STATE_SIZE,
        all_canonical(state@),
    ensures
        r@ == permuted(state@),
        r@.len() == STATE_SIZE,
        all_canonical(r@),
{
    let ghost start: Seq<BFieldElement> = state@;
    let mut current: Vec<BFieldElement> = state;
    let mut round: usize = 0;
    while round < NUM_ROUNDS
        invariant
            round <= NUM_ROUNDS,
            current@.len() == STATE_SIZE,
            all_canonical(current@),
            current@ == after_rounds(start, round as nat),
        decreases NUM_ROUNDS - round,
    {
        let linear: Vec<BFieldElement> = mix(&substitute(&current));
        let mut next: Vec<BFieldElement> = Vec::new();
        let mut i: usize = 0;
        while i < STATE_SIZE
            invariant
                i <= STATE_SIZE,
                round < NUM_ROUNDS,
                linear@ == mixed(substituted(current@)),
                all_canonical(linear@),
                next@.len() == i,
                all_canonical(next@),
                forall|j: int|
                    0 <= j < i ==> #[trigger] next@[j] == after_round(current@, round as int)[j],
            decreases STATE_SIZE - i,
        {
            let constant: BFieldElement = BFieldElement::new(ROUND_CONSTANTS[16 * round + i]);
            proof {
                BFieldElement::lemma_closed(linear@[i as int], constant);
            }
            next.push(linear[i].add(constant));
            i = i + 1;
        }
        assert(next@ =~= after_round(current@, round as int));
        current = next;
        round = round + 1;
    }
    current
}

// ---- hashing ----

/// The number of chunks into which an input of length `n` is padded.
pub open spec fn chunk_count(n: nat) -> nat {
    n / (RATE as nat) + 1
}

/// The input, followed by a one and by zeros up to a whole number of chunks.
pub open spec fn padded(input: Seq<BFieldElement>) -> Seq<BFieldElement> {
    Seq::new(
        RATE as nat * chunk_count(input.len()),
        |i: int|
            if i < input.len() {
                input[i]
            } else if i == input.len() {
                BFieldElement::one()
            } else {
                BFieldElement::zero()
            },
    )
}

/// The state after `k` chunks of `blocks` have been absorbed: each overwrites the
/// first elements of the state before it is permuted.
pub open spec fn absorbed(blocks: Seq<BFieldElement>, k: nat) -> Seq<BFieldElement>
    decreases k,
{
    if k == 0 {
        Seq::new(STATE_SIZE as nat, |i: int| BFieldElement::zero())
    } else {
        let before = absorbed(blocks, (k - 1) as nat);
        permuted(
            Seq::new(
                STATE_SIZE as nat,
                |i: int|
                    if i < RATE {
                        blocks[RATE * (k - 1) + i]
                    } else {
                        before[i]
                    },
            ),
        )
    }
}

/// The digest of a sequence of elements.
pub open spec fn varlen_digest(input: Seq<BFieldElement>) -> Seq<BFieldElement> {
    absorbed(padded(input), chunk_count(input.len())).take(5)
}

/// The digest of two digests.
pub open spec fn pair_digest(left: Seq<BFieldElement>, right: Seq<BFieldElement>) -> Seq<
    BFieldElement,
> {
    permuted(left + right + Seq::new(6, |i: int| BFieldElement::one())).take(5)
}

/// The four 32-bit limbs of a number, lowest first.
pub open spec fn limbs(value: u128) -> Seq<BFieldElement> {
    seq![
        BFieldElement::of((value % 0x1_0000_0000) as int),
        BFieldElement::of((value / 0x1_0000_0000 % 0x1_0000_0000) as int),
        BFieldElement::of((value / 0x1_0000_0000_0000_0000 % 0x1_0000_0000) as int),
        BFieldElement::of((value / 0x1_0000_0000_0000_0000_0000_0000) as int),
    ]
}

/// The hash function.
pub struct Tip5;

/// The digest that a state starts with.
fn squeeze(state: &Vec<BFieldElement>) -> (digest: Digest)
    requires
        state@.len() == STATE_SIZE,
    ensures
        digest@ == state@.take(5),
{
    let digest: Digest = Digest([state[0], state[1], state[2], state[3], state[4]]);
    assert(digest@ =~= state@.take(5));
    digest
}

impl Tip5 {
    /// The digest of a number: that of its limbs.
    pub fn hash(value: &u128) -> (digest: Digest)
        ensures
            digest@ == varlen_digest(limbs(*value)),
    {
        let v: u128 = *value;
        let mut input: Vec<BFieldElement> = Vec::new();
        input.push(BFieldElement::new((v % 0x1_0000_0000) as u64));
        input.push(BFieldElement::new((v / 0x1_0000_0000 % 0x1_0000_0000) as u64));
        input.push(BFieldElement::new((v / 0x1_0000_0000_0000_0000 % 0x1_0000_0000) as u64));
        input.push(BFieldElement::new((v / 0x1_0000_0000_0000_0000_0000_0000) as u64));
        assert(input@ =~= limbs(v));
        Tip5::hash_varlen(&input)
    }

    /// The digest of a sequence of elements.
    pub fn hash_varlen(input: &[BFieldElement]) -> (digest: Digest)
        ensures
            digest@ == varlen_digest(input@),
    {
        let n: usize = input.len();
        let chunks: usize = n / RATE + 1;
        let ghost blocks: Seq<BFieldElement> = padded(input@);
        let one: BFieldElement = BFieldElement::ring_one();
        let zero: BFieldElement = BFieldElement::ring_zero();
        let mut state: Vec<BFieldElement> = Vec::new();
        let mut i: usize = 0;
        proof {
            BFieldElement::lemma_constants_canonical();
        }
        while i < STATE_SIZE
            invariant
                i <= STATE_SIZE,
                zero == BFieldElement::zero(),
                zero.canonical(),
                state@.len() == i,
                all_canonical(state@),
                forall|j: int| 0 <= j < i ==> #[trigger] state@[j] == zero,
            decreases STATE_SIZE - i,
        {
            state.push(zero);
            i = i + 1;
        }
        assert(state@ =~= absorbed(blocks, 0));
        let mut k: usize = 0;
        while k < chunks
            invariant
                k <= chunks,
                n == input@.len(),
                chunks == n / RATE + 1,
                blocks == padded(input@),
                one == BFieldElement::one(),
                one.canonical(),
                zero == BFieldElement::zero(),
                zero.canonical(),
                state@.len() == STATE_SIZE,
                all_canonical(state@),
                state@ == absorbed(blocks, k as nat),
            decreases chunks - k,
        {
            let mut next: Vec<BFieldElement> = Vec::new();
            let mut i: usize = 0;
            while i < STATE_SIZE
                invariant
                    i <= STATE_SIZE,
                    k < chunks,
                    n == input@.len(),
                    chunks == n / RATE + 1,
                    blocks == padded(input@),
                    one == BFieldElement::one(),
                    one.canonical(),
                    zero == BFieldElement::zero(),
                    zero.canonical(),
                    state@.len() == STATE_SIZE,
                    all_canonical(state@),
                    next@.len() == i,
                    all_canonical(next@),
                    forall|j: int|
                        0 <= j < i ==> #[trigger] next@[j] == if j < RATE {
                            blocks[RATE * k + j]
                        } else {
                            state@[j]
                        },
                decreases STATE_SIZE - i,
            {
                // the position among the padded elements, relative to the input's end
                let done: usize = RATE * k;
                let element: BFieldElement = if i >= RATE {
                    state[i]
                } else if i < n - done {
                    input[done + i]
                } else if i == n - done {
                    one
                } else {
                    zero
                };
                proof {
                    use_type_invariant(&element);
                    BFieldElement::lemma_type_invariant(element);
                }
                next.push(element);
                i = i + 1;
            }
            proof {
                let before = absorbed(blocks, k as nat);
                let goal = Seq::new(
                    STATE_SIZE as nat,
                    |i: int|
                        if i < RATE {
                            blocks[RATE * (k + 1 - 1) + i]
                        } else {
                            before[i]
                        },
                );
                assert(next@ =~= goal);
            }
            state = permute(next);
            k = k + 1;
        }
        squeeze(&state)
    }

    /// The digest of two digests.
    pub fn hash_pair(left: Digest, right: Digest) -> (digest: Digest)
        ensures
            digest@ == pair_digest(left@, right@),
    {
        let one: BFieldElement = BFieldElement::ring_one();
        let mut state: Vec<BFieldElement> = Vec::new();
        let ghost start: Seq<BFieldElement> = left@ + right@ + Seq::new(
            6,
            |i: int| BFieldElement::one(),
        );
        let mut i: usize = 0;
        while i < STATE_SIZE
            invariant
                i <= STATE_SIZE,
                one == BFieldElement::one(),
                start == left@ + right@ + Seq::new(6, |i: int| BFieldElement::one()),
                state@ == start.take(i as int),
                all_canonical(state@),
            decreases STATE_SIZE - i,
        {
            let element: BFieldElement = if i < 5 {
                left.0[i]
            } else if i < RATE {
                right.0[i - 5]
            } else {
                one
            };
            proof {
                use_type_invariant(&element);
                BFieldElement::lemma_type_invariant(element);
            }
            state.push(element);
            i = i + 1;
            proof {
                assert(state@ =~= start.take(i as int));
            }
        }
        assert(state@ =~= start);
        squeeze(&permute(state))
    }
}

} // verus!
