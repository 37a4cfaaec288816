//! What holds of the proximity test as a whole.

use vstd::arithmetic::div_mod::*;
use vstd::arithmetic::power2::*;
use vstd::prelude::*;

use crate::algebra::{
    lemma_cancel, lemma_cancel_factor, lemma_distributes_right, lemma_inv, lemma_inv_unique,
    lemma_invertible_power, lemma_invertible_product, lemma_minus_is_plus_neg, lemma_minus_times,
    lemma_neg_neg, lemma_neg_one_times, lemma_one_times, lemma_plus_interchange, lemma_power_adds,
    lemma_power_canonical, lemma_primitive_root, lemma_primitive_root_order, lemma_times_minus,
    lemma_times_neg, lemma_times_zero, lemma_zero_plus, neg, primitive_root,
};
use crate::bytes::lemma_le_bytes_len;
use crate::codec::{
    all_valid_paths, decoded_paths, encoded_elements, encoded_paths, law_elements_are_read_back,
    law_paths_are_read_back, lemma_concatenated_len, lemma_encoded_paths_len, valid_path,
};
use crate::field::{all_canonical, inv, invertible, power, FieldElement, PrimeField};
use crate::fri::{Fri, FriError, ValidationError};
use crate::fri_lemmas::{
    lemma_codeword_length, lemma_commitment, lemma_div_by_one, lemma_domain, lemma_group_size,
    lemma_half_of_domain, lemma_halving, lemma_top_indices,
};
use crate::fri_model::{
    challenge_at, commit_transcript, committed, domain_point, folded_value, moved, opened_indices,
    proof_transcript, query_transcript, reduced, revealed, root_at, round_error, rounds_verdict,
    sample_colinear, sampled_indices, verdict, Verdict,
};
use crate::group::{has_order, is_order};
use crate::merkle_tree::{
    authenticates, authenticates_all, law_multi_proof_is_accepted, lemma_node_digest_len,
    lemma_siblings_are_digests, lemma_siblings_lead_to_root, merkle_root, paths_of, PathView,
};
use crate::ntt::interpolated;
use crate::polynomial::{colinear, degree_of};
use crate::proof_stream::{item_at, law_item_is_read_back, length_prepended};
use crate::protocol_laws::{
    law_accepted_proof_has_its_parts, law_accepted_rounds_are_colinear,
    law_accepted_values_are_of_the_first_round, openings_written, word_written,
};
use crate::utils::digest_of;

verus! {

// ---- folding along a line ----

/// `((a + b) + (c - d)) - (a + a) == (b - d) - (a - c)`.
proof fn lemma_regroup<F: FieldElement>(a: F, b: F, c: F, d: F)
    requires
        a.canonical(),
        b.canonical(),
        c.canonical(),
        d.canonical(),
    ensures
        a.plus(b).plus(c.minus(d)).minus(a.plus(a)) == b.minus(d).minus(a.minus(c)),
{
    let r = b.minus(d).minus(a.minus(c));
    let n = neg(d);
    F::lemma_closed(b, d);
    F::lemma_closed(b.minus(d), a.minus(c));
    lemma_minus_is_plus_neg(b, d);
    lemma_minus_is_plus_neg(c, d);
    // a + a == (a - c) + (c + a)
    F::lemma_minus_undoes_plus(a, c);
    F::lemma_plus_associates(a.minus(c), c, a);
    // r + (a + a) == (b - d) + (c + a)
    F::lemma_plus_associates(r, a.minus(c), c.plus(a));
    F::lemma_minus_undoes_plus(b.minus(d), a.minus(c));
    // and that is (a + b) + (c - d)
    lemma_plus_interchange(b, n, c, a);
    F::lemma_plus_commutes(n, a);
    F::lemma_plus_commutes(a, b);
    lemma_plus_interchange(b, a, c, n);
    F::lemma_minus_undoes_plus(r, a.plus(a));
}

/// `x` times twice the folded value is `(x + alpha) * a + (x - alpha) * b`.
pub proof fn lemma_folded_value<F: FieldElement>(a: F, b: F, x: F, alpha: F)
    requires
        x.canonical(),
        alpha.canonical(),
        invertible(x),
    ensures
        x.plus(x).times(folded_value(a, b, x, alpha)) == x.plus(alpha).times(a).plus(
            x.minus(alpha).times(b),
        ),
        folded_value(a, b, x, alpha).canonical(),
{
    let one = F::one();
    let two = one.plus(one);
    let q = alpha.times(inv(x));
    let u = one.plus(q);
    let v = one.minus(q);
    let w = u.times(a).plus(v.times(b));
    let c = folded_value(a, b, x, alpha);
    F::lemma_constants_canonical();
    F::lemma_closed(u.times(a), v.times(b));
    F::lemma_closed(inv(two), w);
    let half = F::lemma_half();
    lemma_inv_unique(two, half);
    lemma_inv(two);
    lemma_inv(x);
    // x * q == alpha
    F::lemma_times_commutes(alpha, inv(x));
    F::lemma_times_associates(x, inv(x), alpha);
    lemma_one_times(alpha);
    // x * u == x + alpha, x * v == x - alpha
    lemma_one_times(x);
    F::lemma_times_distributes(x, one, q);
    lemma_times_minus(x, one, q);
    // (x + x) * c == x * w
    F::lemma_times_distributes(x, one, one);
    F::lemma_times_associates(x, two, c);
    F::lemma_times_associates(two, inv(two), w);
    lemma_one_times(w);
    // x * w == (x * u) * a + (x * v) * b
    F::lemma_times_distributes(x, u.times(a), v.times(b));
    F::lemma_times_associates(x, u, a);
    F::lemma_times_associates(x, v, b);
}

/// The folded value lies on the line through the two values that it is folded
/// from.
pub proof fn law_folding_is_colinear<F: FieldElement>(a: F, b: F, x: F, alpha: F)
    requires
        a.canonical(),
        b.canonical(),
        x.canonical(),
        alpha.canonical(),
        invertible(x),
    ensures
        colinear((x, a), (neg(x), b), (alpha, folded_value(a, b, x, alpha))),
{
    let c = folded_value(a, b, x, alpha);
    lemma_folded_value(a, b, x, alpha);
    // the distance of the two points
    lemma_minus_is_plus_neg(x, neg(x));
    lemma_neg_neg(x);
    let dx = x.minus(neg(x));
    assert(dx == x.plus(x));
    let (p, q, r, s) = (x.times(a), alpha.times(a), x.times(b), alpha.times(b));
    F::lemma_closed(x, a);
    F::lemma_closed(alpha, a);
    F::lemma_closed(x, b);
    F::lemma_closed(alpha, b);
    lemma_distributes_right(x, alpha, a);
    lemma_minus_times(x, alpha, b);
    lemma_distributes_right(x, x, a);
    lemma_times_minus(dx, c, a);
    assert(dx.times(c.minus(a)) == p.plus(q).plus(r.minus(s)).minus(p.plus(p)));
    F::lemma_closed(a, b);
    lemma_times_minus(a.minus(b), alpha, x);
    lemma_minus_times(a, b, alpha);
    lemma_minus_times(a, b, x);
    F::lemma_times_commutes(a, alpha);
    F::lemma_times_commutes(b, alpha);
    F::lemma_times_commutes(a, x);
    F::lemma_times_commutes(b, x);
    assert(a.minus(b).times(alpha.minus(x)) == q.minus(s).minus(p.minus(r)));
    lemma_regroup(p, q, r, s);
}

/// Going from `a` to `b` and back again.
proof fn lemma_there_and_back<F: FieldElement>(a: F, b: F)
    requires
        a.canonical(),
        b.canonical(),
    ensures
        a.minus(b).plus(b.minus(a)) == F::zero(),
{
    F::lemma_constants_canonical();
    F::lemma_minus_undoes_plus(a, b);
    F::lemma_minus_undoes_plus(b, a);
    F::lemma_plus_associates(a.minus(b), b.minus(a), a);
    lemma_zero_plus(a);
    F::lemma_closed(a.minus(b), b.minus(a));
    lemma_cancel(a.minus(b).plus(b.minus(a)), F::zero(), a);
}

/// The differences of two values on a line of slope `s` through `(x, y)`.
proof fn lemma_on_line<F: FieldElement>(x: F, y: F, s: F, z: F)
    requires
        x.canonical(),
        y.canonical(),
        z.canonical(),
    ensures
        y.plus(s.times(z.minus(x))).minus(y) == s.times(z.minus(x)),
        y.minus(y.plus(s.times(z.minus(x)))) == s.times(x.minus(z)),
{
    let up = s.times(z.minus(x));
    let down = s.times(x.minus(z));
    F::lemma_closed(s, z.minus(x));
    F::lemma_closed(s, x.minus(z));
    F::lemma_plus_commutes(y, up);
    F::lemma_minus_undoes_plus(up, y);
    // down + (y + up) == y
    lemma_there_and_back(z, x);
    F::lemma_times_distributes(s, z.minus(x), x.minus(z));
    lemma_times_zero(s);
    F::lemma_plus_associates(y, up, down);
    lemma_zero_plus(y);
    F::lemma_plus_commutes(y.plus(up), down);
    F::lemma_minus_undoes_plus(down, y.plus(up));
}

/// Three points, the first two of which stand over places whose difference has an
/// inverse, are colinear exactly where some slope leads from the first to both others.
pub proof fn law_colinear_points_share_a_line<F: FieldElement>(p0: (F, F), p1: (F, F), p2: (F, F))
    requires
        p0.0.canonical(),
        p0.1.canonical(),
        p1.0.canonical(),
        p1.1.canonical(),
        p2.0.canonical(),
        p2.1.canonical(),
        invertible(p0.0.minus(p1.0)),
    ensures
        colinear(p0, p1, p2) <==> exists|s: F|
            p1.1 == p0.1.plus(s.times(p1.0.minus(p0.0))) && p2.1 == p0.1.plus(
                #[trigger] s.times(p2.0.minus(p0.0)),
            ),
{
    let dx = p0.0.minus(p1.0);
    let dy = p0.1.minus(p1.1);
    let ex = p2.0.minus(p0.0);
    let ey = p2.1.minus(p0.1);
    if exists|s: F|
        p1.1 == p0.1.plus(s.times(p1.0.minus(p0.0))) && p2.1 == p0.1.plus(
            #[trigger] s.times(p2.0.minus(p0.0)),
        ) {
        let s = choose|s: F|
            p1.1 == p0.1.plus(s.times(p1.0.minus(p0.0))) && p2.1 == p0.1.plus(
                #[trigger] s.times(p2.0.minus(p0.0)),
            );
        lemma_on_line(p0.0, p0.1, s, p1.0);
        lemma_on_line(p0.0, p0.1, s, p2.0);
        F::lemma_times_commutes(s, dx);
        F::lemma_times_associates(dx, s, ex);
    }
    if colinear(p0, p1, p2) {
        let s = inv(dx).times(dy);
        lemma_inv(dx);
        F::lemma_closed(p0.0, p1.0);
        F::lemma_closed(p0.1, p1.1);
        F::lemma_closed(p2.1, p0.1);
        // s * dx == dy
        F::lemma_times_commutes(inv(dx), dy);
        F::lemma_times_associates(dy, inv(dx), dx);
        lemma_one_times(dy);
        assert(s.times(dx) == dy);
        // s * ex == ey
        F::lemma_times_associates(inv(dx), dy, ex);
        F::lemma_times_associates(inv(dx), dx, ey);
        lemma_one_times(ey);
        assert(s.times(ex) == ey);
        F::lemma_minus_undoes_plus(p2.1, p0.1);
        F::lemma_plus_commutes(ey, p0.1);
        // p0.1 + s * (x1 - x0) == (y1 + dy) + s * (x1 - x0) == y1
        let back = s.times(p1.0.minus(p0.0));
        lemma_there_and_back(p0.0, p1.0);
        F::lemma_times_distributes(s, dx, p1.0.minus(p0.0));
        lemma_times_zero(s);
        F::lemma_minus_undoes_plus(p0.1, p1.1);
        F::lemma_plus_commutes(dy, p1.1);
        F::lemma_plus_associates(p1.1, dy, back);
        lemma_zero_plus(p1.1);
        assert(p1.1 == p0.1.plus(s.times(p1.0.minus(p0.0))));
        assert(p2.1 == p0.1.plus(s.times(p2.0.minus(p0.0))));
    }
}

// ---- honest proofs ----

/// The values of `word` at the indices that the first round opens, with these
/// indices.
pub open spec fn opened_values<PF: PrimeField>(
    fri: &Fri<PF>,
    word: Seq<PF::Elem>,
    top: Seq<usize>,
) -> Seq<(usize, PF::Elem)> {
    if fri.rounds() == 0 {
        Seq::empty()
    } else {
        let half = fri.length_after(1);
        let a_indices = reduced(top, half);
        let b_indices = moved(a_indices, half);
        Seq::new(
            2 * top.len(),
            |t: int|
                if t % 2 == 0 {
                    (a_indices[t / 2], word[a_indices[t / 2] as int])
                } else {
                    (b_indices[t / 2], word[b_indices[t / 2] as int])
                },
        )
    }
}

/// The folded codewords are canonical.
proof fn lemma_committed_canonical<PF: PrimeField>(
    fri: &Fri<PF>,
    word: Seq<PF::Elem>,
    transcript: Seq<u8>,
    k: nat,
)
    requires
        fri.valid(),
        word.len() == fri.domain_length,
        all_canonical(word),
        k <= fri.rounds(),
    ensures
        all_canonical(committed(fri, word, transcript, k).word),
{
    if k > 0 {
        let j = (k - 1) as nat;
        let before = committed(fri, word, transcript, j);
        let alpha = <PF::Elem>::sampled(digest_of(before.transcript));
        let next = committed(fri, word, transcript, k).word;
        lemma_domain(fri, j);
        <PF::Elem>::lemma_sampled_canonical(digest_of(before.transcript));
        assert forall|i: int| 0 <= i < next.len() implies (#[trigger] next[i]).canonical() by {
            let x = domain_point(fri.offset_after(j), fri.generator_after(j), i as nat);
            let half = before.word.len() / 2;
            lemma_domain_point(fri, j, i as nat);
            lemma_folded_value(before.word[i], before.word[half + i], x, alpha);
        }
    }
}

/// The points of every domain are invertible.
pub proof fn lemma_domain_point<PF: PrimeField>(fri: &Fri<PF>, k: nat, i: nat)
    requires
        fri.valid(),
        k <= fri.rounds(),
    ensures
        domain_point(fri.offset_after(k), fri.generator_after(k), i).canonical(),
        invertible(domain_point(fri.offset_after(k), fri.generator_after(k), i)),
{
    lemma_domain(fri, k);
    let g = fri.generator_after(k);
    let o = fri.offset_after(k);
    let m = choose|m: nat|
        fri.length_after(k) == #[trigger] pow2(m) && primitive_root(g, m) && fri.rounds() <= m + k;
    lemma_primitive_root(g, m);
    lemma_invertible_power(g, i);
    lemma_invertible_product(power(g, i), o);
    <PF::Elem>::lemma_closed(power(g, i), o);
}

/// The points in the second half of a domain are those of the first half, negated.
pub proof fn lemma_counterpart<PF: PrimeField>(fri: &Fri<PF>, k: nat, i: nat)
    requires
        fri.valid(),
        k < fri.rounds(),
    ensures
        domain_point(
            fri.offset_after(k),
            fri.generator_after(k),
            fri.length_after(k + 1) + i,
        ) == neg(domain_point(fri.offset_after(k), fri.generator_after(k), i)),
{
    lemma_domain(fri, k);
    lemma_halving(fri, k);
    let g = fri.generator_after(k);
    let o = fri.offset_after(k);
    let half = fri.length_after(k + 1);
    let m = choose|m: nat|
        fri.length_after(k) == #[trigger] pow2(m) && primitive_root(g, m) && fri.rounds() <= m + k;
    lemma_pow2_unfold(m);
    lemma_power_adds(g, half, i);
    lemma_power_canonical(g, i);
    lemma_neg_one_times(power(g, i));
    lemma_times_neg(o, power(g, i));
    <PF::Elem>::lemma_times_commutes(o, power(g, i));
}

/// The transcripts of the commitments extend each other by one root each.
proof fn lemma_commitments_extend<PF: PrimeField>(
    fri: &Fri<PF>,
    word: Seq<PF::Elem>,
    transcript: Seq<u8>,
    j: nat,
    k: nat,
)
    requires
        j <= k,
    ensures
        committed(fri, word, transcript, k).transcript.len() == transcript.len() + 32 * (k + 1),
        committed(fri, word, transcript, j).transcript == committed(
            fri,
            word,
            transcript,
            k,
        ).transcript.take(transcript.len() + 32int * (j + 1)),
        merkle_root(committed(fri, word, transcript, j).word) == root_at(
            committed(fri, word, transcript, k).transcript,
            transcript.len() as int,
            j as int,
        ),
        committed(fri, word, transcript, k).transcript.take(transcript.len() as int) == transcript,
    decreases k,
{
    let now = committed(fri, word, transcript, k);
    lemma_node_digest_len(now.word, 1);
    if k > 0 {
        let i = (k - 1) as nat;
        let before = committed(fri, word, transcript, i);
        if j < k {
            lemma_commitments_extend(fri, word, transcript, j, i);
            let end = transcript.len() + 32int * (j + 1);
            assert(now.transcript.take(end) =~= before.transcript.take(end));
            assert(root_at(now.transcript, transcript.len() as int, j as int) =~= root_at(
                before.transcript,
                transcript.len() as int,
                j as int,
            ));
        } else {
            lemma_commitments_extend(fri, word, transcript, i, i);
        }
        assert(now.transcript.take(transcript.len() as int) =~= before.transcript.take(
            transcript.len() as int,
        ));
    } else {
        assert(now.transcript.take(transcript.len() as int) =~= transcript);
    }
    if j == k {
        assert(now.transcript.take(transcript.len() + 32int * (j + 1)) =~= now.transcript);
        assert(root_at(now.transcript, transcript.len() as int, j as int) =~= merkle_root(
            now.word,
        ));
    }
}

/// The transcripts of the queries extend each other.
proof fn lemma_queries_extend<PF: PrimeField>(
    fri: &Fri<PF>,
    word: Seq<PF::Elem>,
    transcript: Seq<u8>,
    j: nat,
    k: nat,
)
    requires
        j <= k,
    ensures
        query_transcript(fri, word, transcript, j).is_prefix_of(
            query_transcript(fri, word, transcript, k),
        ),
    decreases k,
{
    let now = query_transcript(fri, word, transcript, k);
    if j < k {
        let i = (k - 1) as nat;
        lemma_queries_extend(fri, word, transcript, j, i);
        let before = query_transcript(fri, word, transcript, i);
        let first = query_transcript(fri, word, transcript, j);
        assert(now.subrange(0, first.len() as int) =~= before.subrange(0, first.len() as int));
    } else {
        assert(now.subrange(0, now.len() as int) =~= now);
    }
}

/// A prefix of a prefix.
proof fn lemma_prefix_of_prefix(a: Seq<u8>, b: Seq<u8>, c: Seq<u8>)
    requires
        a.is_prefix_of(b),
        b.is_prefix_of(c),
    ensures
        a.is_prefix_of(c),
        c.take(a.len() as int) == a,
{
    assert(c.subrange(0, a.len() as int) =~= b.subrange(0, a.len() as int));
    assert(c.take(a.len() as int) =~= a);
}

/// An item that stands behind its length at the end of a prefix is read.
proof fn lemma_item_in_prefix(before: Seq<u8>, item: Seq<u8>, whole: Seq<u8>)
    requires
        (before + length_prepended(item)).is_prefix_of(whole),
        item.len() < 0x1_0000_0000_0000_0000,
    ensures
        item_at(whole, before.len() as int) == Some(item),
{
    let prefix = before + length_prepended(item);
    let after = whole.skip(prefix.len() as int);
    assert(whole =~= before + length_prepended(item) + after);
    law_item_is_read_back(before, item, after);
}

/// Paths of a tree are valid, and their encoding is short.
proof fn lemma_paths_of<F: FieldElement>(leafs: Seq<F>, indices: Seq<usize>, m: nat)
    requires
        leafs.len() == pow2(m),
        m <= 64,
        all_canonical(leafs),
        forall|s: int| 0 <= s < indices.len() ==> (#[trigger] indices[s]) < leafs.len(),
    ensures
        all_valid_paths(paths_of(leafs, indices)),
        encoded_paths(paths_of(leafs, indices)).len() <= 8 + indices.len() * 4096,
        authenticates_all(merkle_root(leafs), indices, paths_of(leafs, indices)),
{
    let paths = paths_of(leafs, indices);
    assert forall|s: int| 0 <= s < indices.len() implies valid_path(#[trigger] paths[s])
        && paths[s].siblings.len() <= 64 by {
        assert(indices[s] < leafs.len());
        lemma_siblings_lead_to_root(leafs, m, indices[s] as nat);
        lemma_siblings_are_digests(leafs, leafs.len() + indices[s]);
    }
    law_multi_proof_is_accepted(leafs, indices);
    lemma_encoded_paths_len(paths);
}

/// The openings of an honest prover pass every check.
proof fn lemma_honest_round<PF: PrimeField>(
    fri: &Fri<PF>,
    word: Seq<PF::Elem>,
    transcript: Seq<u8>,
    top: Seq<usize>,
    r: nat,
)
    requires
        fri.has_small_domain(),
        word.len() == fri.domain_length,
        all_canonical(word),
        r < fri.rounds(),
        top.len() == fri.colinearity_checks_count,
    ensures
        ({
            let now = committed(fri, word, transcript, r);
            let next = committed(fri, word, transcript, r + 1);
            let a_indices = reduced(top, fri.length_after(r + 1));
            let both = a_indices + moved(a_indices, now.word.len() / 2);
            let ab_paths = paths_of(now.word, both);
            let c_paths = paths_of(next.word, a_indices);
            &&& all_valid_paths(ab_paths)
            &&& all_valid_paths(c_paths)
            &&& encoded_paths(ab_paths).len() < 0x1_0000_0000_0000_0000
            &&& encoded_paths(c_paths).len() < 0x1_0000_0000_0000_0000
            &&& round_error(
                fri,
                r,
                <PF::Elem>::sampled(digest_of(now.transcript)),
                merkle_root(now.word),
                merkle_root(next.word),
                top,
                ab_paths,
                c_paths,
            ) is None
        }),
{
    let now = committed(fri, word, transcript, r);
    let next = committed(fri, word, transcript, r + 1);
    let half = fri.length_after(r + 1);
    let checks = fri.colinearity_checks_count;
    let a_indices = reduced(top, half);
    let b_indices = moved(a_indices, half);
    let both = a_indices + b_indices;
    let ab_paths = paths_of(now.word, both);
    let c_paths = paths_of(next.word, a_indices);
    let alpha = <PF::Elem>::sampled(digest_of(now.transcript));
    let g = fri.generator_after(r);
    let o = fri.offset_after(r);
    lemma_commitment(fri, word, transcript, r);
    lemma_commitment(fri, word, transcript, r + 1);
    lemma_committed_canonical(fri, word, transcript, r);
    lemma_committed_canonical(fri, word, transcript, r + 1);
    lemma_halving(fri, r);
    lemma_domain(fri, r);
    lemma_domain(fri, r + 1);
    let m = choose|m: nat|
        fri.length_after(r) == #[trigger] pow2(m) && primitive_root(g, m) && fri.rounds() <= m + r;
    let e = (m - 1) as nat;
    lemma_pow2_unfold(m);
    lemma2_to64();
    lemma2_to64_rest();
    if m > 64 {
        lemma_pow2_strictly_increases(64, m);
    }
    assert(half == pow2(e));
    assert forall|s: int| 0 <= s < checks implies (#[trigger] a_indices[s]) < half
        && b_indices[s] == a_indices[s] + half by {
        lemma_mod_bound(top[s] as int, half as int);
    }
    assert forall|s: int| 0 <= s < both.len() implies (#[trigger] both[s]) < now.word.len() by {
        if s < checks {
            assert(a_indices[s] < half);
        } else {
            assert(a_indices[s - checks] < half);
        }
    }
    lemma_paths_of(now.word, both, m);
    lemma_paths_of(next.word, a_indices, e);
    <PF::Elem>::lemma_sampled_canonical(digest_of(now.transcript));
    assert forall|s: int| 0 <= s < checks implies #[trigger] sample_colinear(
        fri,
        r,
        alpha,
        a_indices,
        b_indices,
        ab_paths,
        c_paths,
        s,
    ) by {
        let i = a_indices[s] as nat;
        assert(i < half);
        let x = domain_point(o, g, i);
        lemma_domain_point(fri, r, i);
        let a = now.word[i as int];
        let b = now.word[(half + i) as int];
        assert(both[s] == i);
        assert(both[checks + s] == half + i);
        law_folding_is_colinear(a, b, x, alpha);
        // the counterpart of x is -x
        lemma_counterpart(fri, r, i);
        <PF::Elem>::lemma_times_commutes(o, power(g, i));
        <PF::Elem>::lemma_times_commutes(o, power(g, half + i));
        assert(c_paths[s].value == folded_value(a, b, x, alpha));
    }
}

/// The openings of a round are read as they were written.
proof fn lemma_openings_are_read<PF: PrimeField>(
    fri: &Fri<PF>,
    word: Seq<PF::Elem>,
    transcript: Seq<u8>,
    whole: Seq<u8>,
    r: nat,
    ab_paths: Seq<PathView<PF::Elem>>,
    c_paths: Seq<PathView<PF::Elem>>,
)
    requires
        r < fri.rounds(),
        proof_transcript(fri, word, transcript).is_prefix_of(whole),
        ({
            let now = committed(fri, word, transcript, r);
            let next = committed(fri, word, transcript, r + 1);
            let top = opened_indices(fri, word, transcript);
            let a_indices = reduced(top, fri.length_after(r + 1));
            &&& ab_paths == paths_of(
                now.word,
                a_indices + moved(a_indices, now.word.len() / 2),
            )
            &&& c_paths == paths_of(next.word, a_indices)
        }),
        all_valid_paths(ab_paths),
        all_valid_paths(c_paths),
        ab_paths.len() < 0x1_0000_0000_0000_0000,
        c_paths.len() < 0x1_0000_0000_0000_0000,
        encoded_paths(ab_paths).len() < 0x1_0000_0000_0000_0000,
        encoded_paths(c_paths).len() < 0x1_0000_0000_0000_0000,
    ensures
        ({
            let p0 = query_transcript(fri, word, transcript, r).len() as int;
            let p1 = p0 + 8 + encoded_paths(ab_paths).len();
            let p2 = p1 + 8 + encoded_paths(c_paths).len();
            &&& item_at(whole, p0) == Some(encoded_paths(ab_paths))
            &&& item_at(whole, p1) == Some(encoded_paths(c_paths))
            &&& p2 == query_transcript(fri, word, transcript, r + 1).len()
        }),
        decoded_paths::<PF::Elem>(encoded_paths(ab_paths)) == Some(ab_paths),
        decoded_paths::<PF::Elem>(encoded_paths(c_paths)) == Some(c_paths),
{
    let proof_end = proof_transcript(fri, word, transcript);
    let before = query_transcript(fri, word, transcript, r);
    let after = query_transcript(fri, word, transcript, r + 1);
    let ab_item = encoded_paths(ab_paths);
    let c_item = encoded_paths(c_paths);
    let between = before + length_prepended(ab_item);
    lemma_queries_extend(fri, word, transcript, r + 1, fri.rounds());
    lemma_prefix_of_prefix(after, proof_end, whole);
    assert(after =~= between + length_prepended(c_item));
    assert(between =~= after.subrange(0, between.len() as int));
    lemma_prefix_of_prefix(between, after, whole);
    lemma_item_in_prefix(before, ab_item, whole);
    lemma_item_in_prefix(between, c_item, whole);
    law_paths_are_read_back(ab_paths);
    law_paths_are_read_back(c_paths);
    lemma_le_bytes_len(ab_item.len(), 8);
    lemma_le_bytes_len(c_item.len(), 8);
}

/// The openings of the first round reveal values of the codeword.
proof fn lemma_first_openings<PF: PrimeField>(fri: &Fri<PF>, word: Seq<PF::Elem>, top: Seq<usize>)
    requires
        fri.rounds() > 0,
    ensures
        ({
            let a_indices = reduced(top, fri.length_after(1));
            let b_indices = moved(a_indices, fri.length_after(1));
            revealed(a_indices, b_indices, paths_of(word, a_indices + b_indices)) == opened_values(
                fri,
                word,
                top,
            )
        }),
{
    let a_indices = reduced(top, fri.length_after(1));
    let b_indices = moved(a_indices, fri.length_after(1));
    let both = a_indices + b_indices;
    let n = a_indices.len();
    let shown = revealed(a_indices, b_indices, paths_of(word, both));
    assert forall|t: int| 0 <= t < 2 * n implies shown[t] == #[trigger] opened_values(
        fri,
        word,
        top,
    )[t] by {
        assert(0 <= t / 2 < n);
        assert(both[t / 2] == a_indices[t / 2]);
        assert(both[n + t / 2] == b_indices[t / 2]);
    }
    assert(shown =~= opened_values(fri, word, top));
}

/// A round whose openings pass every check leaves the verdict to the next round.
proof fn lemma_passed_round<PF: PrimeField>(
    fri: &Fri<PF>,
    whole: Seq<u8>,
    start: int,
    top: Seq<usize>,
    r: nat,
    position: int,
    evaluations: Seq<(usize, PF::Elem)>,
    ab_paths: Seq<PathView<PF::Elem>>,
    c_paths: Seq<PathView<PF::Elem>>,
)
    requires
        r < fri.rounds(),
        item_at(whole, position) == Some(encoded_paths(ab_paths)),
        item_at(whole, position + 8 + encoded_paths(ab_paths).len()) == Some(
            encoded_paths(c_paths),
        ),
        decoded_paths::<PF::Elem>(encoded_paths(ab_paths)) == Some(ab_paths),
        decoded_paths::<PF::Elem>(encoded_paths(c_paths)) == Some(c_paths),
        round_error(
            fri,
            r,
            challenge_at::<PF::Elem>(whole, start, r as int),
            root_at(whole, start, r as int),
            root_at(whole, start, r + 1int),
            top,
            ab_paths,
            c_paths,
        ) is None,
    ensures
        ({
            let a_indices = reduced(top, fri.length_after(1));
            let shown = if r == 0 {
                revealed(a_indices, moved(a_indices, fri.length_after(1)), ab_paths)
            } else {
                evaluations
            };
            rounds_verdict(fri, whole, start, top, r, position, evaluations) == rounds_verdict(
                fri,
                whole,
                start,
                top,
                r + 1,
                position + 16 + encoded_paths(ab_paths).len() + encoded_paths(c_paths).len(),
                shown,
            )
        }),
{
}

/// The verdict on the openings of an honest prover.
proof fn lemma_honest_rounds<PF: PrimeField>(
    fri: &Fri<PF>,
    word: Seq<PF::Elem>,
    transcript: Seq<u8>,
    whole: Seq<u8>,
    r: nat,
    evaluations: Seq<(usize, PF::Elem)>,
)
    requires
        fri.has_small_domain(),
        word.len() == fri.domain_length,
        all_canonical(word),
        r <= fri.rounds(),
        proof_transcript(fri, word, transcript).is_prefix_of(whole),
        r > 0 ==> evaluations == opened_values(
            fri,
            word,
            opened_indices(fri, word, transcript),
        ),
        r == 0 ==> evaluations == Seq::<(usize, PF::Elem)>::empty(),
    ensures
        rounds_verdict(
            fri,
            whole,
            transcript.len() as int,
            opened_indices(fri, word, transcript),
            r,
            query_transcript(fri, word, transcript, r).len() as int,
            evaluations,
        ) == (Verdict {
            result: Ok(opened_values(fri, word, opened_indices(fri, word, transcript))),
            position: proof_transcript(fri, word, transcript).len() as int,
        }),
    decreases fri.rounds() - r,
{
    let top = opened_indices(fri, word, transcript);
    if r < fri.rounds() {
        let now = committed(fri, word, transcript, r);
        let next = committed(fri, word, transcript, r + 1);
        let half = fri.length_after(r + 1);
        let a_indices = reduced(top, half);
        let b_indices = moved(a_indices, half);
        let ab_paths = paths_of(now.word, a_indices + b_indices);
        let c_paths = paths_of(next.word, a_indices);
        lemma_top_indices(fri, digest_of(commit_transcript(fri, word, transcript)));
        lemma_commitment(fri, word, transcript, r);
        lemma_halving(fri, r);
        lemma_honest_round(fri, word, transcript, top, r);
        lemma_openings_are_read(fri, word, transcript, whole, r, ab_paths, c_paths);
        lemma_roots_are_read(fri, word, transcript, whole, r);
        lemma_roots_are_read(fri, word, transcript, whole, r + 1);
        lemma_passed_round(
            fri,
            whole,
            transcript.len() as int,
            top,
            r,
            query_transcript(fri, word, transcript, r).len() as int,
            evaluations,
            ab_paths,
            c_paths,
        );
        if r == 0 {
            lemma_first_openings(fri, word, top);
            lemma_honest_rounds(
                fri,
                word,
                transcript,
                whole,
                1,
                revealed(a_indices, b_indices, ab_paths),
            );
        } else {
            lemma_honest_rounds(fri, word, transcript, whole, r + 1, evaluations);
        }
    } else {
        assert(evaluations =~= opened_values(fri, word, top));
    }
}

/// The roots and challenges that are read from a proof are those that were written.
proof fn lemma_roots_are_read<PF: PrimeField>(
    fri: &Fri<PF>,
    word: Seq<PF::Elem>,
    transcript: Seq<u8>,
    whole: Seq<u8>,
    k: nat,
)
    requires
        k <= fri.rounds(),
        proof_transcript(fri, word, transcript).is_prefix_of(whole),
    ensures
        root_at(whole, transcript.len() as int, k as int) == merkle_root(
            committed(fri, word, transcript, k).word,
        ),
        challenge_at::<PF::Elem>(whole, transcript.len() as int, k as int) == <PF::Elem>::sampled(
            digest_of(committed(fri, word, transcript, k).transcript),
        ),
        commit_transcript(fri, word, transcript).is_prefix_of(whole),
        committed(fri, word, transcript, fri.rounds()).transcript.is_prefix_of(whole),
        whole.len() >= transcript.len() + 32 * (fri.rounds() + 1),
{
    let start = transcript.len() as int;
    let last = committed(fri, word, transcript, fri.rounds());
    let all = commit_transcript(fri, word, transcript);
    lemma_commitments_extend(fri, word, transcript, k, fri.rounds());
    lemma_queries_extend(fri, word, transcript, 0, fri.rounds());
    lemma_prefix_of_prefix(all, proof_transcript(fri, word, transcript), whole);
    assert(last.transcript =~= all.subrange(0, last.transcript.len() as int));
    lemma_prefix_of_prefix(last.transcript, all, whole);
    assert(root_at(whole, start, k as int) =~= root_at(last.transcript, start, k as int));
    assert(whole.take(start + 32 * (k + 1)) =~= last.transcript.take(start + 32 * (k + 1)));
}

/// What a proof of any codeword is answered, whatever was on the transcript before
/// it and whatever follows it.
///
/// Where the last codeword is of sufficiently low degree, the proof is accepted:
/// the values that it reveals are those of the codeword, and exactly the proof has
/// been read. Where it is not, the answer is that the degree is too high.
pub proof fn law_honest_proof_is_answered<PF: PrimeField>(
    fri: &Fri<PF>,
    word: Seq<PF::Elem>,
    transcript: Seq<u8>,
    rest: Seq<u8>,
)
    requires
        fri.has_small_domain(),
        word.len() == fri.domain_length,
        all_canonical(word),
    ensures
        ({
            let last = committed(fri, word, transcript, fri.rounds());
            let degree = degree_of(interpolated(last.word, fri.generator_after(fri.rounds())));
            verdict(fri, proof_transcript(fri, word, transcript) + rest, transcript.len() as int)
                == if degree <= fri.last_degree() {
                Verdict {
                    result: Ok(
                        opened_values(fri, word, opened_indices(fri, word, transcript)),
                    ),
                    position: proof_transcript(fri, word, transcript).len() as int,
                }
            } else {
                Verdict {
                    result: Err(FriError::Validation(ValidationError::LastIterationTooHighDegree)),
                    position: commit_transcript(fri, word, transcript).len() as int,
                }
            }
        }),
{
    let r = fri.rounds();
    let proof_end = proof_transcript(fri, word, transcript);
    let whole = proof_end + rest;
    let last = committed(fri, word, transcript, r);
    let item = encoded_elements(last.word);
    let all = commit_transcript(fri, word, transcript);
    assert(proof_end =~= whole.subrange(0, proof_end.len() as int));
    lemma_roots_are_read(fri, word, transcript, whole, r);
    lemma_commitments_extend(fri, word, transcript, r, r);
    lemma_commitment(fri, word, transcript, r);
    lemma_committed_canonical(fri, word, transcript, r);
    // the last codeword
    lemma_domain(fri, r);
    lemma_concatenated_len(last.word);
    lemma_le_bytes_len(last.word.len(), 8);
    <PF::Elem>::lemma_encoding_len(<PF::Elem>::zero());
    let width = <PF::Elem>::encoding_len();
    assert(last.word.len() * width <= 0x1_0000_0000 * 1024) by (nonlinear_arith)
        requires
            last.word.len() <= 0x1_0000_0000,
            width <= 1024,
    ;
    lemma_item_in_prefix(last.transcript, item, whole);
    law_elements_are_read_back(last.word);
    lemma_le_bytes_len(item.len(), 8);
    assert(whole.take(all.len() as int) =~= all);
    lemma_honest_rounds(fri, word, transcript, whole, 0, Seq::empty());
}

// ---- proofs and transcripts ----

/// A proof leaves what was on the transcript before it in place.
pub proof fn law_proof_extends_transcript<PF: PrimeField>(
    fri: &Fri<PF>,
    word: Seq<PF::Elem>,
    transcript: Seq<u8>,
)
    ensures
        transcript.is_prefix_of(proof_transcript(fri, word, transcript)),
{
    let r = fri.rounds();
    let last = committed(fri, word, transcript, r).transcript;
    let all = commit_transcript(fri, word, transcript);
    let proof_end = proof_transcript(fri, word, transcript);
    lemma_commitments_extend(fri, word, transcript, r, r);
    lemma_queries_extend(fri, word, transcript, 0, r);
    assert(last =~= all.subrange(0, last.len() as int));
    assert(transcript =~= last.subrange(0, transcript.len() as int));
    lemma_prefix_of_prefix(last, all, proof_end);
    lemma_prefix_of_prefix(transcript, last, proof_end);
}

// ---- accepted proofs ----

/// After the first round, no more values are revealed.
proof fn lemma_later_rounds_reveal_nothing<PF: PrimeField>(
    fri: &Fri<PF>,
    transcript: Seq<u8>,
    start: int,
    top: Seq<usize>,
    r: nat,
    position: int,
    evaluations: Seq<(usize, PF::Elem)>,
)
    requires
        r > 0,
        rounds_verdict(fri, transcript, start, top, r, position, evaluations).result is Ok,
    ensures
        rounds_verdict(fri, transcript, start, top, r, position, evaluations).result
            == Ok::<_, FriError>(evaluations),
    decreases fri.rounds() - r,
{
    if r < fri.rounds() {
        let ab_bytes = item_at(transcript, position).unwrap();
        let p1 = position + 8 + ab_bytes.len();
        let c_bytes = item_at(transcript, p1).unwrap();
        let p2 = p1 + 8 + c_bytes.len();
        lemma_later_rounds_reveal_nothing(fri, transcript, start, top, r + 1, p2, evaluations);
    }
}

/// Every value that an accepted proof reveals is committed to by its first root: an
/// authentication path leads from it to that root. The values are as many as two
/// per check, or none where there is no round.
pub proof fn law_accepted_values_are_committed_to<PF: PrimeField>(
    fri: &Fri<PF>,
    transcript: Seq<u8>,
    start: int,
)
    requires
        fri.verification_defined_on(transcript, start),
        0 <= start <= transcript.len(),
    ensures
        verdict(fri, transcript, start).result matches Ok(values) ==> {
            &&& fri.rounds() == 0 ==> values.len() == 0
            &&& fri.rounds() > 0 ==> values.len() == 2 * fri.colinearity_checks_count
            &&& forall|t: int|
                0 <= t < values.len() ==> (#[trigger] values[t]).0 < fri.domain_length && exists|
                    path: PathView<PF::Elem>,
                |
                    path.value == values[t].1 && #[trigger] authenticates(
                        root_at(transcript, start, 0),
                        values[t].0 as nat,
                        path,
                    )
        },
{
    if verdict(fri, transcript, start).result is Ok {
        let values = verdict(fri, transcript, start).result->Ok_0;
        let (word, ab, c, at) = law_accepted_proof_has_its_parts(fri, transcript, start);
        law_accepted_values_are_of_the_first_round(fri, transcript, start, word, ab, c, at);
        assert forall|t: int| 0 <= t < values.len() implies (#[trigger] values[t]).0
            < fri.domain_length && exists|path: PathView<PF::Elem>|
            path.value == values[t].1 && #[trigger] authenticates(
                root_at(transcript, start, 0),
                values[t].0 as nat,
                path,
            ) by {
            let path = lemma_value_is_committed_to(
                fri,
                transcript,
                start,
                word,
                ab,
                c,
                at,
                values,
                t,
            );
        }
    }
}

/// The path that leads from a value of an accepted proof to the first root.
proof fn lemma_value_is_committed_to<PF: PrimeField>(
    fri: &Fri<PF>,
    transcript: Seq<u8>,
    start: int,
    word: Seq<PF::Elem>,
    ab: Seq<Seq<PathView<PF::Elem>>>,
    c: Seq<Seq<PathView<PF::Elem>>>,
    at: Seq<int>,
    values: Seq<(usize, PF::Elem)>,
    t: int,
) -> (path: PathView<PF::Elem>)
    requires
        fri.verification_defined_on(transcript, start),
        0 <= start <= transcript.len(),
        verdict(fri, transcript, start).result is Ok,
        word_written(transcript, start + 32 * (fri.rounds() + 1), word, at[0]),
        openings_written(transcript, ab, c, at),
        ab.len() == fri.rounds() > 0,
        0 <= t < 2 * fri.colinearity_checks_count,
        forall|s: int|
            0 <= s < fri.colinearity_checks_count ==> {
                let half = fri.domain_length as nat / 2;
                let a = #[trigger] sampled_indices(fri, digest_of(transcript.take(at[0])))[s];
                &&& a < half
                &&& values[2 * s] == (a, ab[0][s].value)
                &&& values[2 * s + 1] == (
                    (a + half) as usize,
                    ab[0][fri.colinearity_checks_count + s].value,
                )
            },
    ensures
        values[t].0 < fri.domain_length,
        path.value == values[t].1,
        authenticates(root_at(transcript, start, 0), values[t].0 as nat, path),
{
    let top = sampled_indices(fri, digest_of(transcript.take(at[0])));
    let s = t / 2;
    let half = fri.domain_length as nat / 2;
    lemma2_to64();
    law_accepted_rounds_are_colinear(fri, transcript, start, word, ab, c, at, 0, s);
    assert(top[s] < half);
    lemma_small_mod(top[s] as nat, half);
    if t == 2 * s {
        ab[0][s]
    } else {
        assert(t == 2 * s + 1);
        ab[0][fri.colinearity_checks_count + s]
    }
}

/// The values that an accepted proof of a codeword reveals are the codeword's own:
/// for every index that the prover returned, the entry there and the entry half the
/// domain further on.
///
/// This holds whatever the order of `omega`. The proof has a length that fits into
/// 64 bits; that of a domain of up to `2^32` points always does.
pub proof fn law_own_values_are_revealed<PF: PrimeField>(
    fri: &Fri<PF>,
    word: Seq<PF::Elem>,
    transcript: Seq<u8>,
    rest: Seq<u8>,
)
    requires
        fri.proving_defined(),
        word.len() == fri.domain_length,
        all_canonical(word),
    ensures
        fri.domain_length <= 0x1_0000_0000 || proof_transcript(fri, word, transcript).len()
            < 0x1_0000_0000_0000_0000 ==> (verdict(
            fri,
            proof_transcript(fri, word, transcript) + rest,
            transcript.len() as int,
        ).result matches Ok(values) ==> {
            let indices = opened_indices(fri, word, transcript);
            let half = fri.domain_length as nat / 2;
            &&& values == opened_values(fri, word, indices)
            &&& fri.rounds() == 0 ==> values.len() == 0
            &&& fri.rounds() > 0 ==> {
                &&& values.len() == 2 * fri.colinearity_checks_count
                &&& forall|s: int|
                    0 <= s < fri.colinearity_checks_count ==> {
                        let i = #[trigger] indices[s];
                        &&& values[2 * s] == (i, word[i as int])
                        &&& values[2 * s + 1] == ((i + half) as usize, word[i + half])
                        &&& i + half < fri.domain_length
                    }
            }
        }),
{
    let start = transcript.len() as int;
    let whole = proof_transcript(fri, word, transcript) + rest;
    let indices = opened_indices(fri, word, transcript);
    let small = fri.domain_length <= 0x1_0000_0000 || proof_transcript(
        fri,
        word,
        transcript,
    ).len() < 0x1_0000_0000_0000_0000;
    if small && verdict(fri, whole, start).result is Ok {
        lemma_own_values(fri, word, transcript, whole);
        lemma_top_indices(fri, digest_of(commit_transcript(fri, word, transcript)));
        lemma2_to64();
        if fri.rounds() > 0 {
            let half = fri.length_after(1);
            let values = opened_values(fri, word, indices);
            lemma_half_of_domain(fri, 0);
            assert forall|s: int| 0 <= s < fri.colinearity_checks_count implies {
                let i = #[trigger] indices[s];
                &&& values[2 * s] == (i, word[i as int])
                &&& values[2 * s + 1] == ((i + half) as usize, word[i + half])
                &&& i + half < fri.domain_length
            } by {
                assert(indices[s] < half);
                lemma_small_mod(indices[s] as nat, half);
                assert((2 * s) / 2 == s && (2 * s) % 2 == 0);
                assert((2 * s + 1) / 2 == s && (2 * s + 1) % 2 == 1);
                assert(reduced(indices, half)[s] == indices[s]);
            }
        }
    }
}

/// The first round of an accepted proof reveals what the prover opened.
proof fn lemma_own_values<PF: PrimeField>(
    fri: &Fri<PF>,
    word: Seq<PF::Elem>,
    transcript: Seq<u8>,
    whole: Seq<u8>,
)
    requires
        fri.proving_defined(),
        word.len() == fri.domain_length,
        all_canonical(word),
        fri.domain_length <= 0x1_0000_0000 || proof_transcript(fri, word, transcript).len()
            < 0x1_0000_0000_0000_0000,
        proof_transcript(fri, word, transcript).is_prefix_of(whole),
        verdict(fri, whole, transcript.len() as int).result is Ok,
    ensures
        verdict(fri, whole, transcript.len() as int).result == Ok::<_, FriError>(
            opened_values(fri, word, opened_indices(fri, word, transcript)),
        ),
{
    let start = transcript.len() as int;
    let r = fri.rounds();
    let proof_end = proof_transcript(fri, word, transcript);
    let last = committed(fri, word, transcript, r);
    let item = encoded_elements(last.word);
    let all = commit_transcript(fri, word, transcript);
    let top = opened_indices(fri, word, transcript);
    lemma_roots_are_read(fri, word, transcript, whole, r);
    lemma_commitments_extend(fri, word, transcript, r, r);
    lemma_queries_extend(fri, word, transcript, 0, r);
    lemma_last_word_item_fits(fri, word, transcript);
    lemma_item_in_prefix(last.transcript, item, whole);
    lemma_le_bytes_len(item.len(), 8);
    assert(whole.take(all.len() as int) =~= all);
    let position = all.len() as int;
    let first = rounds_verdict(fri, whole, start, top, 0, position, Seq::empty());
    assert(verdict(fri, whole, start) == first);
    if r > 0 {
        let half = fri.length_after(1);
        let a_indices = reduced(top, half);
        let b_indices = moved(a_indices, half);
        let ab_paths = paths_of(word, a_indices + b_indices);
        let ab_item = encoded_paths(ab_paths);
        lemma_first_item(fri, word, transcript, whole);
        let p1 = position + 8 + ab_item.len();
        let c_bytes = item_at(whole, p1).unwrap();
        let p2 = p1 + 8 + c_bytes.len();
        lemma_later_rounds_reveal_nothing(
            fri,
            whole,
            start,
            top,
            1,
            p2,
            revealed(a_indices, b_indices, ab_paths),
        );
        lemma_first_openings(fri, word, top);
    } else {
        assert(opened_values(fri, word, top) =~= Seq::empty());
    }
}

/// The item with the last codeword has a length that fits.
proof fn lemma_last_word_item_fits<PF: PrimeField>(
    fri: &Fri<PF>,
    word: Seq<PF::Elem>,
    transcript: Seq<u8>,
)
    requires
        fri.proving_defined(),
        word.len() == fri.domain_length,
        fri.domain_length <= 0x1_0000_0000 || proof_transcript(fri, word, transcript).len()
            < 0x1_0000_0000_0000_0000,
    ensures
        encoded_elements(committed(fri, word, transcript, fri.rounds()).word).len()
            < 0x1_0000_0000_0000_0000,
{
    let r = fri.rounds();
    let last = committed(fri, word, transcript, r).word;
    lemma_queries_extend(fri, word, transcript, 0, r);
    if fri.domain_length <= 0x1_0000_0000 {
        let width = <PF::Elem>::encoding_len();
        lemma_codeword_length(fri, word, transcript, r);
        lemma_pow2_pos(r);
        lemma_div_is_ordered_by_denominator(fri.domain_length as int, 1, pow2(r) as int);
        lemma_div_by_one(fri.domain_length as nat);
        lemma_concatenated_len(last);
        lemma_le_bytes_len(last.len(), 8);
        <PF::Elem>::lemma_encoding_len(<PF::Elem>::zero());
        assert(last.len() * width <= 0x1_0000_0000 * 1024) by (nonlinear_arith)
            requires
                last.len() <= 0x1_0000_0000,
                width <= 1024,
        ;
    }
}

/// The first item behind the last codeword holds the openings of the codeword.
proof fn lemma_first_item<PF: PrimeField>(
    fri: &Fri<PF>,
    word: Seq<PF::Elem>,
    transcript: Seq<u8>,
    whole: Seq<u8>,
)
    requires
        fri.proving_defined(),
        fri.rounds() > 0,
        word.len() == fri.domain_length,
        all_canonical(word),
        proof_transcript(fri, word, transcript).is_prefix_of(whole),
    ensures
        ({
            let a_indices = reduced(opened_indices(fri, word, transcript), fri.length_after(1));
            let b_indices = moved(a_indices, fri.length_after(1));
            let ab_paths = paths_of(word, a_indices + b_indices);
            &&& item_at(whole, commit_transcript(fri, word, transcript).len() as int) == Some(
                encoded_paths(ab_paths),
            )
            &&& decoded_paths::<PF::Elem>(encoded_paths(ab_paths)) == Some(ab_paths)
        }),
{
    let all = commit_transcript(fri, word, transcript);
    let top = opened_indices(fri, word, transcript);
    let checks = fri.colinearity_checks_count;
    let half = fri.length_after(1);
    let a_indices = reduced(top, half);
    let b_indices = moved(a_indices, half);
    let both = a_indices + b_indices;
    let ab_paths = paths_of(word, both);
    let ab_item = encoded_paths(ab_paths);
    let after = query_transcript(fri, word, transcript, 1);
    let between = all + length_prepended(ab_item);
    lemma2_to64();
    lemma2_to64_rest();
    lemma_top_indices(fri, digest_of(all));
    lemma_half_of_domain(fri, 0);
    lemma_halving(fri, 0);
    let m = choose|m: nat| fri.domain_length as nat == #[trigger] pow2(m);
    if m > 64 {
        lemma_pow2_strictly_increases(64, m);
    }
    assert forall|s: int| 0 <= s < both.len() implies (#[trigger] both[s]) < word.len() by {
        if s < checks {
            lemma_mod_bound(top[s] as int, half as int);
        } else {
            lemma_mod_bound(top[s - checks] as int, half as int);
        }
    }
    lemma_paths_of(word, both, m);
    law_paths_are_read_back(ab_paths);
    let c_item = encoded_paths(paths_of(committed(fri, word, transcript, 1).word, a_indices));
    assert(query_transcript(fri, word, transcript, 0) == all);
    assert(committed(fri, word, transcript, 0).word == word);
    assert(after =~= between + length_prepended(c_item));
    assert(between =~= after.subrange(0, between.len() as int));
    lemma_queries_extend(fri, word, transcript, 1, fri.rounds());
    lemma_prefix_of_prefix(after, proof_transcript(fri, word, transcript), whole);
    lemma_prefix_of_prefix(between, after, whole);
    lemma_item_in_prefix(all, ab_item, whole);
}

// ---- the evaluation domain ----

/// The powers of `omega` are as many as the domain is long, and the points of the
/// evaluation domain are all different.
pub proof fn law_domain_points_differ<PF: PrimeField>(fri: &Fri<PF>)
    requires
        fri.valid(),
    ensures
        has_order(fri.omega),
        forall|n: nat| #[trigger] is_order(fri.omega, n) <==> n == fri.domain_length,
        forall|i: nat, j: nat|
            i < j < fri.domain_length ==> #[trigger] domain_point(fri.offset, fri.omega, i)
                != #[trigger] domain_point(fri.offset, fri.omega, j),
{
    let w = fri.omega;
    let d = fri.domain_length as nat;
    let m = choose|m: nat| d == #[trigger] pow2(m) && primitive_root(w, m);
    lemma_primitive_root(w, m);
    lemma_pow2_pos(m);
    assert(power(w, d) == <PF::Elem>::one());
    assert forall|k: nat| 0 < k < d implies #[trigger] power(w, k) != <PF::Elem>::one() by {
        lemma_primitive_root_order(w, m, k);
    }
    assert(is_order(w, d));
    assert forall|n: nat| #[trigger] is_order(w, n) implies n == d by {
        lemma_group_size(w, m, n);
    }
    assert forall|i: nat, j: nat| i < j < d implies #[trigger] domain_point(fri.offset, w, i)
        != #[trigger] domain_point(fri.offset, w, j) by {
        let k = (j - i) as nat;
        if domain_point(fri.offset, w, i) == domain_point(fri.offset, w, j) {
            // cancel the offset, then w^i
            lemma_power_canonical(w, i);
            lemma_power_canonical(w, j);
            lemma_power_canonical(w, k);
            <PF::Elem>::lemma_times_commutes(power(w, i), fri.offset);
            <PF::Elem>::lemma_times_commutes(power(w, j), fri.offset);
            lemma_cancel_factor(fri.offset, power(w, i), power(w, j));
            lemma_power_adds(w, i, k);
            <PF::Elem>::lemma_constants_canonical();
            lemma_one_times(power(w, i));
            lemma_invertible_power(w, i);
            lemma_cancel_factor(power(w, i), <PF::Elem>::one(), power(w, k));
        }
    }
}

} // verus!
