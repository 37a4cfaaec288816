//! What a Merkle root says about the leafs under it, by the hash alone.

use vstd::arithmetic::div_mod::*;
use vstd::arithmetic::power2::*;
use vstd::prelude::*;

use crate::field::{all_canonical, FieldElement};
use crate::merkle_tree::{
    authenticates, authenticates_all, inner_digest, leaf_digest, lemma_node_digest_len,
    merkle_root, node_digest, path_of, paths_of, root_above, siblings_above, PathView,
};
use crate::utils::{blake3_hash, law_digest_is_the_hash};

verus! {

// ---- roots ----

/// The root over a single leaf is the hash of its whole encoding.
pub proof fn law_root_of_one_leaf<F: FieldElement>(value: F)
    ensures
        merkle_root(seq![value]).len() == 32,
        forall|i: int|
            0 <= i < 32 ==> #[trigger] merkle_root(seq![value])[i] == blake3_hash(
                value.encoding(),
            )[i],
{
    law_digest_is_the_hash(value.encoding());
    assert(node_digest(seq![value], 1) == leaf_digest(value));
}

/// The nodes of the two halves of a tree are those of the trees over the halves.
proof fn lemma_halves<F: FieldElement>(a: Seq<F>, b: Seq<F>, m: nat, d: nat, i: nat)
    requires
        a.len() == pow2(m),
        b.len() == pow2(m),
        d <= m,
        i < pow2(d),
    ensures
        node_digest(a + b, (2 * pow2(d) + i) as int) == node_digest(a, (pow2(d) + i) as int),
        node_digest(a + b, (3 * pow2(d) + i) as int) == node_digest(b, (pow2(d) + i) as int),
    decreases m - d,
{
    lemma_pow2_pos(d);
    let k = (pow2(d) + i) as int;
    if d == m {
        assert((a + b)[i as int] == a[i as int]);
        assert((a + b)[(pow2(m) + i) as int] == b[i as int]);
        assert(2 * pow2(d) + i - (a + b).len() == i);
    } else {
        lemma_pow2_unfold(d + 1);
        if d + 1 < m {
            lemma_pow2_strictly_increases(d + 1, m);
        }
        lemma_halves(a, b, m, d + 1, 2 * i);
        lemma_halves(a, b, m, d + 1, 2 * i + 1);
        assert(k < a.len());
        let l = (2 * pow2(d) + i) as int;
        let r = (3 * pow2(d) + i) as int;
        assert(2 * l == 2 * pow2(d + 1) + 2 * i);
        assert(2 * r == 3 * pow2(d + 1) + 2 * i);
        assert(l < (a + b).len() && r < (a + b).len());
    }
}

/// The root over two halves is the hash of the root over the first half, followed by
/// the root over the second.
pub proof fn law_root_of_two_halves<F: FieldElement>(a: Seq<F>, b: Seq<F>, m: nat)
    requires
        a.len() == pow2(m),
        b.len() == pow2(m),
    ensures
        merkle_root(a).len() == 32,
        merkle_root(a + b).len() == 32,
        forall|i: int|
            0 <= i < 32 ==> #[trigger] merkle_root(a + b)[i] == blake3_hash(
                merkle_root(a) + merkle_root(b),
            )[i],
{
    lemma2_to64();
    lemma_pow2_pos(m);
    lemma_halves(a, b, m, 0, 0);
    lemma_node_digest_len(a, 1);
    assert(node_digest(a + b, 1) == inner_digest(node_digest(a + b, 2), node_digest(a + b, 3)));
    law_digest_is_the_hash(merkle_root(a) + merkle_root(b));
}

/// A root binds: from two different codewords of the same length under one root, two
/// different byte strings with the same digest can be found.
pub proof fn law_root_binds<F: FieldElement>(a: Seq<F>, b: Seq<F>, m: nat) -> (r: (
    Seq<u8>,
    Seq<u8>,
))
    requires
        a.len() == pow2(m),
        b.len() == pow2(m),
        all_canonical(a),
        all_canonical(b),
        a != b,
        merkle_root(a) == merkle_root(b),
    ensures
        r.0 != r.1,
        forall|i: int| 0 <= i < 32 ==> #[trigger] blake3_hash(r.0)[i] == blake3_hash(r.1)[i],
    decreases m,
{
    lemma2_to64();
    if m == 0 {
        assert(a =~= seq![a[0]]);
        assert(b =~= seq![b[0]]);
        law_root_of_one_leaf(a[0]);
        law_root_of_one_leaf(b[0]);
        if a[0].encoding() == b[0].encoding() {
            F::lemma_encoding_injective(a[0], b[0]);
        }
        let r = (a[0].encoding(), b[0].encoding());
        assert forall|i: int| 0 <= i < 32 implies #[trigger] blake3_hash(r.0)[i] == blake3_hash(
            r.1,
        )[i] by {
            assert(merkle_root(seq![a[0]])[i] == merkle_root(seq![b[0]])[i]);
        }
        r
    } else {
        let e = (m - 1) as nat;
        let n = pow2(e) as int;
        lemma_pow2_unfold(m);
        let (a0, a1) = (a.take(n), a.skip(n));
        let (b0, b1) = (b.take(n), b.skip(n));
        assert(a =~= a0 + a1);
        assert(b =~= b0 + b1);
        law_root_of_two_halves(a0, a1, e);
        law_root_of_two_halves(b0, b1, e);
        let x = merkle_root(a0) + merkle_root(a1);
        let y = merkle_root(b0) + merkle_root(b1);
        if x != y {
            assert forall|i: int| 0 <= i < 32 implies #[trigger] blake3_hash(x)[i] == blake3_hash(
                y,
            )[i] by {
                assert(merkle_root(a0 + a1)[i] == merkle_root(b0 + b1)[i]);
            }
            (x, y)
        } else {
            lemma_node_digest_len(a1, 1);
            lemma_node_digest_len(b1, 1);
            assert(merkle_root(a0) =~= x.take(32));
            assert(merkle_root(a1) =~= x.skip(32));
            assert(merkle_root(b0) =~= y.take(32));
            assert(merkle_root(b1) =~= y.skip(32));
            if a0 != b0 {
                law_root_binds(a0, b0, e)
            } else {
                law_root_binds(a1, b1, e)
            }
        }
    }
}

// ---- paths ----

/// The last step of a path, from the top pair of nodes to the root.
proof fn lemma_last_step(index: nat, digest: Seq<u8>, siblings: Seq<Seq<u8>>, top: Seq<u8>)
    requires
        index < 2 * pow2(siblings.len()),
    ensures
        ({
            let n = pow2(siblings.len());
            let below = root_above(index % n, digest, siblings);
            root_above(index, digest, siblings.push(top)) == if index < n {
                inner_digest(below, top)
            } else {
                inner_digest(top, below)
            }
        }),
    decreases siblings.len(),
{
    let all = siblings.push(top);
    let n = pow2(siblings.len());
    lemma2_to64();
    lemma_pow2_pos(siblings.len());
    if index < n {
        lemma_small_mod(index, n);
    } else {
        lemma_fundamental_div_mod_converse(index as int, n as int, 1, index - n);
    }
    let i = index % n;
    if siblings.len() == 0 {
        reveal_with_fuel(root_above, 2);
        assert(all.skip(1).len() == 0);
    } else {
        let k = (siblings.len() - 1) as nat;
        lemma_pow2_unfold(siblings.len());
        let h = pow2(k);
        let parent = if index % 2 == 0 {
            inner_digest(digest, siblings[0])
        } else {
            inner_digest(siblings[0], digest)
        };
        assert(all.skip(1) =~= siblings.skip(1).push(top));
        lemma_last_step(index / 2, parent, siblings.skip(1), top);
        assert(i % 2 == index % 2);
        if index < n {
            lemma_small_mod(index / 2, h);
        } else {
            lemma_fundamental_div_mod_converse((index / 2) as int, h as int, 1, index / 2 - h);
        }
        assert(i / 2 == (index / 2) % h);
        assert(all[0] == siblings[0]);
    }
}

/// A path leads to one root, and only from an index that the path is long enough for.
pub proof fn law_path_reaches_one_root<F: FieldElement>(index: nat, path: PathView<F>) -> (root:
    Seq<u8>)
    ensures
        index < pow2(path.siblings.len()) ==> authenticates(root, index, path),
        forall|other: Seq<u8>| #[trigger]
            authenticates(other, index, path) ==> other == root && index < pow2(
                path.siblings.len(),
            ),
{
    root_above(index, leaf_digest(path.value), path.siblings)
}

/// A path without siblings leads from a leaf to the hash of its whole encoding.
pub proof fn law_path_starts_at_the_leaf<F: FieldElement>(root: Seq<u8>, path: PathView<F>)
    requires
        path.siblings.len() == 0,
    ensures
        authenticates(root, 0, path) <==> root.len() == 32 && forall|i: int|
            0 <= i < 32 ==> #[trigger] root[i] == blake3_hash(path.value.encoding())[i],
{
    lemma2_to64();
    law_digest_is_the_hash(path.value.encoding());
    let leaf = leaf_digest(path.value);
    if root.len() == 32 && forall|i: int|
        0 <= i < 32 ==> #[trigger] root[i] == blake3_hash(path.value.encoding())[i] {
        assert(root =~= leaf);
    }
}

/// One more sibling leads from the root below to the hash of the two, with the root
/// below on the left where the index lies in the first half.
pub proof fn law_path_climbs<F: FieldElement>(
    root: Seq<u8>,
    index: nat,
    path: PathView<F>,
    top: Seq<u8>,
    below: Seq<u8>,
)
    requires
        index < 2 * pow2(path.siblings.len()),
        authenticates(below, index % pow2(path.siblings.len()), path),
    ensures
        authenticates(
            root,
            index,
            (PathView { value: path.value, siblings: path.siblings.push(top) }),
        ) <==> root.len() == 32 && forall|i: int|
            0 <= i < 32 ==> #[trigger] root[i] == blake3_hash(
                if index < pow2(path.siblings.len()) {
                    below + top
                } else {
                    top + below
                },
            )[i],
{
    let n = pow2(path.siblings.len());
    lemma_pow2_unfold(path.siblings.len() + 1);
    lemma_last_step(index, leaf_digest(path.value), path.siblings, top);
    let bytes = if index < n {
        below + top
    } else {
        top + below
    };
    law_digest_is_the_hash(bytes);
    let all = PathView { value: path.value, siblings: path.siblings.push(top) };
    let reached = root_above(index, leaf_digest(path.value), all.siblings);
    if root.len() == 32 && forall|i: int|
        0 <= i < 32 ==> #[trigger] root[i] == blake3_hash(bytes)[i] {
        assert(root =~= reached);
    }
}

/// The siblings within one half of a tree are those in the tree over the half, below
/// the root over the other half.
proof fn lemma_siblings_in_halves<F: FieldElement>(a: Seq<F>, b: Seq<F>, m: nat, d: nat, i: nat)
    requires
        a.len() == pow2(m),
        b.len() == pow2(m),
        d <= m,
        i < pow2(d),
    ensures
        siblings_above(a + b, (2 * pow2(d) + i) as int) == siblings_above(
            a,
            (pow2(d) + i) as int,
        ).push(merkle_root(b)),
        siblings_above(a + b, (3 * pow2(d) + i) as int) == siblings_above(
            b,
            (pow2(d) + i) as int,
        ).push(merkle_root(a)),
    decreases d,
{
    lemma2_to64();
    let k = (pow2(d) + i) as int;
    let l = (2 * pow2(d) + i) as int;
    let r = (3 * pow2(d) + i) as int;
    lemma_pow2_pos(d);
    if d == 0 {
        lemma_halves(a, b, m, 0, 0);
        reveal_with_fuel(siblings_above, 3);
        assert(siblings_above(a + b, l) =~= siblings_above(a, k).push(merkle_root(b)));
        assert(siblings_above(a + b, r) =~= siblings_above(b, k).push(merkle_root(a)));
    } else {
        let e = (d - 1) as nat;
        lemma_pow2_unfold(d);
        lemma_siblings_in_halves(a, b, m, e, i / 2);
        assert(l / 2 == 2 * pow2(e) + i / 2);
        assert(r / 2 == 3 * pow2(e) + i / 2);
        assert(k / 2 == pow2(e) + i / 2);
        if i % 2 == 0 {
            lemma_halves(a, b, m, d, i + 1);
        } else {
            lemma_halves(a, b, m, d, (i - 1) as nat);
        }
        assert(siblings_above(a + b, l) =~= siblings_above(a, k).push(merkle_root(b)));
        assert(siblings_above(a + b, r) =~= siblings_above(b, k).push(merkle_root(a)));
    }
}

/// The path of a leaf: its value is the leaf, its siblings are those in the half of
/// the tree in which the leaf lies, followed by the root over the other half. A single
/// leaf has no siblings.
pub proof fn law_path_of_a_leaf<F: FieldElement>(leafs: Seq<F>, index: int, m: nat)
    requires
        leafs.len() == pow2(m),
        0 <= index < leafs.len(),
    ensures
        path_of(leafs, index).value == leafs[index],
        path_of(leafs, index).siblings.len() == m,
        m > 0 ==> ({
            let n = pow2((m - 1) as nat) as int;
            let first = leafs.take(n);
            let second = leafs.skip(n);
            path_of(leafs, index).siblings == if index < n {
                path_of(first, index).siblings.push(merkle_root(second))
            } else {
                path_of(second, index - n).siblings.push(merkle_root(first))
            }
        }),
    decreases m,
{
    lemma2_to64();
    if m == 0 {
        reveal_with_fuel(siblings_above, 2);
    } else {
        let e = (m - 1) as nat;
        let n = pow2(e) as int;
        let first = leafs.take(n);
        let second = leafs.skip(n);
        lemma_pow2_unfold(m);
        assert(leafs =~= first + second);
        if index < n {
            lemma_siblings_in_halves(first, second, e, e, index as nat);
            law_path_of_a_leaf(first, index, e);
        } else {
            lemma_siblings_in_halves(first, second, e, e, (index - n) as nat);
            law_path_of_a_leaf(second, index - n, e);
        }
    }
}

/// A path binds: where a path as long as the tree is deep leads to the tree's root
/// from another value than the leaf at the index, two different byte strings with the
/// same digest can be found.
pub proof fn law_path_binds<F: FieldElement>(
    leafs: Seq<F>,
    m: nat,
    index: nat,
    path: PathView<F>,
) -> (r: (Seq<u8>, Seq<u8>))
    requires
        leafs.len() == pow2(m),
        all_canonical(leafs),
        path.value.canonical(),
        path.siblings.len() == m,
        forall|i: int| 0 <= i < m ==> (#[trigger] path.siblings[i]).len() == 32,
        authenticates(merkle_root(leafs), index, path),
        path.value != leafs[index as int],
    ensures
        r.0 != r.1,
        forall|i: int| 0 <= i < 32 ==> #[trigger] blake3_hash(r.0)[i] == blake3_hash(r.1)[i],
    decreases m,
{
    lemma2_to64();
    let root = merkle_root(leafs);
    if m == 0 {
        assert(leafs =~= seq![leafs[0]]);
        law_root_of_one_leaf(leafs[0]);
        law_path_starts_at_the_leaf(root, path);
        if path.value.encoding() == leafs[0].encoding() {
            F::lemma_encoding_injective(path.value, leafs[0]);
        }
        let r = (path.value.encoding(), leafs[0].encoding());
        assert forall|i: int| 0 <= i < 32 implies #[trigger] blake3_hash(r.0)[i] == blake3_hash(
            r.1,
        )[i] by {
            assert(root[i] == blake3_hash(r.0)[i]);
        }
        r
    } else {
        let e = (m - 1) as nat;
        let n = pow2(e);
        let first = leafs.take(n as int);
        let second = leafs.skip(n as int);
        lemma_pow2_unfold(m);
        assert(leafs =~= first + second);
        law_root_of_two_halves(first, second, e);
        lemma_node_digest_len(second, 1);
        let lower = PathView { value: path.value, siblings: path.siblings.drop_last() };
        let top = path.siblings.last();
        assert(lower.siblings.push(top) =~= path.siblings);
        assert(path == PathView { value: path.value, siblings: lower.siblings.push(top) });
        if index < n {
            lemma_small_mod(index, n);
        } else {
            lemma_fundamental_div_mod_converse(index as int, n as int, 1, index - n);
        }
        let below = law_path_reaches_one_root(index % n, lower);
        law_path_climbs(root, index, lower, top, below);
        lemma_root_above_len(index % n, leaf_digest(path.value), lower.siblings);
        let x = if index < n {
            below + top
        } else {
            top + below
        };
        let y = merkle_root(first) + merkle_root(second);
        if x != y {
            assert forall|i: int| 0 <= i < 32 implies #[trigger] blake3_hash(x)[i] == blake3_hash(
                y,
            )[i] by {
                assert(root[i] == blake3_hash(x)[i]);
            }
            (x, y)
        } else {
            assert(x.take(32) =~= if index < n {
                below
            } else {
                top
            });
            assert(x.skip(32) =~= if index < n {
                top
            } else {
                below
            });
            assert(y.take(32) =~= merkle_root(first));
            assert(y.skip(32) =~= merkle_root(second));
            if index < n {
                law_path_binds(first, e, index, lower)
            } else {
                law_path_binds(second, e, (index - n) as nat, lower)
            }
        }
    }
}

/// What is reached from a digest is a digest.
proof fn lemma_root_above_len(index: nat, digest: Seq<u8>, siblings: Seq<Seq<u8>>)
    requires
        digest.len() == 32,
    ensures
        root_above(index, digest, siblings).len() == 32,
    decreases siblings.len(),
{
    if siblings.len() > 0 {
        let parent = if index % 2 == 0 {
            inner_digest(digest, siblings[0])
        } else {
            inner_digest(siblings[0], digest)
        };
        lemma_root_above_len(index / 2, parent, siblings.skip(1));
    }
}

/// Paths are accepted together where there are enough of them and each leads from its
/// own index to the root; and there is one path for each index that is opened.
pub proof fn law_every_path_is_looked_at<F: FieldElement>(
    root: Seq<u8>,
    indices: Seq<usize>,
    paths: Seq<PathView<F>>,
    leafs: Seq<F>,
)
    ensures
        authenticates_all(root, indices, paths) <==> indices.len() <= paths.len() && forall|s: int|
            0 <= s < indices.len() ==> #[trigger] authenticates(
                root,
                indices[s] as nat,
                paths[s],
            ),
        paths_of(leafs, indices).len() == indices.len(),
        forall|s: int|
            0 <= s < indices.len() ==> #[trigger] paths_of(leafs, indices)[s] == path_of(
                leafs,
                indices[s] as int,
            ),
{
}

} // verus!
