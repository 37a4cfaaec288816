//! Merkle trees over field elements, with authentication paths for their leafs.

use vstd::arithmetic::power2::*;
use vstd::prelude::*;

use crate::field::FieldElement;
use crate::utils::{append_bytes, blake3_digest, digest_of, digests_equal};

verus! {

/// The digest of a leaf.
pub open spec fn leaf_digest<F: FieldElement>(value: F) -> Seq<u8> {
    digest_of(value.encoding())
}

/// The digest of the inner node with the given children.
pub open spec fn inner_digest(left: Seq<u8>, right: Seq<u8>) -> Seq<u8> {
    digest_of(left + right)
}

/// The digest of node `k` of the tree over `leafs`: node 1 is the root, nodes
/// `2k` and `2k + 1` are the children of node `k`, and the leafs come last.
pub open spec fn node_digest<F: FieldElement>(leafs: Seq<F>, k: int) -> Seq<u8>
    decreases 2 * leafs.len() - k,
{
    if k < 1 {
        Seq::empty()
    } else if k >= leafs.len() {
        leaf_digest(leafs[k - leafs.len()])
    } else {
        inner_digest(node_digest(leafs, 2 * k), node_digest(leafs, 2 * k + 1))
    }
}

/// The root of the tree over `leafs`.
pub open spec fn merkle_root<F: FieldElement>(leafs: Seq<F>) -> Seq<u8> {
    node_digest(leafs, 1)
}

/// The other child of the parent of node `k`.
pub open spec fn sibling(k: int) -> int {
    if k % 2 == 0 {
        k + 1
    } else {
        k - 1
    }
}

/// The siblings of node `k` and its ancestors, from the bottom up.
pub open spec fn siblings_above<F: FieldElement>(leafs: Seq<F>, k: int) -> Seq<Seq<u8>>
    decreases k,
{
    if k <= 1 {
        Seq::empty()
    } else {
        seq![node_digest(leafs, sibling(k))] + siblings_above(leafs, k / 2)
    }
}

/// A leaf together with the digests that lead from it to the root.
pub struct PathView<F> {
    pub value: F,
    pub siblings: Seq<Seq<u8>>,
}

/// The authentication path of the leaf at `index`.
pub open spec fn path_of<F: FieldElement>(leafs: Seq<F>, index: int) -> PathView<F> {
    PathView { value: leafs[index], siblings: siblings_above(leafs, leafs.len() + index) }
}

/// The authentication paths of the leafs at `indices`.
pub open spec fn paths_of<F: FieldElement>(leafs: Seq<F>, indices: Seq<usize>) -> Seq<PathView<F>> {
    Seq::new(indices.len(), |s: int| path_of(leafs, indices[s] as int))
}

/// The root that is reached from a digest at `index` by way of `siblings`.
pub open spec fn root_above(index: nat, digest: Seq<u8>, siblings: Seq<Seq<u8>>) -> Seq<u8>
    decreases siblings.len(),
{
    if siblings.len() == 0 {
        digest
    } else {
        let parent = if index % 2 == 0 {
            inner_digest(digest, siblings[0])
        } else {
            inner_digest(siblings[0], digest)
        };
        root_above(index / 2, parent, siblings.skip(1))
    }
}

/// Whether the path shows that `root` has the path's value as leaf `index`.
pub open spec fn authenticates<F: FieldElement>(
    root: Seq<u8>,
    index: nat,
    path: PathView<F>,
) -> bool {
    &&& index < pow2(path.siblings.len())
    &&& root_above(index, leaf_digest(path.value), path.siblings) == root
}

/// Whether every index is authenticated by the path at its position. Paths
/// beyond the last index are not looked at.
pub open spec fn authenticates_all<F: FieldElement>(
    root: Seq<u8>,
    indices: Seq<usize>,
    paths: Seq<PathView<F>>,
) -> bool {
    &&& paths.len() >= indices.len()
    &&& forall|s: int|
        0 <= s < indices.len() ==> #[trigger] authenticates(root, indices[s] as nat, paths[s])
}

/// Whether `n` is a power of two.
pub open spec fn is_power_of_two(n: nat) -> bool {
    exists|m: nat| n == #[trigger] pow2(m)
}

pub proof fn lemma_node_digest_len<F: FieldElement>(leafs: Seq<F>, k: int)
    requires
        k >= 1,
    ensures
        node_digest(leafs, k).len() == 32,
{
}

/// From a node at depth `d`, the path leads to the root.
pub proof fn lemma_siblings_lead_to_root<F: FieldElement>(leafs: Seq<F>, d: nat, index: nat)
    requires
        index < pow2(d),
        pow2(d) <= leafs.len(),
    ensures
        siblings_above(leafs, (pow2(d) + index) as int).len() == d,
        root_above(
            index,
            node_digest(leafs, (pow2(d) + index) as int),
            siblings_above(leafs, (pow2(d) + index) as int),
        ) == merkle_root(leafs),
    decreases d,
{
    lemma2_to64();
    let k: int = (pow2(d) + index) as int;
    if d > 0 {
        let e = (d - 1) as nat;
        lemma_pow2_unfold(d);
        lemma_pow2_pos(e);
        assert(k / 2 == pow2(e) + index / 2);
        assert(k % 2 == index % 2);
        lemma_siblings_lead_to_root(leafs, e, index / 2);
        let s = siblings_above(leafs, k);
        assert(s.skip(1) =~= siblings_above(leafs, k / 2));
        assert(node_digest(leafs, k / 2) == inner_digest(
            node_digest(leafs, 2 * (k / 2)),
            node_digest(leafs, 2 * (k / 2) + 1),
        ));
    }
}

/// The siblings on a path are digests.
pub proof fn lemma_siblings_are_digests<F: FieldElement>(leafs: Seq<F>, k: int)
    ensures
        forall|i: int|
            0 <= i < siblings_above(leafs, k).len() ==> (#[trigger] siblings_above(
                leafs,
                k,
            )[i]).len() == 32,
    decreases k,
{
    if k > 1 {
        lemma_siblings_are_digests(leafs, k / 2);
        lemma_node_digest_len(leafs, sibling(k));
        let above = siblings_above(leafs, k / 2);
        assert forall|i: int| 0 <= i < siblings_above(leafs, k).len() implies (#[trigger]
        siblings_above(leafs, k)[i]).len() == 32 by {
            if i > 0 {
                assert(siblings_above(leafs, k)[i] == above[i - 1]);
            }
        }
    }
}

/// The authentication path of a tree's own leaf is accepted.
pub proof fn law_path_is_accepted<F: FieldElement>(leafs: Seq<F>, index: nat)
    requires
        is_power_of_two(leafs.len()),
        index < leafs.len(),
    ensures
        authenticates(merkle_root(leafs), index, path_of(leafs, index as int)),
{
    let m = choose|m: nat| leafs.len() == #[trigger] pow2(m);
    lemma_siblings_lead_to_root(leafs, m, index);
}

/// The authentication paths of a tree's own leafs are accepted together.
pub proof fn law_multi_proof_is_accepted<F: FieldElement>(leafs: Seq<F>, indices: Seq<usize>)
    requires
        is_power_of_two(leafs.len()),
        forall|s: int| 0 <= s < indices.len() ==> (#[trigger] indices[s]) < leafs.len(),
    ensures
        authenticates_all(merkle_root(leafs), indices, paths_of(leafs, indices)),
{
    let paths = paths_of(leafs, indices);
    assert forall|s: int| 0 <= s < indices.len() implies #[trigger] authenticates(
        merkle_root(leafs),
        indices[s] as nat,
        paths[s],
    ) by {
        assert(indices[s] < leafs.len());
        law_path_is_accepted(leafs, indices[s] as nat);
    }
}

/// A tree with all its digests.
pub struct MerkleTree<F: FieldElement> {
    leafs: Vec<F>,
    /// The digest of node `k` at position `k`; position 0 is unused.
    nodes: Vec<[u8; 32]>,
}

/// A leaf and the digests from which, on the way up, the root can be recomputed.
/// The digests on the path itself are left out.
pub struct PartialAuthenticationPath<F: FieldElement> {
    pub value: F,
    pub siblings: Vec<[u8; 32]>,
}

/// The contents of digests.
pub open spec fn digest_views(digests: Seq<[u8; 32]>) -> Seq<Seq<u8>> {
    Seq::new(digests.len(), |i: int| digests[i]@)
}

impl<F: FieldElement> View for PartialAuthenticationPath<F> {
    type V = PathView<F>;

    open spec fn view(&self) -> PathView<F> {
        PathView { value: self.value, siblings: digest_views(self.siblings@) }
    }
}

/// The contents of paths.
pub open spec fn path_views<F: FieldElement>(paths: Seq<PartialAuthenticationPath<F>>) -> Seq<
    PathView<F>,
> {
    Seq::new(paths.len(), |i: int| paths[i]@)
}

impl<F: FieldElement> PartialAuthenticationPath<F> {
    /// The leaf at the bottom of the path.
    pub fn get_value(&self) -> (value: F)
        ensures
            value == self@.value,
    {
        self.value
    }
}

impl<F: FieldElement> View for MerkleTree<F> {
    type V = Seq<F>;

    closed spec fn view(&self) -> Seq<F> {
        self.leafs@
    }
}

impl<F: FieldElement> MerkleTree<F> {
    /// Whether the tree's digests are those of its leafs.
    pub closed spec fn well_formed(&self) -> bool {
        &&& is_power_of_two(self.leafs@.len())
        &&& self.nodes@.len() == 2 * self.leafs@.len()
        &&& forall|k: int|
            1 <= k < self.nodes@.len() ==> (#[trigger] self.nodes@[k])@ == node_digest(
                self.leafs@,
                k,
            )
    }

    /// The tree over `values`.
    pub fn from_vec(values: &[F]) -> (tree: MerkleTree<F>)
        requires
            is_power_of_two(values@.len()),
            2 * values@.len() <= usize::MAX,
        ensures
            tree.well_formed(),
            tree@ == values@,
    {
        let n: usize = values.len();
        proof {
            let m = choose|m: nat| values@.len() == #[trigger] pow2(m);
            lemma_pow2_pos(m);
        }
        let mut leafs: Vec<F> = Vec::new();
        let mut nodes: Vec<[u8; 32]> = Vec::new();
        let mut i: usize = 0;
        while i < n
            invariant
                i <= n,
                n == values@.len(),
                leafs@ == values@.take(i as int),
                nodes@.len() == i,
            decreases n - i,
        {
            leafs.push(values[i]);
            nodes.push([0u8; 32]);
            i = i + 1;
            proof {
                assert(leafs@ =~= values@.take(i as int));
            }
        }
        assert(leafs@ =~= values@);
        i = 0;
        while i < n
            invariant
                i <= n,
                n == values@.len(),
                nodes@.len() == n + i,
                forall|k: int|
                    n <= k < n + i ==> (#[trigger] nodes@[k])@ == node_digest(values@, k),
            decreases n - i,
        {
            let mut encoded: Vec<u8> = Vec::new();
            values[i].encode(&mut encoded);
            proof {
                assert(encoded@ =~= values@[i as int].encoding());
            }
            let digest: [u8; 32] = blake3_digest(encoded.as_slice());
            nodes.push(digest);
            i = i + 1;
        }
        let mut k: usize = n;
        while k > 1
            invariant
                1 <= k <= n,
                2 * n <= usize::MAX,
                n == values@.len(),
                nodes@.len() == 2 * n,
                forall|j: int|
                    k <= j < 2 * n ==> (#[trigger] nodes@[j])@ == node_digest(values@, j),
            decreases k,
        {
            k = k - 1;
            let digest: [u8; 32] = join_digests(&nodes[2 * k], &nodes[2 * k + 1]);
            nodes.set(k, digest);
        }
        MerkleTree { leafs, nodes }
    }

    /// The root.
    pub fn get_root(&self) -> (root: [u8; 32])
        requires
            self.well_formed(),
        ensures
            root@ == merkle_root(self@),
    {
        proof {
            self.lemma_nodes();
        }
        self.nodes[1]
    }

    /// The leafs.
    pub fn to_vec(&self) -> (leafs: Vec<F>)
        ensures
            leafs@ == self@,
    {
        let n: usize = self.leafs.len();
        let mut leafs: Vec<F> = Vec::new();
        let mut i: usize = 0;
        while i < n
            invariant
                i <= n,
                n == self@.len(),
                leafs@ == self@.take(i as int),
            decreases n - i,
        {
            leafs.push(self.leafs[i]);
            i = i + 1;
            proof {
                assert(leafs@ =~= self@.take(i as int));
            }
        }
        assert(leafs@ =~= self@);
        leafs
    }

    pub fn get_number_of_leafs(&self) -> (n: usize)
        ensures
            n == self@.len(),
    {
        self.leafs.len()
    }

    proof fn lemma_nodes(&self)
        requires
            self.well_formed(),
        ensures
            self.leafs@.len() >= 1,
            self.nodes@.len() >= 2,
    {
        let m = choose|m: nat| self.leafs@.len() == #[trigger] pow2(m);
        lemma_pow2_pos(m);
    }

    /// The authentication path of the leaf at `index`.
    fn get_authentication_path(&self, index: usize) -> (path: PartialAuthenticationPath<F>)
        requires
            self.well_formed(),
            index < self@.len(),
        ensures
            path@ == path_of(self@, index as int),
    {
        let mut siblings: Vec<[u8; 32]> = Vec::new();
        let nodes: usize = self.nodes.len();
        let mut k: usize = self.leafs.len() + index;
        let ghost all: Seq<Seq<u8>> = siblings_above(self@, k as int);
        assert(digest_views(siblings@) + siblings_above(self@, k as int) =~= all);
        while k > 1
            invariant
                1 <= k < nodes,
                self.well_formed(),
                nodes == self.nodes@.len(),
                digest_views(siblings@) + siblings_above(self@, k as int) == all,
            decreases k,
        {
            let ghost before: Seq<Seq<u8>> = digest_views(siblings@);
            let s: usize = if k % 2 == 0 {
                k + 1
            } else {
                k - 1
            };
            siblings.push(self.nodes[s]);
            proof {
                assert(digest_views(siblings@) =~= before.push(node_digest(self@, s as int)));
                assert(before + siblings_above(self@, k as int) =~= digest_views(siblings@)
                    + siblings_above(self@, k as int / 2));
            }
            k = k / 2;
        }
        let path = PartialAuthenticationPath { value: self.leafs[index], siblings };
        assert(path@.siblings =~= all);
        path
    }

    /// The authentication paths of the leafs at `indices`.
    pub fn get_multi_proof(&self, indices: &[usize]) -> (paths: Vec<PartialAuthenticationPath<F>>)
        requires
            self.well_formed(),
            forall|s: int| 0 <= s < indices@.len() ==> #[trigger] indices@[s] < self@.len(),
        ensures
            path_views(paths@) == paths_of(self@, indices@),
    {
        let n: usize = indices.len();
        let mut paths: Vec<PartialAuthenticationPath<F>> = Vec::new();
        let mut s: usize = 0;
        while s < n
            invariant
                s <= n,
                n == indices@.len(),
                self.well_formed(),
                forall|t: int| 0 <= t < indices@.len() ==> #[trigger] indices@[t] < self@.len(),
                paths@.len() == s,
                forall|t: int|
                    0 <= t < s ==> (#[trigger] paths@[t])@ == path_of(self@, indices@[t] as int),
            decreases n - s,
        {
            let path: PartialAuthenticationPath<F> = self.get_authentication_path(indices[s]);
            paths.push(path);
            s = s + 1;
        }
        assert(path_views(paths@) =~= paths_of(self@, indices@));
        paths
    }

    /// Whether the paths show that the leafs at `indices` of the tree with the
    /// given root have the values of the paths.
    pub fn verify_multi_proof(
        root: [u8; 32],
        indices: &[usize],
        paths: &[PartialAuthenticationPath<F>],
    ) -> (r: bool)
        ensures
            r == authenticates_all(root@, indices@, path_views(paths@)),
    {
        let n: usize = indices.len();
        if paths.len() < n {
            return false;
        }
        let mut s: usize = 0;
        while s < n
            invariant
                s <= n,
                n == indices@.len(),
                n <= paths@.len(),
                forall|t: int|
                    0 <= t < s ==> #[trigger] authenticates(
                        root@,
                        indices@[t] as nat,
                        path_views(paths@)[t],
                    ),
            decreases n - s,
        {
            if !verify_path(&root, indices[s], &paths[s]) {
                assert(!authenticates(
                    root@,
                    indices@[s as int] as nat,
                    path_views(paths@)[s as int],
                ));
                return false;
            }
            s = s + 1;
        }
        true
    }
}

/// Whether a tree can have `n` leafs.
pub fn is_leaf_count(n: usize) -> (r: bool)
    ensures
        r == is_power_of_two(n as nat),
{
    let mut k: usize = n;
    while k > 0 && k % 2 == 0
        invariant
            is_power_of_two(n as nat) == is_power_of_two(k as nat),
        decreases k,
    {
        proof {
            lemma_power_of_two_halves(k as nat);
        }
        k = k / 2;
    }
    proof {
        lemma2_to64();
        if is_power_of_two(k as nat) {
            let m = choose|m: nat| k as nat == #[trigger] pow2(m);
            lemma_pow2_pos(m);
            if m > 0 {
                lemma_pow2_unfold(m);
            }
        }
        if k == 1 {
            assert(1 == pow2(0));
        }
    }
    k == 1
}

/// An even number is a power of two if its half is.
proof fn lemma_power_of_two_halves(k: nat)
    requires
        k > 0,
        k % 2 == 0,
    ensures
        is_power_of_two(k) == is_power_of_two(k / 2),
{
    lemma2_to64();
    if is_power_of_two(k) {
        let m = choose|m: nat| k == #[trigger] pow2(m);
        lemma_pow2_unfold(m);
        assert(k / 2 == pow2((m - 1) as nat));
    }
    if is_power_of_two(k / 2) {
        let m = choose|m: nat| k / 2 == #[trigger] pow2(m);
        lemma_pow2_unfold(m + 1);
        assert(k == pow2(m + 1));
    }
}

/// The digest of the node above two digests.
fn join_digests(left: &[u8; 32], right: &[u8; 32]) -> (digest: [u8; 32])
    ensures
        digest@ == inner_digest(left@, right@),
{
    let mut both: Vec<u8> = Vec::new();
    append_bytes(&mut both, left);
    append_bytes(&mut both, right);
    assert(both@ =~= left@ + right@);
    blake3_digest(both.as_slice())
}

/// Whether one path authenticates its value at `index`.
fn verify_path<F: FieldElement>(
    root: &[u8; 32],
    index: usize,
    path: &PartialAuthenticationPath<F>,
) -> (r: bool)
    ensures
        r == authenticates(root@, index as nat, path@),
{
    let mut encoded: Vec<u8> = Vec::new();
    path.value.encode(&mut encoded);
    assert(encoded@ =~= path.value.encoding());
    let mut digest: [u8; 32] = blake3_digest(encoded.as_slice());
    let n: usize = path.siblings.len();
    let mut i: usize = 0;
    let mut position: usize = index;
    let ghost all: Seq<Seq<u8>> = path@.siblings;
    assert(all.skip(0) =~= all);
    while i < n
        invariant
            i <= n,
            n == path.siblings@.len(),
            all == path@.siblings,
            root_above(position as nat, digest@, all.skip(i as int)) == root_above(
                index as nat,
                leaf_digest(path.value),
                all,
            ),
            index < pow2(n as nat) <==> position < pow2((n - i) as nat),
        decreases n - i,
    {
        proof {
            lemma_pow2_unfold((n - i) as nat);
            assert(all.skip(i as int).skip(1) =~= all.skip(i + 1));
            assert(all.skip(i as int)[0] == path.siblings@[i as int]@);
        }
        if position % 2 == 0 {
            digest = join_digests(&digest, &path.siblings[i]);
        } else {
            digest = join_digests(&path.siblings[i], &digest);
        }
        position = position / 2;
        i = i + 1;
    }
    proof {
        lemma2_to64();
    }
    position == 0 && digests_equal(&digest, root)
}

} // verus!
