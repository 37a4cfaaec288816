//! The encodings of the items that a proof consists of.

use vstd::prelude::*;

use crate::bytes::{
    le_bytes, lemma_le_bytes_injective, lemma_le_bytes_len, lemma_pow256_values, push_u64, read_u64,
};
use crate::field::{all_canonical, FieldElement};
use crate::merkle_tree::{digest_views, path_views, PartialAuthenticationPath, PathView};
use crate::utils::append_bytes;

verus! {

/// The encodings of the elements, one after the other.
pub open spec fn concatenated<F: FieldElement>(elements: Seq<F>) -> Seq<u8>
    decreases elements.len(),
{
    if elements.len() == 0 {
        Seq::empty()
    } else {
        concatenated(elements.drop_last()) + elements.last().encoding()
    }
}

/// The encoding of a list of elements: their number, then the elements.
pub open spec fn encoded_elements<F: FieldElement>(elements: Seq<F>) -> Seq<u8> {
    le_bytes(elements.len(), 8) + concatenated(elements)
}

/// Whether `elements` are canonical and encoded by `bytes`.
pub open spec fn encodes_elements<F: FieldElement>(bytes: Seq<u8>, elements: Seq<F>) -> bool {
    all_canonical(elements) && encoded_elements(elements) == bytes
}

/// The list of elements that `bytes` encode, where they encode one.
pub open spec fn decoded_elements<F: FieldElement>(bytes: Seq<u8>) -> Option<Seq<F>> {
    if exists|elements: Seq<F>| encodes_elements(bytes, elements) {
        Some(choose|elements: Seq<F>| encodes_elements(bytes, elements))
    } else {
        None
    }
}

pub proof fn lemma_concatenated_len<F: FieldElement>(elements: Seq<F>)
    ensures
        concatenated(elements).len() == elements.len() * F::encoding_len(),
    decreases elements.len(),
{
    if elements.len() > 0 {
        let n = elements.len();
        lemma_concatenated_len(elements.drop_last());
        F::lemma_encoding_len(elements.last());
        assert(n * F::encoding_len() == (n - 1) * F::encoding_len() + F::encoding_len())
            by (nonlinear_arith);
    }
}

/// The encoding of element `i` stands at its place.
proof fn lemma_concatenated_part<F: FieldElement>(elements: Seq<F>, i: int)
    requires
        0 <= i < elements.len(),
    ensures
        0 <= i * F::encoding_len(),
        i * F::encoding_len() + F::encoding_len() <= concatenated(elements).len(),
        concatenated(elements).subrange(
            i * F::encoding_len(),
            i * F::encoding_len() + F::encoding_len(),
        ) == elements[i].encoding(),
    decreases elements.len(),
{
    let w = F::encoding_len();
    let n = elements.len();
    let prefix = elements.drop_last();
    lemma_concatenated_len(elements);
    lemma_concatenated_len(prefix);
    F::lemma_encoding_len(elements[i]);
    assert(n * w == (n - 1) * w + w) by (nonlinear_arith);
    if i < n - 1 {
        lemma_concatenated_part(prefix, i);
        assert(concatenated(elements).subrange(i * w, i * w + w) =~= concatenated(prefix).subrange(
            i * w,
            i * w + w,
        ));
    } else {
        assert((n - 1) * w >= 0) by (nonlinear_arith)
            requires
                n >= 1,
                w >= 0,
        ;
        assert(concatenated(elements).subrange(i * w, i * w + w) =~= elements[i].encoding());
    }
}

/// An encoding determines its elements.
pub proof fn lemma_encoded_elements_injective<F: FieldElement>(a: Seq<F>, b: Seq<F>)
    requires
        all_canonical(a),
        all_canonical(b),
        encoded_elements(a) == encoded_elements(b),
    ensures
        a == b,
{
    let w = F::encoding_len();
    lemma_concatenated_len(a);
    lemma_concatenated_len(b);
    lemma_le_bytes_len(a.len(), 8);
    lemma_le_bytes_len(b.len(), 8);
    F::lemma_encoding_len(F::one());
    assert(encoded_elements(a).len() == 8 + a.len() * w);
    assert(encoded_elements(b).len() == 8 + b.len() * w);
    assert(a.len() == b.len()) by (nonlinear_arith)
        requires
            a.len() * w == b.len() * w,
            w > 0,
    ;
    assert(concatenated(a) =~= encoded_elements(a).skip(8));
    assert(concatenated(b) =~= encoded_elements(b).skip(8));
    assert forall|i: int| 0 <= i < a.len() implies a[i] == b[i] by {
        lemma_concatenated_part(a, i);
        lemma_concatenated_part(b, i);
        F::lemma_encoding_injective(a[i], b[i]);
    }
    assert(a =~= b);
}

/// What was encoded is decoded.
pub proof fn law_elements_are_read_back<F: FieldElement>(elements: Seq<F>)
    requires
        all_canonical(elements),
    ensures
        decoded_elements::<F>(encoded_elements(elements)) == Some(elements),
{
    let bytes = encoded_elements(elements);
    assert(encodes_elements(bytes, elements));
    let d = choose|d: Seq<F>| encodes_elements(bytes, d);
    lemma_encoded_elements_injective(elements, d);
}

/// What is read from bytes is a list of canonical elements that the bytes encode, and
/// nothing is read only where they encode none.
pub proof fn law_read_elements_were_encoded<F: FieldElement>(bytes: Seq<u8>)
    ensures
        match decoded_elements::<F>(bytes) {
            Some(elements) => all_canonical(elements) && encoded_elements(elements) == bytes,
            None => forall|elements: Seq<F>|
                all_canonical(elements) ==> #[trigger] encoded_elements(elements) != bytes,
        },
{
    if decoded_elements::<F>(bytes) is None {
        assert forall|elements: Seq<F>| all_canonical(elements) implies #[trigger] encoded_elements(
            elements,
        ) != bytes by {
            assert(!encodes_elements(bytes, elements));
        }
    }
}

/// The encoding of a list is its length in eight bytes, followed by the encodings of
/// its elements: nothing for an empty list, and one more for one more element.
pub proof fn law_elements_are_written_in_order<F: FieldElement>(elements: Seq<F>)
    ensures
        encoded_elements(elements).take(8) == le_bytes(elements.len(), 8),
        elements.len() == 0 ==> encoded_elements(elements).skip(8).len() == 0,
        elements.len() > 0 ==> encoded_elements(elements).skip(8) == encoded_elements(
            elements.drop_last(),
        ).skip(8) + elements.last().encoding(),
{
    lemma_le_bytes_len(elements.len(), 8);
    assert(encoded_elements(elements).take(8) =~= le_bytes(elements.len(), 8));
    assert(encoded_elements(elements).skip(8) =~= concatenated(elements));
    if elements.len() > 0 {
        let shorter = elements.drop_last();
        lemma_le_bytes_len(shorter.len(), 8);
        assert(encoded_elements(shorter).skip(8) =~= concatenated(shorter));
    }
}

/// Encodes a list of elements.
pub fn encode_elements<F: FieldElement>(elements: &[F]) -> (bytes: Vec<u8>)
    ensures
        bytes@ == encoded_elements(elements@),
{
    let n: usize = elements.len();
    let mut bytes: Vec<u8> = Vec::new();
    push_u64(&mut bytes, n as u64);
    let mut i: usize = 0;
    assert(bytes@ =~= le_bytes(n as nat, 8) + concatenated(elements@.take(0)));
    while i < n
        invariant
            i <= n,
            n == elements@.len(),
            bytes@ == le_bytes(n as nat, 8) + concatenated(elements@.take(i as int)),
        decreases n - i,
    {
        elements[i].encode(&mut bytes);
        i = i + 1;
        proof {
            assert(elements@.take(i as int).drop_last() =~= elements@.take(i - 1));
            assert(bytes@ =~= le_bytes(n as nat, 8) + concatenated(elements@.take(i as int)));
        }
    }
    assert(elements@.take(n as int) =~= elements@);
    bytes
}

/// Decodes a list of elements; `None` where the bytes encode none.
pub fn decode_elements<F: FieldElement>(bytes: &[u8]) -> (r: Option<Vec<F>>)
    ensures
        match decoded_elements::<F>(bytes@) {
            Some(elements) => r matches Some(v) && v@ == elements && all_canonical(elements),
            None => r is None,
        },
{
    let len: usize = bytes.len();
    let width: usize = F::encoded_len();
    let ghost w: nat = F::encoding_len();
    proof {
        F::lemma_encoding_len(F::one());
    }
    if len < 8 {
        proof {
            assert forall|s: Seq<F>| !encodes_elements(bytes@, s) by {
                lemma_le_bytes_len(s.len(), 8);
            }
        }
        return None;
    }
    let count: u64 = read_u64(bytes, 0);
    let room: usize = len - 8;
    if room % width != 0 || (room / width) as u64 != count {
        proof {
            assert forall|s: Seq<F>| !encodes_elements(bytes@, s) by {
                if encodes_elements(bytes@, s) {
                    lemma_le_bytes_len(s.len(), 8);
                    lemma_concatenated_len(s);
                    lemma_product_divides(s.len(), w);
                    assert(s.len() <= room) by (nonlinear_arith)
                        requires
                            room == s.len() * w,
                            w > 0,
                    ;
                    assert(bytes@.subrange(0, 8) =~= le_bytes(s.len(), 8));
                    lemma_pow256_values();
                    lemma_le_bytes_injective(s.len(), count as nat, 8);
                }
            }
        }
        return None;
    }
    let n: usize = room / width;
    proof {
        vstd::arithmetic::div_mod::lemma_fundamental_div_mod(room as int, w as int);
        vstd::arithmetic::mul::lemma_mul_is_commutative(n as int, w as int);
    }
    let mut elements: Vec<F> = Vec::new();
    let mut i: usize = 0;
    let mut at: usize = 8;
    assert(bytes@.subrange(8, 8) =~= concatenated(elements@));
    while i < n
        invariant
            i <= n,
            width == w,
            w == F::encoding_len(),
            w > 0,
            len == bytes@.len(),
            n * w == len - 8,
            at == 8 + i * w,
            at <= len,
            elements@.len() == i,
            all_canonical(elements@),
            bytes@.subrange(8, at as int) == concatenated(elements@),
            le_bytes(n as nat, 8) == bytes@.subrange(0, 8),
        decreases n - i,
    {
        proof {
            assert((i + 1) * w == i * w + w) by (nonlinear_arith);
            assert((i + 1) * w <= n * w) by (nonlinear_arith)
                requires
                    i + 1 <= n,
            ;
        }
        match F::decode(bytes, at) {
            Some(a) => {
                let ghost before: Seq<F> = elements@;
                elements.push(a);
                proof {
                    assert(elements@.drop_last() =~= before);
                    assert(bytes@.subrange(8, at + w) =~= bytes@.subrange(8, at as int)
                        + bytes@.subrange(at as int, at + w));
                }
            },
            None => {
                proof {
                    assert forall|s: Seq<F>| !encodes_elements(bytes@, s) by {
                        if encodes_elements(bytes@, s) {
                            lemma_le_bytes_len(s.len(), 8);
                            lemma_concatenated_len(s);
                            assert(s.len() == n) by (nonlinear_arith)
                                requires
                                    s.len() * w == n * w,
                                    w > 0,
                            ;
                            lemma_concatenated_part(s, i as int);
                            assert(bytes@.subrange(at as int, at + w) =~= concatenated(s).subrange(
                                i * w,
                                i * w + w,
                            ));
                            assert(s[i as int].canonical());
                        }
                    }
                }
                return None;
            },
        }
        at = at + width;
        i = i + 1;
    }
    proof {
        assert(bytes@ =~= bytes@.subrange(0, 8) + bytes@.subrange(8, at as int));
        assert(encodes_elements(bytes@, elements@));
        law_elements_are_read_back(elements@);
    }
    Some(elements)
}

proof fn lemma_product_divides(n: nat, w: nat)
    requires
        w > 0,
    ensures
        (n * w) % w == 0,
        (n * w) / w == n,
{
    vstd::arithmetic::div_mod::lemma_mod_multiples_basic(n as int, w as int);
    vstd::arithmetic::div_mod::lemma_div_by_multiple(n as int, w as int);
}

// ---- authentication paths ----

/// The digests, one after the other.
pub open spec fn concatenated_digests(digests: Seq<Seq<u8>>) -> Seq<u8>
    decreases digests.len(),
{
    if digests.len() == 0 {
        Seq::empty()
    } else {
        concatenated_digests(digests.drop_last()) + digests.last()
    }
}

/// The encoding of a path: the leaf, the number of siblings, the siblings.
pub open spec fn encoded_path<F: FieldElement>(path: PathView<F>) -> Seq<u8> {
    path.value.encoding() + le_bytes(path.siblings.len(), 8) + concatenated_digests(path.siblings)
}

/// Whether the leaf is canonical and the siblings are digests.
pub open spec fn valid_path<F: FieldElement>(path: PathView<F>) -> bool {
    &&& path.value.canonical()
    &&& path.siblings.len() < 0x1_0000_0000_0000_0000
    &&& forall|i: int| 0 <= i < path.siblings.len() ==> (#[trigger] path.siblings[i]).len() == 32
}

pub open spec fn all_valid_paths<F: FieldElement>(paths: Seq<PathView<F>>) -> bool {
    forall|i: int| 0 <= i < paths.len() ==> valid_path(#[trigger] paths[i])
}

/// The encodings of the paths, one after the other.
pub open spec fn concatenated_paths<F: FieldElement>(paths: Seq<PathView<F>>) -> Seq<u8>
    decreases paths.len(),
{
    if paths.len() == 0 {
        Seq::empty()
    } else {
        concatenated_paths(paths.drop_last()) + encoded_path(paths.last())
    }
}

/// The encoding of a list of paths: their number, then the paths.
pub open spec fn encoded_paths<F: FieldElement>(paths: Seq<PathView<F>>) -> Seq<u8> {
    le_bytes(paths.len(), 8) + concatenated_paths(paths)
}

/// Whether `paths` are valid and encoded by `bytes`.
pub open spec fn encodes_paths<F: FieldElement>(bytes: Seq<u8>, paths: Seq<PathView<F>>) -> bool {
    &&& all_valid_paths(paths)
    &&& paths.len() < 0x1_0000_0000_0000_0000
    &&& encoded_paths(paths) == bytes
}

/// The list of paths that `bytes` encode, where they encode one.
pub open spec fn decoded_paths<F: FieldElement>(bytes: Seq<u8>) -> Option<Seq<PathView<F>>> {
    if exists|paths: Seq<PathView<F>>| encodes_paths(bytes, paths) {
        Some(choose|paths: Seq<PathView<F>>| encodes_paths(bytes, paths))
    } else {
        None
    }
}

/// Whether `piece` stands in `bytes` at position `at`.
spec fn stands_at(bytes: Seq<u8>, at: int, piece: Seq<u8>) -> bool {
    &&& 0 <= at
    &&& at + piece.len() <= bytes.len()
    &&& bytes.subrange(at, at + piece.len()) == piece
}

proof fn lemma_concatenated_digests<F: FieldElement>(path: PathView<F>, k: int)
    requires
        valid_path(path),
        0 <= k <= path.siblings.len(),
    ensures
        concatenated_digests(path.siblings.take(k)).len() == 32 * k,
        forall|i: int|
            0 <= i < k ==> concatenated_digests(path.siblings.take(k)).subrange(
                32 * i,
                32 * i + 32,
            ) == #[trigger] path.siblings[i],
    decreases k,
{
    let t = path.siblings.take(k);
    if k > 0 {
        lemma_concatenated_digests(path, k - 1);
        assert(t.drop_last() =~= path.siblings.take(k - 1));
        assert(t.last() == path.siblings[k - 1]);
        assert forall|i: int| 0 <= i < k implies concatenated_digests(t).subrange(
            32 * i,
            32 * i + 32,
        ) == #[trigger] path.siblings[i] by {
            let c = concatenated_digests(t.drop_last());
            if i < k - 1 {
                assert(concatenated_digests(t).subrange(32 * i, 32 * i + 32) =~= c.subrange(
                    32 * i,
                    32 * i + 32,
                ));
            } else {
                assert(concatenated_digests(t).subrange(32 * i, 32 * i + 32) =~= t.last());
            }
        }
    }
}

/// Where the parts of an encoded path stand.
proof fn lemma_path_parts<F: FieldElement>(bytes: Seq<u8>, at: int, path: PathView<F>)
    requires
        valid_path(path),
        stands_at(bytes, at, encoded_path(path)),
    ensures
        ({
            let w = F::encoding_len() as int;
            let n = path.siblings.len();
            &&& encoded_path(path).len() == w + 8 + 32 * n
            &&& bytes.subrange(at, at + w) == path.value.encoding()
            &&& bytes.subrange(at + w, at + w + 8) == le_bytes(n, 8)
            &&& forall|i: int|
                0 <= i < n ==> bytes.subrange(
                    at + w + 8 + 32 * i,
                    at + w + 8 + 32 * i + 32,
                ) == #[trigger] path.siblings[i]
        }),
{
    let w = F::encoding_len() as int;
    let n = path.siblings.len();
    F::lemma_encoding_len(path.value);
    lemma_le_bytes_len(n, 8);
    lemma_concatenated_digests(path, n as int);
    assert(path.siblings.take(n as int) =~= path.siblings);
    let e = encoded_path(path);
    let piece = bytes.subrange(at, at + e.len());
    assert(bytes.subrange(at, at + w) =~= piece.subrange(0, w));
    assert(bytes.subrange(at, at + w) =~= path.value.encoding());
    assert(bytes.subrange(at + w, at + w + 8) =~= piece.subrange(w, w + 8));
    assert(bytes.subrange(at + w, at + w + 8) =~= le_bytes(n, 8));
    assert forall|i: int| 0 <= i < n implies bytes.subrange(
        at + w + 8 + 32 * i,
        at + w + 8 + 32 * i + 32,
    ) == #[trigger] path.siblings[i] by {
        let lo = w + 8 + 32 * i;
        assert(bytes.subrange(at + lo, at + lo + 32) =~= piece.subrange(lo, lo + 32));
        assert(piece.subrange(lo, lo + 32) =~= concatenated_digests(path.siblings).subrange(
            32 * i,
            32 * i + 32,
        ));
    }
}

/// No two paths have encodings that stand at one place.
proof fn lemma_path_unique<F: FieldElement>(bytes: Seq<u8>, at: int, p: PathView<F>, q: PathView<F>)
    requires
        valid_path(p),
        valid_path(q),
        stands_at(bytes, at, encoded_path(p)),
        stands_at(bytes, at, encoded_path(q)),
    ensures
        p == q,
{
    lemma_path_parts(bytes, at, p);
    lemma_path_parts(bytes, at, q);
    F::lemma_encoding_injective(p.value, q.value);
    lemma_pow256_values();
    lemma_le_bytes_injective(p.siblings.len(), q.siblings.len(), 8);
    let w = F::encoding_len() as int;
    assert forall|i: int| 0 <= i < p.siblings.len() implies p.siblings[i] == q.siblings[i] by {
        assert(bytes.subrange(at + w + 8 + 32 * i, at + w + 8 + 32 * i + 32) == p.siblings[i]);
        assert(bytes.subrange(at + w + 8 + 32 * i, at + w + 8 + 32 * i + 32) == q.siblings[i]);
    }
    assert(p.siblings =~= q.siblings);
}

/// In an encoded list, path `i` stands behind the paths before it.
proof fn lemma_list_part<F: FieldElement>(bytes: Seq<u8>, paths: Seq<PathView<F>>, i: int)
    requires
        encodes_paths(bytes, paths),
        0 <= i < paths.len(),
    ensures
        stands_at(
            bytes,
            8int + concatenated_paths(paths.take(i)).len(),
            encoded_path(paths[i]),
        ),
        concatenated_paths(paths.take(i + 1)) == concatenated_paths(paths.take(i)) + encoded_path(
            paths[i],
        ),
{
    lemma_le_bytes_len(paths.len(), 8);
    lemma_concatenated_prefix(paths, i + 1);
    let before = concatenated_paths(paths.take(i));
    let piece = encoded_path(paths[i]);
    assert(paths.take(i + 1).drop_last() =~= paths.take(i));
    assert(concatenated_paths(paths.take(i + 1)) == before + piece);
    let whole = concatenated_paths(paths);
    let rest = choose|rest: Seq<u8>| whole == #[trigger] (before + piece + rest);
    let at = 8int + before.len();
    assert(bytes.subrange(at, at + piece.len()) =~= piece);
}

proof fn lemma_concatenated_prefix<F: FieldElement>(paths: Seq<PathView<F>>, k: int)
    requires
        0 <= k <= paths.len(),
    ensures
        exists|rest: Seq<u8>|
            concatenated_paths(paths) == #[trigger] (concatenated_paths(paths.take(k)) + rest),
    decreases paths.len(),
{
    if k == paths.len() {
        assert(paths.take(k) =~= paths);
        assert(concatenated_paths(paths) =~= concatenated_paths(paths.take(k)) + Seq::<
            u8,
        >::empty());
    } else {
        let prefix = paths.drop_last();
        lemma_concatenated_prefix(prefix, k);
        assert(prefix.take(k) =~= paths.take(k));
        let rest = choose|rest: Seq<u8>|
            concatenated_paths(prefix) == #[trigger] (concatenated_paths(prefix.take(k)) + rest);
        assert(concatenated_paths(paths) =~= concatenated_paths(paths.take(k)) + (rest
            + encoded_path(paths.last())));
    }
}

/// Two lists with one encoding agree.
proof fn lemma_encoded_paths_injective<F: FieldElement>(
    bytes: Seq<u8>,
    a: Seq<PathView<F>>,
    b: Seq<PathView<F>>,
)
    requires
        encodes_paths(bytes, a),
        encodes_paths(bytes, b),
    ensures
        a == b,
{
    lemma_le_bytes_len(a.len(), 8);
    lemma_le_bytes_len(b.len(), 8);
    assert(bytes.subrange(0, 8) =~= le_bytes(a.len(), 8));
    assert(bytes.subrange(0, 8) =~= le_bytes(b.len(), 8));
    lemma_pow256_values();
    lemma_le_bytes_injective(a.len(), b.len(), 8);
    lemma_same_prefix(bytes, a, b, a.len() as int);
    assert(a.take(a.len() as int) =~= a);
    assert(b.take(a.len() as int) =~= b);
}

proof fn lemma_same_prefix<F: FieldElement>(
    bytes: Seq<u8>,
    a: Seq<PathView<F>>,
    b: Seq<PathView<F>>,
    k: int,
)
    requires
        encodes_paths(bytes, a),
        encodes_paths(bytes, b),
        0 <= k <= a.len(),
        k <= b.len(),
    ensures
        a.take(k) == b.take(k),
    decreases k,
{
    if k > 0 {
        lemma_same_prefix(bytes, a, b, k - 1);
        lemma_list_part(bytes, a, k - 1);
        lemma_list_part(bytes, b, k - 1);
        lemma_path_unique(
            bytes,
            8int + concatenated_paths(a.take(k - 1)).len(),
            a[k - 1],
            b[k - 1],
        );
        assert(a.take(k) =~= a.take(k - 1).push(a[k - 1]));
        assert(b.take(k) =~= b.take(k - 1).push(b[k - 1]));
    } else {
        assert(a.take(k) =~= b.take(k));
    }
}

/// Paths of bounded depth have encodings of bounded length.
pub proof fn lemma_encoded_paths_len<F: FieldElement>(paths: Seq<PathView<F>>)
    requires
        all_valid_paths(paths),
        forall|i: int| 0 <= i < paths.len() ==> (#[trigger] paths[i]).siblings.len() <= 64,
    ensures
        encoded_paths(paths).len() <= 8 + paths.len() * 4096,
    decreases paths.len(),
{
    lemma_le_bytes_len(paths.len(), 8);
    if paths.len() > 0 {
        let path = paths.last();
        assert(all_valid_paths(paths.drop_last()));
        lemma_encoded_paths_len(paths.drop_last());
        lemma_le_bytes_len(paths.drop_last().len(), 8);
        assert(valid_path(path));
        lemma_concatenated_digests(path, path.siblings.len() as int);
        assert(path.siblings.take(path.siblings.len() as int) =~= path.siblings);
        F::lemma_encoding_len(path.value);
        lemma_le_bytes_len(path.siblings.len(), 8);
    }
}

/// What was encoded is decoded.
pub proof fn law_paths_are_read_back<F: FieldElement>(paths: Seq<PathView<F>>)
    requires
        all_valid_paths(paths),
        paths.len() < 0x1_0000_0000_0000_0000,
    ensures
        decoded_paths::<F>(encoded_paths(paths)) == Some(paths),
{
    let bytes = encoded_paths(paths);
    assert(encodes_paths(bytes, paths));
    let d = choose|d: Seq<PathView<F>>| encodes_paths(bytes, d);
    lemma_encoded_paths_injective(bytes, paths, d);
}

/// What is read from bytes is a list of valid paths that the bytes encode, and nothing
/// is read only where they encode none.
pub proof fn law_read_paths_were_encoded<F: FieldElement>(bytes: Seq<u8>)
    ensures
        match decoded_paths::<F>(bytes) {
            Some(paths) => {
                &&& all_valid_paths(paths)
                &&& paths.len() < 0x1_0000_0000_0000_0000
                &&& encoded_paths(paths) == bytes
            },
            None => forall|paths: Seq<PathView<F>>|
                all_valid_paths(paths) && paths.len() < 0x1_0000_0000_0000_0000
                    ==> #[trigger] encoded_paths(paths) != bytes,
        },
{
    if decoded_paths::<F>(bytes) is None {
        assert forall|paths: Seq<PathView<F>>|
            all_valid_paths(paths) && paths.len()
                < 0x1_0000_0000_0000_0000 implies #[trigger] encoded_paths(paths) != bytes by {
            assert(!encodes_paths(bytes, paths));
        }
    }
}

/// The encoding of a list of paths is its length in eight bytes, followed by the paths:
/// of each its value, the number of its siblings in eight bytes and the siblings.
pub proof fn law_paths_are_written_in_order<F: FieldElement>(paths: Seq<PathView<F>>)
    ensures
        encoded_paths(paths).take(8) == le_bytes(paths.len(), 8),
        paths.len() == 0 ==> encoded_paths(paths).skip(8).len() == 0,
        paths.len() > 0 ==> {
            let path = paths.last();
            let siblings = path.siblings;
            &&& encoded_paths(paths).skip(8) == encoded_paths(paths.drop_last()).skip(8)
                + path.value.encoding() + le_bytes(siblings.len(), 8) + concatenated_digests(
                siblings,
            )
            &&& siblings.len() == 0 ==> concatenated_digests(siblings).len() == 0
            &&& siblings.len() > 0 ==> concatenated_digests(siblings) == concatenated_digests(
                siblings.drop_last(),
            ) + siblings.last()
        },
{
    lemma_le_bytes_len(paths.len(), 8);
    assert(encoded_paths(paths).take(8) =~= le_bytes(paths.len(), 8));
    assert(encoded_paths(paths).skip(8) =~= concatenated_paths(paths));
    if paths.len() > 0 {
        let shorter = paths.drop_last();
        lemma_le_bytes_len(shorter.len(), 8);
        assert(encoded_paths(shorter).skip(8) =~= concatenated_paths(shorter));
        let path = paths.last();
        assert(encoded_paths(paths).skip(8) =~= encoded_paths(shorter).skip(8)
            + path.value.encoding() + le_bytes(path.siblings.len(), 8) + concatenated_digests(
            path.siblings,
        ));
    }
}

/// Appends the encoding of a path.
fn encode_path<F: FieldElement>(path: &PartialAuthenticationPath<F>, out: &mut Vec<u8>)
    ensures
        final(out)@ == old(out)@ + encoded_path(path@),
{
    let n: usize = path.siblings.len();
    path.value.encode(out);
    push_u64(out, n as u64);
    let ghost s: Seq<Seq<u8>> = path@.siblings;
    let ghost head: Seq<u8> = out@;
    let mut i: usize = 0;
    assert(out@ =~= head + concatenated_digests(s.take(0)));
    while i < n
        invariant
            i <= n,
            n == path.siblings@.len(),
            s == path@.siblings,
            out@ == head + concatenated_digests(s.take(i as int)),
        decreases n - i,
    {
        append_bytes(out, &path.siblings[i]);
        i = i + 1;
        proof {
            assert(s.take(i as int).drop_last() =~= s.take(i - 1));
            assert(out@ =~= head + concatenated_digests(s.take(i as int)));
        }
    }
    assert(s.take(n as int) =~= s);
    assert(out@ =~= old(out)@ + encoded_path(path@));
}

/// Encodes a list of paths.
pub fn encode_paths<F: FieldElement>(paths: &[PartialAuthenticationPath<F>]) -> (bytes: Vec<u8>)
    ensures
        bytes@ == encoded_paths(path_views(paths@)),
{
    let n: usize = paths.len();
    let ghost s: Seq<PathView<F>> = path_views(paths@);
    let mut bytes: Vec<u8> = Vec::new();
    push_u64(&mut bytes, n as u64);
    let mut i: usize = 0;
    assert(bytes@ =~= le_bytes(n as nat, 8) + concatenated_paths(s.take(0)));
    while i < n
        invariant
            i <= n,
            n == paths@.len(),
            s == path_views(paths@),
            bytes@ == le_bytes(n as nat, 8) + concatenated_paths(s.take(i as int)),
        decreases n - i,
    {
        encode_path(&paths[i], &mut bytes);
        i = i + 1;
        proof {
            assert(s.take(i as int).drop_last() =~= s.take(i - 1));
            assert(bytes@ =~= le_bytes(n as nat, 8) + concatenated_paths(s.take(i as int)));
        }
    }
    assert(s.take(n as int) =~= s);
    bytes
}

/// The digest at position `at`.
pub fn read_digest(bytes: &[u8], at: usize) -> (digest: [u8; 32])
    requires
        at + 32 <= bytes@.len(),
    ensures
        digest@ == bytes@.subrange(at as int, at + 32),
{
    let len: usize = bytes.len();
    let mut digest: [u8; 32] = [0u8; 32];
    let mut i: usize = 0;
    while i < 32
        invariant
            i <= 32,
            len == bytes@.len(),
            at + 32 <= len,
            forall|j: int| 0 <= j < i ==> digest@[j] == bytes@[at + j],
        decreases 32 - i,
    {
        digest[i] = bytes[at + i];
        i = i + 1;
    }
    assert(digest@ =~= bytes@.subrange(at as int, at + 32));
    digest
}

/// Reads the path that stands at position `at`, and says where it ends; `None`
/// where no path stands there.
fn decode_path<F: FieldElement>(bytes: &[u8], at: usize) -> (r: Option<
    (PartialAuthenticationPath<F>, usize),
>)
    requires
        at <= bytes@.len(),
    ensures
        r matches Some((path, end)) ==> {
            &&& valid_path(path@)
            &&& stands_at(bytes@, at as int, encoded_path(path@))
            &&& end == at + encoded_path(path@).len()
        },
        r is None ==> forall|q: PathView<F>|
            valid_path(q) ==> !stands_at(bytes@, at as int, #[trigger] encoded_path(q)),
{
    let len: usize = bytes.len();
    let width: usize = F::encoded_len();
    let ghost w: int = F::encoding_len() as int;
    proof {
        F::lemma_encoding_len(F::one());
        assert forall|q: PathView<F>|
            valid_path(q) && stands_at(
                bytes@,
                at as int,
                #[trigger] encoded_path(q),
            ) implies path_stands(bytes@, at as int, q) by {
            lemma_path_parts(bytes@, at as int, q);
        }
    }
    if len - at < width || len - at - width < 8 {
        return None;
    }
    let value: F = match F::decode(bytes, at) {
        Some(value) => value,
        None => {
            return None;
        },
    };
    let count: u64 = read_u64(bytes, at + width);
    let start: usize = at + width + 8;
    let room: usize = (len - start) / 32;
    if (room as u64) < count {
        proof {
            assert forall|q: PathView<F>| valid_path(q) implies !stands_at(
                bytes@,
                at as int,
                #[trigger] encoded_path(q),
            ) by {
                if stands_at(bytes@, at as int, encoded_path(q)) {
                    assert(path_stands(bytes@, at as int, q));
                    lemma_pow256_values();
                    lemma_le_bytes_injective(q.siblings.len(), count as nat, 8);
                }
            }
        }
        return None;
    }
    let n: usize = count as usize;
    let mut siblings: Vec<[u8; 32]> = Vec::new();
    let mut i: usize = 0;
    let mut end: usize = start;
    assert(bytes@.subrange(start as int, start as int) =~= concatenated_digests(
        digest_views(siblings@),
    ));
    while i < n
        invariant
            i <= n,
            len == bytes@.len(),
            end == start + 32 * i,
            start + 32 * n <= len,
            siblings@.len() == i,
            bytes@.subrange(start as int, end as int) == concatenated_digests(
                digest_views(siblings@),
            ),
        decreases n - i,
    {
        let ghost before: Seq<Seq<u8>> = digest_views(siblings@);
        let digest: [u8; 32] = read_digest(bytes, end);
        siblings.push(digest);
        proof {
            assert(digest_views(siblings@).drop_last() =~= before);
            assert(bytes@.subrange(start as int, end + 32) =~= bytes@.subrange(
                start as int,
                end as int,
            ) + bytes@.subrange(end as int, end + 32));
        }
        end = end + 32;
        i = i + 1;
    }
    let path: PartialAuthenticationPath<F> = PartialAuthenticationPath { value, siblings };
    proof {
        assert(path@.siblings.len() == n);
        F::lemma_encoding_len(value);
        lemma_le_bytes_len(n as nat, 8);
        assert(bytes@.subrange(at as int, end as int) =~= bytes@.subrange(at as int, at + w)
            + bytes@.subrange(at + w, at + w + 8) + bytes@.subrange(start as int, end as int));
    }
    Some((path, end))
}

/// What `lemma_path_parts` says of a path that stands at position `at`.
spec fn path_stands<F: FieldElement>(bytes: Seq<u8>, at: int, path: PathView<F>) -> bool {
    let w = F::encoding_len() as int;
    let n = path.siblings.len();
    &&& encoded_path(path).len() == w + 8 + 32 * n
    &&& bytes.subrange(at, at + w) == path.value.encoding()
    &&& bytes.subrange(at + w, at + w + 8) == le_bytes(n, 8)
}

/// Decodes a list of paths; `None` where the bytes encode none.
pub fn decode_paths<F: FieldElement>(bytes: &[u8]) -> (r: Option<Vec<PartialAuthenticationPath<F>>>)
    ensures
        match decoded_paths::<F>(bytes@) {
            Some(paths) => r matches Some(v) && path_views(v@) == paths && all_valid_paths(paths),
            None => r is None,
        },
{
    let len: usize = bytes.len();
    proof {
        assert forall|qs: Seq<PathView<F>>| #[trigger] encodes_paths(bytes@, qs) implies len >= 8
            && bytes@.subrange(0, 8) == le_bytes(qs.len(), 8) by {
            lemma_le_bytes_len(qs.len(), 8);
            assert(bytes@.subrange(0, 8) =~= le_bytes(qs.len(), 8));
        }
    }
    if len < 8 {
        return None;
    }
    let count: u64 = read_u64(bytes, 0);
    let mut paths: Vec<PartialAuthenticationPath<F>> = Vec::new();
    let mut i: u64 = 0;
    let mut at: usize = 8;
    proof {
        assert(bytes@.subrange(8, 8) =~= concatenated_paths(path_views(paths@)));
        assert forall|qs: Seq<PathView<F>>| #[trigger] encodes_paths(bytes@, qs) implies qs.len()
            == count && path_views(paths@) == qs.take(0) by {
            lemma_pow256_values();
            lemma_le_bytes_injective(qs.len(), count as nat, 8);
            assert(path_views(paths@) =~= qs.take(0));
        }
    }
    while i < count
        invariant
            i <= count,
            len == bytes@.len(),
            8 <= at <= len,
            paths@.len() == i,
            le_bytes(count as nat, 8) == bytes@.subrange(0, 8),
            all_valid_paths(path_views(paths@)),
            bytes@.subrange(8, at as int) == concatenated_paths(path_views(paths@)),
            forall|qs: Seq<PathView<F>>| #[trigger]
                encodes_paths(bytes@, qs) ==> qs.len() == count && path_views(paths@) == qs.take(
                    i as int,
                ),
        decreases count - i,
    {
        let ghost before: Seq<PathView<F>> = path_views(paths@);
        match decode_path::<F>(bytes, at) {
            Some((path, end)) => {
                let ghost p: PathView<F> = path@;
                paths.push(path);
                proof {
                    let now = path_views(paths@);
                    assert(now =~= before.push(p));
                    assert(now.drop_last() =~= before);
                    assert(bytes@.subrange(8, end as int) =~= bytes@.subrange(8, at as int)
                        + bytes@.subrange(at as int, end as int));
                    assert forall|qs: Seq<PathView<F>>| #[trigger]
                        encodes_paths(bytes@, qs) implies now == qs.take(i + 1) by {
                        lemma_list_part(bytes@, qs, i as int);
                        lemma_path_unique(bytes@, at as int, p, qs[i as int]);
                        assert(now =~= qs.take(i + 1));
                    }
                }
                at = end;
            },
            None => {
                proof {
                    assert forall|qs: Seq<PathView<F>>| !#[trigger] encodes_paths(bytes@, qs) by {
                        if encodes_paths(bytes@, qs) {
                            lemma_list_part(bytes@, qs, i as int);
                            assert(valid_path(qs[i as int]));
                        }
                    }
                }
                return None;
            },
        }
        i = i + 1;
    }
    let ghost all: Seq<PathView<F>> = path_views(paths@);
    if at != len {
        proof {
            assert forall|qs: Seq<PathView<F>>| !#[trigger] encodes_paths(bytes@, qs) by {
                if encodes_paths(bytes@, qs) {
                    assert(qs.take(count as int) =~= qs);
                    lemma_le_bytes_len(qs.len(), 8);
                }
            }
        }
        return None;
    }
    proof {
        assert(bytes@ =~= bytes@.subrange(0, 8) + bytes@.subrange(8, at as int));
        assert(encodes_paths(bytes@, all));
        law_paths_are_read_back(all);
    }
    Some(paths)
}

} // verus!
