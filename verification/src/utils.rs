//! Digests of byte strings and the numbers drawn from them.

use vstd::arithmetic::div_mod::*;
use vstd::prelude::*;

verus! {

/// The BLAKE3 digest of `bytes`, as `blake3::hash` computes it.
pub uninterp spec fn blake3_hash(bytes: Seq<u8>) -> Seq<u8>;

/// Calls `blake3::hash`, which hashes a byte string with the default, unkeyed
/// BLAKE3 and never fails. The contract claims only that the digest is a
/// function of the bytes; its length is that of the array.
#[verifier::external_body]
fn hash_with_blake3(bytes: &[u8]) -> (digest: [u8; 32])
    ensures
        digest@ == blake3_hash(bytes@),
{
    *blake3::hash(bytes).as_bytes()
}

/// The 32-byte digest of `bytes`.
pub open spec fn digest_of(bytes: Seq<u8>) -> Seq<u8> {
    Seq::new(32, |i: int| blake3_hash(bytes)[i])
}

/// The digest of `bytes`.
pub fn blake3_digest(bytes: &[u8]) -> (digest: [u8; 32])
    ensures
        digest@ == digest_of(bytes@),
        digest@ == blake3_hash(bytes@),
{
    let digest: [u8; 32] = hash_with_blake3(bytes);
    assert(digest@ =~= digest_of(bytes@));
    digest
}

/// The number whose base-256 digits are `bytes`, highest first, modulo `2^64`.
pub open spec fn be_value_mod_2_64(bytes: Seq<u8>) -> nat
    decreases bytes.len(),
{
    if bytes.len() == 0 {
        0
    } else {
        (256 * be_value_mod_2_64(bytes.drop_last()) + bytes.last() as nat)
            % 0x1_0000_0000_0000_0000
    }
}

/// The index below `length` that `bytes` determine.
pub open spec fn index_of(bytes: Seq<u8>, length: usize) -> usize {
    (be_value_mod_2_64(bytes) % (length as nat)) as usize
}

/// The index below `length` that `bytes` determine.
pub fn get_index_from_bytes(bytes: &[u8], length: usize) -> (index: usize)
    requires
        length > 0,
    ensures
        index == index_of(bytes@, length),
        index < length,
{
    let mut acc: u64 = 0;
    let mut i: usize = 0;
    let n: usize = bytes.len();
    assert(bytes@.take(0) =~= Seq::<u8>::empty());
    while i < n
        invariant
            i <= n,
            n == bytes@.len(),
            acc == be_value_mod_2_64(bytes@.take(i as int)),
        decreases n - i,
    {
        proof {
            assert(bytes@.take(i + 1).drop_last() =~= bytes@.take(i as int));
        }
        let next: u128 = (256 * (acc as u128) + bytes[i] as u128) % 0x1_0000_0000_0000_0000u128;
        acc = next as u64;
        i = i + 1;
    }
    assert(bytes@.take(n as int) =~= bytes@);
    (acc % (length as u64)) as usize
}

/// A digest holds the hash of all bytes, whatever their number.
pub proof fn law_digest_is_the_hash(bytes: Seq<u8>)
    ensures
        digest_of(bytes).len() == 32,
        forall|i: int| 0 <= i < 32 ==> #[trigger] digest_of(bytes)[i] == blake3_hash(bytes)[i],
{
}

/// A factor and a summand can be applied to a remainder or to what it remains of.
proof fn lemma_remainder_step(c: int, z: int, t: int)
    ensures
        (c * (z % 0x1_0000_0000_0000_0000) + t) % 0x1_0000_0000_0000_0000 == (c * z + t)
            % 0x1_0000_0000_0000_0000,
{
    let m = 0x1_0000_0000_0000_0000int;
    lemma_mul_mod_noop_right(c, z, m);
    lemma_add_mod_noop(c * (z % m), t, m);
    lemma_add_mod_noop(c * z, t, m);
}

/// One more byte in front of those that a number is made of.
proof fn lemma_one_more_byte(bytes: Seq<u8>, j: int, c: int, t: int)
    requires
        0 <= j < bytes.len(),
        be_value_mod_2_64(bytes) == (c * be_value_mod_2_64(bytes.take(bytes.len() - j)) + t)
            % 0x1_0000_0000_0000_0000,
    ensures
        be_value_mod_2_64(bytes) == ((256 * c) * be_value_mod_2_64(
            bytes.take(bytes.len() - j - 1),
        ) + (c * bytes[bytes.len() - j - 1] + t)) % 0x1_0000_0000_0000_0000,
{
    let s = bytes.take(bytes.len() - j);
    let y = be_value_mod_2_64(s.drop_last()) as int;
    let b = bytes[bytes.len() - j - 1] as int;
    assert(s.drop_last() =~= bytes.take(bytes.len() - j - 1));
    lemma_remainder_step(c, 256 * y + b, t);
    assert(c * (256 * y + b) + t == (256 * c) * y + (c * b + t)) by (nonlinear_arith);
}

/// An index is read from the last eight bytes, as a number with the highest byte
/// first, modulo the length. Missing bytes count as zeros.
pub proof fn law_index_is_read_from_last_bytes(bytes: Seq<u8>, length: usize)
    requires
        length > 0,
    ensures
        bytes.len() >= 8 ==> ({
            let k = bytes.len() - 8;
            index_of(bytes, length) == (bytes[k] * 0x100_0000_0000_0000 + bytes[k + 1]
                * 0x1_0000_0000_0000 + bytes[k + 2] * 0x100_0000_0000 + bytes[k + 3]
                * 0x1_0000_0000 + bytes[k + 4] * 0x100_0000 + bytes[k + 5] * 0x1_0000 + bytes[k + 6]
                * 0x100 + bytes[k + 7]) % (length as int)
        }),
        bytes.len() < 8 ==> index_of(bytes, length) == index_of(seq![0u8] + bytes, length),
{
    let n = bytes.len();
    let v = be_value_mod_2_64(bytes) as int;
    if n >= 8 {
        let k = n - 8;
        let b = |i: int| bytes[k + i] as int;
        assert(bytes.take(n as int) =~= bytes);
        lemma_below_2_64(bytes);
        lemma_small_mod(v as nat, 0x1_0000_0000_0000_0000);
        lemma_one_more_byte(bytes, 0, 1, 0);
        lemma_one_more_byte(bytes, 1, 256, b(7));
        lemma_one_more_byte(bytes, 2, 0x1_0000, 0x100 * b(6) + b(7));
        lemma_one_more_byte(bytes, 3, 0x100_0000, 0x1_0000 * b(5) + (0x100 * b(6) + b(7)));
        let t4 = 0x100_0000 * b(4) + (0x1_0000 * b(5) + (0x100 * b(6) + b(7)));
        lemma_one_more_byte(bytes, 4, 0x1_0000_0000, t4);
        let t5 = 0x1_0000_0000 * b(3) + t4;
        lemma_one_more_byte(bytes, 5, 0x100_0000_0000, t5);
        let t6 = 0x100_0000_0000 * b(2) + t5;
        lemma_one_more_byte(bytes, 6, 0x1_0000_0000_0000, t6);
        let t7 = 0x1_0000_0000_0000 * b(1) + t6;
        lemma_one_more_byte(bytes, 7, 0x100_0000_0000_0000, t7);
        let t8 = 0x100_0000_0000_0000 * b(0) + t7;
        let y = be_value_mod_2_64(bytes.take(n - 8)) as int;
        lemma_mod_multiples_vanish(y, t8, 0x1_0000_0000_0000_0000);
        lemma_small_mod(t8 as nat, 0x1_0000_0000_0000_0000);
        assert(v == t8);
    } else {
        lemma_leading_zero(bytes);
    }
    lemma_mod_bound(v, length as int);
}

proof fn lemma_below_2_64(bytes: Seq<u8>)
    ensures
        be_value_mod_2_64(bytes) < 0x1_0000_0000_0000_0000,
{
}

proof fn lemma_leading_zero(bytes: Seq<u8>)
    ensures
        be_value_mod_2_64(seq![0u8] + bytes) == be_value_mod_2_64(bytes),
    decreases bytes.len(),
{
    let s = seq![0u8] + bytes;
    if bytes.len() == 0 {
        assert(s.drop_last() =~= Seq::<u8>::empty());
        assert(be_value_mod_2_64(s.drop_last()) == 0);
    } else {
        assert(s.drop_last() =~= seq![0u8] + bytes.drop_last());
        lemma_leading_zero(bytes.drop_last());
    }
}

/// Appends `bytes` to `out`.
pub fn append_bytes(out: &mut Vec<u8>, bytes: &[u8])
    ensures
        final(out)@ == old(out)@ + bytes@,
{
    let n: usize = bytes.len();
    let mut i: usize = 0;
    while i < n
        invariant
            i <= n,
            n == bytes@.len(),
            out@ == old(out)@ + bytes@.take(i as int),
        decreases n - i,
    {
        out.push(bytes[i]);
        i = i + 1;
        proof {
            assert(bytes@.take(i as int) =~= bytes@.take(i - 1).push(bytes@[i - 1]));
            assert(out@ =~= old(out)@ + bytes@.take(i as int));
        }
    }
    assert(bytes@.take(n as int) =~= bytes@);
}

/// Whether two digests agree.
pub fn digests_equal(a: &[u8; 32], b: &[u8; 32]) -> (r: bool)
    ensures
        r == (a@ == b@),
{
    let mut i: usize = 0;
    while i < 32
        invariant
            i <= 32,
            forall|j: int| 0 <= j < i ==> a@[j] == b@[j],
        decreases 32 - i,
    {
        if a[i] != b[i] {
            assert(a@[i as int] != b@[i as int]);
            return false;
        }
        i = i + 1;
    }
    assert(a@ =~= b@);
    true
}

} // verus!
