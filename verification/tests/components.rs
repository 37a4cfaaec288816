use twenty_first::b_field_element::BFieldElement;
use twenty_first::codec::{decode_elements, decode_paths, encode_elements, encode_paths};
use twenty_first::field::FieldElement;
use twenty_first::group::{batch_inversion, get_cyclic_group_elements, mod_pow_u32, mod_pow_u64};
use twenty_first::merkle_tree::{is_leaf_count, MerkleTree, PartialAuthenticationPath};
use twenty_first::ntt::slow_intt;
use twenty_first::other::log_2_ceil;
use twenty_first::polynomial::Polynomial;
use twenty_first::proof_stream::{ProofStream, ProofStreamError};
use twenty_first::utils::{blake3_digest, digests_equal, get_index_from_bytes};
use twenty_first::x_field_element::XFieldElement;

const P: u64 = BFieldElement::QUOTIENT;

fn b(value: u64) -> BFieldElement {
    BFieldElement::new(value)
}

fn bs(values: &[u64]) -> Vec<BFieldElement> {
    values.iter().map(|v| b(*v)).collect()
}

fn x(c0: u64, c1: u64, c2: u64) -> XFieldElement {
    XFieldElement { c0: b(c0), c1: b(c1), c2: b(c2) }
}

fn hex(bytes: &[u8]) -> String {
    bytes.iter().map(|v| format!("{:02x}", v)).collect()
}

fn evaluate(coefficients: &[BFieldElement], at: BFieldElement) -> BFieldElement {
    let mut value = b(0);
    for c in coefficients.iter().rev() {
        value = value.mul(at).add(*c);
    }
    value
}

#[test]
fn digests_of_bytes_are_exact() {
    assert_eq!(
        "af1349b9f5f9a1a6a0404dea36dcc9499bcb25c9adc112b7cc9a93cae41f3262",
        hex(&blake3_digest(&[]))
    );
    assert_eq!(
        "6437b3ac38465133ffb63b75273a8db548c558465d79db03fd359c6cd5bd9d85",
        hex(&blake3_digest(b"abc"))
    );
}

#[test]
fn digests_are_compared_by_every_byte() {
    let a = blake3_digest(b"abc");
    let mut c = a;
    assert!(digests_equal(&a, &c));
    c[31] ^= 1;
    assert!(!digests_equal(&a, &c));
}

#[test]
fn indices_come_from_the_last_eight_bytes() {
    assert_eq!(51, get_index_from_bytes(&[1, 2, 3], 1000));
    assert_eq!(615, get_index_from_bytes(&[0xff; 9], 1000));
    assert_eq!(0, get_index_from_bytes(&[], 5));
    assert_eq!(0, get_index_from_bytes(&[7], 1));
}

#[test]
fn logarithms_are_rounded_up() {
    let cases = [(1, 0), (2, 1), (3, 2), (4, 2), (5, 3), (1 << 40, 40), ((1 << 40) + 1, 41)];
    for (value, log) in cases {
        assert_eq!(log, log_2_ceil(value));
    }
    assert_eq!(64, log_2_ceil(u64::MAX));
}

#[test]
fn base_field_arithmetic_is_modular() {
    assert_eq!(0, b(P).value());
    assert_eq!(u64::MAX - P, b(u64::MAX).value());
    assert_eq!(b(3), b(P - 1).add(b(4)));
    assert_eq!(b(P - 1), b(3).sub(b(4)));
    assert_eq!(b(P - 6), b(2).mul(b(P - 3)));
    assert_eq!(b(1), b(P - 1).mul(b(P - 1)));
    assert_eq!(Some(b(2635249152773512046)), b(7).inverse());
    assert_eq!(None, b(0).inverse());
    assert!(b(5).equals(b(P + 5 - P)));
    assert!(!b(5).equals(b(6)));
}

#[test]
fn extension_field_arithmetic_reduces_by_the_shah_polynomial() {
    assert_eq!(x(P - 23, 22, 46), x(1, 2, 3).mul(x(4, 5, 6)));
    // X * X^2 is X - 1
    assert_eq!(x(P - 1, 1, 0), x(0, 1, 0).mul(x(0, 0, 1)));
    assert_eq!(x(5, 7, 9), x(1, 2, 3).add(x(4, 5, 6)));
    assert_eq!(x(P - 3, P - 3, P - 3), x(1, 2, 3).sub(x(4, 5, 6)));
    let inverse = x(1, 2, 3).inverse().unwrap();
    assert_eq!(x(1, 0, 0), x(1, 2, 3).mul(inverse));
    assert_eq!(None, x(0, 0, 0).inverse());
    assert_eq!(x(9, 0, 0), XFieldElement::new_const(b(9)));
}

#[test]
fn challenges_come_from_the_first_bytes_of_a_digest() {
    let digest = blake3_digest(b"abc");
    assert_eq!(b(3697813978277427044), BFieldElement::sample(&digest));
    assert_eq!(
        x(3697813978277427044, 13082176433726142207, 277949243532559688),
        XFieldElement::sample(&digest)
    );
}

#[test]
fn every_nonzero_element_is_inverted() {
    for v in [1, 2, 3, 5, 17, 257, 65537, 1 << 32, (1 << 32) - 1, P - 1, P - 2] {
        assert_eq!(b(1), b(v).mul(b(v).inverse().unwrap()));
    }
}

#[test]
fn every_nonzero_element_of_the_extension_is_inverted() {
    let cases = [
        x(5, 0, 0),
        x(0, 1, 0),
        x(0, 0, 1),
        x(P - 1, 1, 0),
        x(12345, 678, 0),
        x(P - 1, P - 1, P - 1),
        x(1 << 40, 3, 1 << 32),
        x(7831040667286096068, 10050274602728160327, 6700183068485440219),
    ];
    for a in cases {
        assert_eq!(x(1, 0, 0), a.mul(a.inverse().unwrap()));
    }
}

#[test]
fn powers_with_the_quotient_as_exponent() {
    // in the base field the element itself, in the extension a conjugate
    for v in [0, 1, 2, 7, P - 1, 987654321] {
        assert_eq!(b(v), mod_pow_u64(b(v), P));
    }
    let conjugate = mod_pow_u64(x(0, 1, 0), P);
    assert_eq!(
        x(7831040667286096068, 10050274602728160328, 6700183068485440219),
        conjugate
    );
    // it is another root of X^3 - X + 1
    let cube = conjugate.mul(conjugate).mul(conjugate);
    assert_eq!(x(0, 0, 0), cube.sub(conjugate).add(x(1, 0, 0)));
}

#[test]
fn roots_of_unity_have_their_order() {
    assert_eq!(Some(b(1)), BFieldElement::get_primitive_root_of_unity(1));
    assert_eq!(Some(b(P - 1)), BFieldElement::get_primitive_root_of_unity(2));
    assert_eq!(Some(b(281474976710656)), BFieldElement::get_primitive_root_of_unity(4));
    assert_eq!(Some(b(18446744069397807105)), BFieldElement::get_primitive_root_of_unity(8));
    assert_eq!(Some(b(70368744161280)), BFieldElement::get_primitive_root_of_unity(32));
    assert_eq!(Some(b(11353340290879379826)), BFieldElement::get_primitive_root_of_unity(1024));
    assert_eq!(
        Some(b(1753635133440165772)),
        BFieldElement::get_primitive_root_of_unity(0x1_0000_0000)
    );
    // every divisor of the order of the group, and the group itself
    assert_eq!(Some(b(18446744065119617025)), BFieldElement::get_primitive_root_of_unity(3));
    assert_eq!(Some(b(18446744065119617026)), BFieldElement::get_primitive_root_of_unity(6));
    assert_eq!(Some(b(12030049465912850429)), BFieldElement::get_primitive_root_of_unity(15));
    assert_eq!(Some(b(8478886009461009681)), BFieldElement::get_primitive_root_of_unity(65537));
    assert_eq!(Some(b(7)), BFieldElement::get_primitive_root_of_unity(P - 1));
    assert_eq!(Some(x(7, 0, 0)), XFieldElement::get_primitive_root_of_unity(P - 1));
    for order in [6, 15, 257, 1536] {
        let root = BFieldElement::get_primitive_root_of_unity(order).unwrap();
        assert_eq!(order as usize, get_cyclic_group_elements(root).len());
    }
    for order in [0, 7, 1023, 0x2_0000_0000, P] {
        assert_eq!(None, BFieldElement::get_primitive_root_of_unity(order));
        assert_eq!(None, XFieldElement::get_primitive_root_of_unity(order));
    }
    assert_eq!(Some(x(P - 1, 0, 0)), XFieldElement::get_primitive_root_of_unity(2));
}

#[test]
fn groups_and_powers() {
    let i = b(281474976710656);
    assert_eq!(vec![b(1), i, b(P - 1), b(P).sub(i)], get_cyclic_group_elements(i));
    assert_eq!(vec![b(1)], get_cyclic_group_elements(b(1)));
    assert_eq!(b(1), mod_pow_u32(b(3), 0));
    assert_eq!(b(2187), mod_pow_u32(b(3), 7));
    assert_eq!(b(1), mod_pow_u64(b(7), P - 1));
    assert_eq!(b(P - 1), mod_pow_u64(b(7), (P - 1) / 2));
    assert_eq!(b(1), mod_pow_u32(b(1753635133440165772), 0x8000_0000).mul(b(P - 1)));
}

#[test]
fn inversion_in_batches_inverts_each() {
    let values = bs(&[7, 2, P - 1, 12345]);
    let inverses = batch_inversion(&values);
    assert_eq!(b(2635249152773512046), inverses[0]);
    for (v, w) in values.iter().zip(inverses) {
        assert_eq!(b(1), v.mul(w));
    }
    assert_eq!(0, batch_inversion::<BFieldElement>(&[]).len());
}

#[test]
fn interpolation_recovers_coefficients() {
    let omega = BFieldElement::get_primitive_root_of_unity(8).unwrap();
    let coefficients = bs(&[3, 1, 4, 1, 5, 9, 2, 6]);
    let values: Vec<BFieldElement> =
        (0..8).map(|i| evaluate(&coefficients, mod_pow_u32(omega, i))).collect();
    assert_eq!(coefficients, slow_intt(&values, omega));
    assert_eq!(bs(&[5, 0]), slow_intt(&bs(&[5, 5]), b(P - 1)));
}

#[test]
fn degrees_leave_out_leading_zeros() {
    assert_eq!(None, Polynomial { coefficients: bs(&[]) }.degree());
    assert_eq!(None, Polynomial { coefficients: bs(&[0, 0]) }.degree());
    assert_eq!(Some(0), Polynomial { coefficients: bs(&[4, 0]) }.degree());
    assert_eq!(Some(2), Polynomial { coefficients: bs(&[0, 0, 1, 0]) }.degree());
}

#[test]
fn points_on_a_line_are_colinear() {
    // y = 3 + 2x
    let point = |v: u64| (b(v), b(3 + 2 * v));
    assert!(Polynomial::are_colinear_3(point(1), point(5), point(9)));
    assert!(!Polynomial::are_colinear_3(point(1), point(5), (b(9), b(22))));
}

#[test]
fn folding_stays_on_the_line_and_folds_the_polynomial() {
    // at 7 and -7, the polynomial 1 + 2x + 3x^2 + 4x^3 is folded with challenge 11
    let c = bs(&[1, 2, 3, 4]);
    let (at, minus, alpha) = (b(7), b(P - 7), b(11));
    let (u, v) = (evaluate(&c, at), evaluate(&c, minus));
    let half = b(2).inverse().unwrap();
    let q = alpha.mul(at.inverse().unwrap());
    let folded = half.mul(b(1).add(q).mul(u).add(b(1).sub(q).mul(v)));
    assert!(Polynomial::are_colinear_3((at, u), (minus, v), (alpha, folded)));
    assert_eq!(evaluate(&bs(&[1 + 11 * 2, 3 + 11 * 4]), b(49)), folded);
    // and two plain values
    let f = half.mul(b(1).add(q).mul(b(3)).add(b(1).sub(q).mul(b(5))));
    assert_eq!(b(7905747458320536140), f);
}

#[test]
fn merkle_roots_are_exact() {
    let tree = MerkleTree::from_vec(&bs(&[1, 2, 3, 4]));
    assert_eq!(
        "8821bbc728dce7785b1b781b47647059c1d1eba63e97686f7efc3c1659d06a81",
        hex(&tree.get_root())
    );
    assert_eq!(4, tree.get_number_of_leafs());
    assert_eq!(bs(&[1, 2, 3, 4]), tree.to_vec());
    let single = MerkleTree::from_vec(&bs(&[1]));
    assert_eq!(
        "1a0d12016999e47689dae5744d2b8c1903faf7ca2886a658150083100ef2c8ee",
        hex(&single.get_root())
    );
}

#[test]
fn multi_proofs_are_accepted_for_their_own_leafs_only() {
    let tree = MerkleTree::from_vec(&bs(&[10, 11, 12, 13, 14, 15, 16, 17]));
    let root = tree.get_root();
    let indices = [6, 1, 1, 0];
    let mut paths = tree.get_multi_proof(&indices);
    let values: Vec<BFieldElement> = paths.iter().map(|p| p.get_value()).collect();
    assert_eq!(bs(&[16, 11, 11, 10]), values);
    assert!(MerkleTree::verify_multi_proof(root, &indices, &paths));
    assert!(!MerkleTree::verify_multi_proof(root, &[6, 1, 1, 2], &paths));
    // an index beyond the leafs
    assert!(!MerkleTree::verify_multi_proof(root, &[14, 1, 1, 0], &paths));
    // too few paths
    assert!(!MerkleTree::verify_multi_proof(root, &[6, 1, 1, 0, 6], &paths));
    // surplus paths are not looked at
    assert!(MerkleTree::verify_multi_proof(root, &[6, 1], &paths));
    assert!(MerkleTree::verify_multi_proof(root, &[], &paths));
    paths[0].value = b(0);
    assert!(!MerkleTree::verify_multi_proof(root, &indices, &paths));
    assert!(!MerkleTree::verify_multi_proof([0; 32], &[1], &tree.get_multi_proof(&[1])));
}

#[test]
fn leaf_counts_are_powers_of_two() {
    let counts: Vec<usize> = (0..20).filter(|n| is_leaf_count(*n)).collect();
    assert_eq!(vec![1, 2, 4, 8, 16], counts);
    assert!(is_leaf_count(1 << 31));
}

#[test]
fn elements_are_read_back() {
    let elements = bs(&[1, P - 1, 0]);
    let bytes = encode_elements(&elements);
    assert_eq!(
        vec![
            3, 0, 0, 0, 0, 0, 0, 0, 1, 0, 0, 0, 0, 0, 0, 0, 0, 0, 0, 0, 255, 255, 255, 255, 0, 0,
            0, 0, 0, 0, 0, 0
        ],
        bytes
    );
    assert_eq!(Some(elements), decode_elements(&bytes));
    let extension = vec![x(1, 2, 3), x(P - 1, 0, 9)];
    assert_eq!(Some(extension.clone()), decode_elements(&encode_elements(&extension)));
    // a wrong length, a wrong count, a value that is not reduced
    assert_eq!(None, decode_elements::<BFieldElement>(&bytes[..31]));
    let mut short = bytes.clone();
    short[0] = 2;
    assert_eq!(None, decode_elements::<BFieldElement>(&short));
    let mut unreduced = bytes.clone();
    unreduced[16] = 1;
    assert_eq!(None, decode_elements::<BFieldElement>(&unreduced));
    assert_eq!(None, decode_elements::<BFieldElement>(&[]));
}

#[test]
fn paths_are_read_back() {
    let paths = vec![
        PartialAuthenticationPath { value: b(5), siblings: vec![[1; 32], [2; 32]] },
        PartialAuthenticationPath { value: b(6), siblings: vec![] },
    ];
    let bytes = encode_paths(&paths);
    assert_eq!(8 + 8 + 8 + 64 + 8 + 8, bytes.len());
    let decoded: Vec<PartialAuthenticationPath<BFieldElement>> = decode_paths(&bytes).unwrap();
    assert_eq!(2, decoded.len());
    assert_eq!((b(5), vec![[1; 32], [2; 32]]), (decoded[0].value, decoded[0].siblings.clone()));
    assert_eq!((b(6), 0), (decoded[1].value, decoded[1].siblings.len()));
    assert!(decode_paths::<BFieldElement>(&bytes[..bytes.len() - 1]).is_none());
    let mut longer = bytes.clone();
    longer.push(0);
    assert!(decode_paths::<BFieldElement>(&longer).is_none());
    assert_eq!(0, decode_paths::<BFieldElement>(&[0; 8]).unwrap().len());
}

#[test]
fn items_are_read_back() {
    let mut stream = ProofStream::default();
    stream.enqueue(&[7, 8]);
    stream.enqueue_length_prepended(&[9]);
    stream.enqueue_length_prepended(&[]);
    assert_eq!(
        vec![7, 8, 1, 0, 0, 0, 0, 0, 0, 0, 9, 0, 0, 0, 0, 0, 0, 0, 0],
        stream.as_bytes().to_vec()
    );
    assert_eq!(Ok(vec![7, 8]), stream.dequeue(2));
    assert_eq!(Ok(vec![9]), stream.dequeue_length_prepended());
    assert_eq!(Ok(vec![]), stream.dequeue_length_prepended());
    assert_eq!(
        Err(ProofStreamError::TranscriptLengthExceeded),
        stream.dequeue_length_prepended()
    );
    assert_eq!(Err(ProofStreamError::TranscriptLengthExceeded), stream.dequeue(1));
    assert_eq!(Ok(vec![]), stream.dequeue(0));
}

#[test]
fn a_failed_read_consumes_nothing() {
    let mut stream = ProofStream::from_transcript(vec![3, 0, 0, 0, 0, 0, 0, 0, 1, 2]);
    assert_eq!(
        Err(ProofStreamError::TranscriptLengthExceeded),
        stream.dequeue_length_prepended()
    );
    assert_eq!(Err(ProofStreamError::TranscriptLengthExceeded), stream.dequeue(11));
    assert_eq!(Ok(vec![3, 0, 0, 0, 0, 0, 0, 0, 1, 2]), stream.dequeue(10));
}

#[test]
fn challenges_depend_on_what_was_written_and_read() {
    let mut stream = ProofStream::default();
    assert_eq!(blake3_digest(&[]), stream.prover_fiat_shamir());
    stream.enqueue(b"abc");
    assert_eq!(blake3_digest(b"abc"), stream.prover_fiat_shamir());
    assert_eq!(blake3_digest(&[]), stream.verifier_fiat_shamir());
    stream.dequeue(2).unwrap();
    assert_eq!(blake3_digest(b"ab"), stream.verifier_fiat_shamir());
    stream.dequeue(1).unwrap();
    assert_eq!(stream.prover_fiat_shamir(), stream.verifier_fiat_shamir());
}
