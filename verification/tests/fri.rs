use twenty_first::b_field_element::BFieldElement;
use twenty_first::codec::{decode_elements, decode_paths, encode_elements, encode_paths};
use twenty_first::field::FieldElement;
use twenty_first::fri::{fold, lift, pick, Fri, FriError, ValidationError};
use twenty_first::group::{get_cyclic_group_elements, mod_pow_u32};
use twenty_first::merkle_tree::{MerkleTree, PartialAuthenticationPath};
use twenty_first::proof_stream::{ProofStream, ProofStreamError};
use twenty_first::x_field_element::XFieldElement;

fn get_b_field_fri_test_object() -> Fri<BFieldElement> {
    let subgroup_order: usize = 1024;
    let omega = BFieldElement::get_primitive_root_of_unity(subgroup_order as u64).unwrap();
    let offset =
        BFieldElement::get_primitive_root_of_unity(BFieldElement::QUOTIENT - 1).unwrap();
    Fri::new(offset, omega, subgroup_order, 4, 6)
}

fn get_x_field_fri_test_object(
    subgroup_order: usize,
    expansion_factor: usize,
    colinearity_checks: usize,
) -> Fri<XFieldElement> {
    let omega = XFieldElement::get_primitive_root_of_unity(subgroup_order as u64).unwrap();
    let offset = XFieldElement::new_const(BFieldElement::new(7));
    Fri::new(offset, omega, subgroup_order, expansion_factor, colinearity_checks)
}

fn small_fri(domain_length: usize, expansion_factor: usize, checks: usize) -> Fri<BFieldElement> {
    let omega = BFieldElement::get_primitive_root_of_unity(domain_length as u64).unwrap();
    Fri::new(BFieldElement::new(7), omega, domain_length, expansion_factor, checks)
}

fn evaluate<F: FieldElement>(coefficients: &[F], x: F) -> F {
    let mut value = F::ring_zero();
    for c in coefficients.iter().rev() {
        value = value.mul(x).add(*c);
    }
    value
}

fn codeword(fri: &Fri<BFieldElement>, coefficients: &[BFieldElement]) -> Vec<BFieldElement> {
    fri.get_evaluation_domain().iter().map(|x| evaluate(coefficients, *x)).collect()
}

fn elements(values: &[u64]) -> Vec<BFieldElement> {
    values.iter().map(|v| BFieldElement::new(*v)).collect()
}

fn validation<T>(r: Result<T, FriError>) -> Option<ValidationError> {
    match r {
        Err(FriError::Validation(e)) => Some(e),
        _ => None,
    }
}

fn stream_error<T>(r: Result<T, FriError>) -> Option<ProofStreamError> {
    match r {
        Err(FriError::Stream(e)) => Some(e),
        _ => None,
    }
}

/// The parts of a transcript: the roots, the last codeword, the openings.
struct Parts {
    roots: Vec<Vec<u8>>,
    last: Vec<u8>,
    openings: Vec<Vec<u8>>,
}

fn taken_apart(transcript: &[u8], rounds: usize) -> Parts {
    let mut stream = ProofStream::from_transcript(transcript.to_vec());
    let roots = (0..rounds + 1).map(|_| stream.dequeue(32).unwrap()).collect();
    let last = stream.dequeue_length_prepended().unwrap();
    let openings =
        (0..2 * rounds).map(|_| stream.dequeue_length_prepended().unwrap()).collect();
    Parts { roots, last, openings }
}

fn put_together(parts: &Parts) -> ProofStream {
    let mut stream = ProofStream::default();
    for root in &parts.roots {
        stream.enqueue(root);
    }
    stream.enqueue_length_prepended(&parts.last);
    for opening in &parts.openings {
        stream.enqueue_length_prepended(opening);
    }
    ProofStream::from_transcript(stream.as_bytes().to_vec())
}

#[test]
fn get_rounds_count_test() {
    let subgroup_order = 512;
    let expansion_factor = 4;
    let mut fri: Fri<XFieldElement> =
        get_x_field_fri_test_object(subgroup_order, expansion_factor, 2);
    assert_eq!((7, 0), fri.num_rounds());
    fri.colinearity_checks_count = 8;
    assert_eq!((6, 1), fri.num_rounds());
    fri.colinearity_checks_count = 10;
    assert_eq!((5, 3), fri.num_rounds());
    fri.colinearity_checks_count = 16;
    assert_eq!((5, 3), fri.num_rounds());
    fri.colinearity_checks_count = 17;
    assert_eq!((4, 7), fri.num_rounds());
    fri.colinearity_checks_count = 18;
    assert_eq!((4, 7), fri.num_rounds());
    fri.colinearity_checks_count = 31;
    assert_eq!((4, 7), fri.num_rounds());
    fri.colinearity_checks_count = 32;
    assert_eq!((4, 7), fri.num_rounds());
    fri.colinearity_checks_count = 33;
    assert_eq!((3, 15), fri.num_rounds());

    fri.domain_length = 256;
    assert_eq!((2, 15), fri.num_rounds());
    fri.colinearity_checks_count = 32;
    assert_eq!((3, 7), fri.num_rounds());

    fri.colinearity_checks_count = 32;
    fri.domain_length = 1048576;
    fri.expansion_factor = 8;
    assert_eq!((15, 3), fri.num_rounds());

    fri.colinearity_checks_count = 33;
    fri.domain_length = 1048576;
    fri.expansion_factor = 8;
    assert_eq!((14, 7), fri.num_rounds());

    fri.colinearity_checks_count = 63;
    fri.domain_length = 1048576;
    fri.expansion_factor = 8;
    assert_eq!((14, 7), fri.num_rounds());

    fri.colinearity_checks_count = 64;
    fri.domain_length = 1048576;
    fri.expansion_factor = 8;
    assert_eq!((14, 7), fri.num_rounds());

    fri.colinearity_checks_count = 65;
    fri.domain_length = 1048576;
    fri.expansion_factor = 8;
    assert_eq!((13, 15), fri.num_rounds());

    fri.domain_length = 256;
    fri.expansion_factor = 4;
    fri.colinearity_checks_count = 17;
    assert_eq!((3, 7), fri.num_rounds());
}

#[test]
fn fri_on_b_field_test() {
    let fri: Fri<BFieldElement> = get_b_field_fri_test_object();
    let mut proof_stream: ProofStream = ProofStream::default();
    let subgroup = get_cyclic_group_elements(fri.omega);

    fri.prove(&subgroup, &mut proof_stream).unwrap();
    let verify_result = fri.verify(&mut proof_stream);
    assert!(verify_result.is_ok(), "FRI verification must succeed");

    println!("{:?}", fri);
}

#[test]
fn fri_on_x_field_test() {
    let subgroup_order = 1024;
    let expansion_factor = 4;
    let colinearity_check_count = 6;
    let fri: Fri<XFieldElement> =
        get_x_field_fri_test_object(subgroup_order, expansion_factor, colinearity_check_count);
    let mut proof_stream: ProofStream = ProofStream::default();
    let subgroup = get_cyclic_group_elements(fri.omega);

    fri.prove(&subgroup, &mut proof_stream).unwrap();
    let verify_result = fri.verify(&mut proof_stream);
    assert!(verify_result.is_ok());
}

#[test]
fn fri_x_field_limit_test() {
    let subgroup_order = 1024;
    let expansion_factor = 4;
    let colinearity_check_count = 6;
    let fri: Fri<XFieldElement> =
        get_x_field_fri_test_object(subgroup_order, expansion_factor, colinearity_check_count);
    let subgroup = get_cyclic_group_elements(fri.omega);

    let mut points: Vec<XFieldElement>;
    for n in &[1, 10, 50, 100, 255] {
        points = subgroup.iter().map(|p| mod_pow_u32(*p, *n)).collect();

        let mut proof_stream: ProofStream = ProofStream::default();
        fri.prove(&points, &mut proof_stream).unwrap();

        let verify_result = fri.verify(&mut proof_stream);
        if verify_result.is_err() {
            println!(
                "There are {} points, |<1024>^{}|, and verify_result = {:?}",
                points.len(),
                n,
                verify_result
            );
        }

        assert!(verify_result.is_ok());
    }

    // Negative test
    let too_high = subgroup_order as u32 / expansion_factor as u32;
    points = subgroup.iter().map(|p| mod_pow_u32(*p, too_high)).collect();
    let mut proof_stream: ProofStream = ProofStream::default();
    fri.prove(&points, &mut proof_stream).unwrap();
    let verify_result = fri.verify(&mut proof_stream);
    assert!(verify_result.is_err());
}

#[test]
fn parameters_are_kept() {
    let fri: Fri<BFieldElement> =
        Fri::new(BFieldElement::new(7), BFieldElement::new(11), 64, 8, 3);
    assert_eq!(7, fri.offset.value());
    assert_eq!(11, fri.omega.value());
    assert_eq!((64, 8, 3), (fri.domain_length, fri.expansion_factor, fri.colinearity_checks_count));
}

#[test]
fn sampled_indices_are_exact() {
    let seed: Vec<u8> = (1..=8).collect();
    assert_eq!(vec![13, 2, 0], small_fri(32, 4, 3).sample_indices(&seed));
    assert_eq!(
        vec![221, 83, 352, 215, 30, 250],
        get_b_field_fri_test_object().sample_indices(&seed)
    );
}

#[test]
fn digests_select_indices() {
    // the digest is the number 5
    let mut remaining = vec![10, 11, 12, 13];
    assert_eq!(11, pick(&mut remaining, &[0, 5]));
    assert_eq!(vec![10, 12, 13], remaining);
    assert_eq!(13, pick(&mut remaining, &[0, 5]));
    assert_eq!(vec![10, 12], remaining);
    assert_eq!(3, lift(3, 8, &[5]));
    assert_eq!(11, lift(3, 8, &[4]));
}

#[test]
fn folded_codewords_are_exact() {
    // with challenge zero, the mean of each value and its counterpart is left
    let omega = BFieldElement::get_primitive_root_of_unity(4).unwrap();
    let word = elements(&[2, 10, 4, 30]);
    let zero = BFieldElement::new(0);
    assert_eq!(elements(&[3, 20]), fold(&word, BFieldElement::new(7), omega, zero));
    // with a point of the domain as challenge, the value there is left
    let seven = BFieldElement::new(7);
    assert_eq!(2, fold(&word, seven, omega, seven)[0].value());
    assert_eq!(30, fold(&word, seven, omega, zero.sub(seven.mul(omega)))[1].value());
    // one value of each pair, at point 7 with challenge 11
    let pair = fold(&elements(&[3, 0, 5, 0]), seven, omega, BFieldElement::new(11));
    assert_eq!(7905747458320536140, pair[0].value());
}

#[test]
fn rounds_are_checked_for_a_given_challenge() {
    let fri = small_fri(8, 4, 2);
    let word = elements(&[3, 1, 4, 1, 5, 9, 2, 6]);
    let alpha = BFieldElement::new(1234567);
    let domain = (fri.offset, fri.omega);
    let next = fold(&word, fri.offset, fri.omega, alpha);
    let (word_tree, next_tree) = (MerkleTree::from_vec(&word), MerkleTree::from_vec(&next));
    let roots = (word_tree.get_root(), next_tree.get_root());
    let top = [6, 1];
    let ab = word_tree.get_multi_proof(&[2, 1, 6, 5]);
    let c = next_tree.get_multi_proof(&[2, 1]);
    assert_eq!(None, fri.check_round(0, domain, alpha, roots, &top, &ab, &c));
    let other = BFieldElement::new(1234568);
    assert_eq!(
        Some(ValidationError::NotColinear(0)),
        fri.check_round(0, domain, other, roots, &top, &ab, &c)
    );
    assert_eq!(
        Some(ValidationError::BadMerkleProof),
        fri.check_round(0, domain, alpha, (roots.1, roots.0), &top, &ab, &c)
    );
    assert_eq!(
        Some(ValidationError::BadMerkleProof),
        fri.check_round(0, domain, alpha, roots, &[6, 2], &ab, &c)
    );
    let surplus = next_tree.get_multi_proof(&[2, 1, 0]);
    assert_eq!(
        Some(ValidationError::BadSizedProof),
        fri.check_round(0, domain, alpha, roots, &top, &ab, &surplus)
    );
}

#[test]
fn samples_differ_in_the_last_codeword() {
    let fri = get_b_field_fri_test_object();
    for s in 0u8..50 {
        let indices = fri.sample_indices(&[s, 17, s]);
        assert_eq!(6, indices.len());
        let mut places: Vec<usize> = indices.iter().map(|i| i % 8).collect();
        places.sort();
        places.dedup();
        assert_eq!(6, places.len());
        assert!(indices.iter().all(|i| *i < 512));
    }
}

#[test]
fn sampling_without_rounds_draws_from_the_domain() {
    let fri = small_fri(4, 4, 4);
    assert_eq!((0, 0), fri.num_rounds());
    let mut indices = fri.sample_indices(&[5]);
    indices.sort();
    assert_eq!(vec![0, 1, 2, 3], indices);
}

#[test]
fn last_codeword_has_enough_places() {
    for (domain, expansion, checks) in [(512, 4, 33), (1024, 4, 6), (256, 8, 8), (64, 2, 7)] {
        let fri = small_fri(domain, expansion, checks);
        let (rounds, degree) = fri.num_rounds();
        let places = domain >> rounds;
        assert!(checks <= places);
        assert_eq!(expansion * (degree as usize + 1), places);
    }
}

#[test]
fn evaluation_domain_is_the_shifted_group() {
    let fri = small_fri(4, 2, 1);
    let points = fri.get_evaluation_domain();
    let i = BFieldElement::new(281474976710656);
    let o = BFieldElement::new(7);
    assert_eq!(vec![o, i.mul(o), i.mul(i).mul(o), i.mul(i).mul(i).mul(o)], points);
    assert_eq!(BFieldElement::QUOTIENT - 7, points[2].value());
    let mut all: Vec<u64> =
        get_b_field_fri_test_object().get_evaluation_domain().iter().map(|x| x.value()).collect();
    assert_eq!(1024, all.len());
    all.sort();
    all.dedup();
    assert_eq!(1024, all.len());
}

#[test]
fn accepted_proofs_reveal_values_of_the_codeword() {
    let fri = get_b_field_fri_test_object();
    let coefficients: Vec<BFieldElement> =
        (0..256u64).map(|k| BFieldElement::new(k * k * 12345 + 678)).collect();
    let word = codeword(&fri, &coefficients);
    let mut stream = ProofStream::default();
    let indices = fri.prove(&word, &mut stream).unwrap();
    let values = fri.verify(&mut stream).unwrap();
    assert_eq!(12, values.len());
    for (s, index) in indices.iter().enumerate() {
        assert_eq!((*index, word[*index]), values[2 * s]);
        assert_eq!((*index + 512, word[*index + 512]), values[2 * s + 1]);
    }
    // the proof has been read to its end
    assert_eq!(Err(ProofStreamError::TranscriptLengthExceeded), stream.dequeue(1));
}

#[test]
fn one_coefficient_too_many_is_rejected() {
    let fri = get_b_field_fri_test_object();
    let mut coefficients = elements(&[0; 257]);
    coefficients[256] = BFieldElement::new(99);
    let mut stream = ProofStream::default();
    fri.prove(&codeword(&fri, &coefficients), &mut stream).unwrap();
    assert_eq!(
        Some(ValidationError::LastIterationTooHighDegree),
        validation(fri.verify(&mut stream))
    );
}

#[test]
fn proofs_follow_each_other_on_one_stream() {
    let fri = small_fri(64, 4, 5);
    let first = codeword(&fri, &elements(&[1, 2, 3]));
    let second = codeword(&fri, &elements(&[9, 8, 7, 6, 5]));
    let mut stream = ProofStream::default();
    stream.enqueue(&[1, 2, 3]);
    let first_indices = fri.prove(&first, &mut stream).unwrap();
    let after_first = stream.as_bytes().to_vec();
    let second_indices = fri.prove(&second, &mut stream).unwrap();
    assert_eq!(after_first, stream.as_bytes()[..after_first.len()].to_vec());
    assert_eq!(vec![1, 2, 3], stream.dequeue(3).unwrap());
    let first_values = fri.verify(&mut stream).unwrap();
    let second_values = fri.verify(&mut stream).unwrap();
    assert_eq!((first_indices[0], first[first_indices[0]]), first_values[0]);
    assert_eq!((second_indices[0], second[second_indices[0]]), second_values[0]);
    assert_eq!(Err(ProofStreamError::TranscriptLengthExceeded), stream.dequeue(1));
}

#[test]
fn a_generator_of_larger_order_is_taken_as_it_is() {
    let omega = BFieldElement::get_primitive_root_of_unity(16).unwrap();
    let fri: Fri<BFieldElement> = Fri::new(BFieldElement::new(7), omega, 8, 4, 2);
    let mut stream = ProofStream::default();
    let indices = fri.prove(&elements(&[0; 8]), &mut stream).unwrap();
    assert_eq!(2, indices.len());
    assert_eq!(16, fri.get_evaluation_domain().len());
    // an accepted proof still reveals entries at the indices of the prover
    let zero = BFieldElement::new(0);
    let expected: Vec<(usize, BFieldElement)> =
        indices.iter().flat_map(|i| [(*i, zero), (*i + 4, zero)]).collect();
    assert_eq!(expected, fri.verify(&mut stream).unwrap());
}

#[test]
fn errors_come_before_sampling() {
    // three places are left for four checks, so that sampling is not defined
    let omega = BFieldElement::get_primitive_root_of_unity(12).unwrap();
    let fri: Fri<BFieldElement> = Fri::new(BFieldElement::new(7), omega, 12, 4, 4);
    assert_eq!((2, 0), fri.num_rounds());
    let mut stream = ProofStream::from_transcript(vec![0; 40]);
    assert_eq!(
        Some(ProofStreamError::TranscriptLengthExceeded),
        stream_error(fri.verify(&mut stream))
    );
    // a last codeword that does not match, and one of too high degree
    let word = elements(&[1, 2, 3, 4]);
    let root = MerkleTree::from_vec(&word).get_root();
    for (last, error) in [
        ([0; 32], ValidationError::BadMerkleRootForLastCodeword),
        (root, ValidationError::LastIterationTooHighDegree),
    ] {
        let mut stream = ProofStream::default();
        stream.enqueue(&root);
        stream.enqueue(&root);
        stream.enqueue(&last);
        stream.enqueue_length_prepended(&encode_elements(&word));
        assert_eq!(Some(error), validation(fri.verify(&mut stream)));
    }
}

#[test]
fn checked_verification_tests_the_parameters() {
    let omega = BFieldElement::get_primitive_root_of_unity(12).unwrap();
    let fri: Fri<BFieldElement> = Fri::new(BFieldElement::new(7), omega, 12, 4, 4);
    let mut stream = ProofStream::from_transcript(vec![5; 40]);
    assert!(fri.checked_verify(&mut stream).is_none());
    assert_eq!(vec![5; 40], stream.dequeue(40).unwrap());
    let zero: Fri<BFieldElement> =
        Fri::new(BFieldElement::new(7), BFieldElement::new(0), 16, 4, 2);
    assert!(zero.checked_verify(&mut stream).is_none());

    let fri = small_fri(64, 4, 3);
    let mut stream = ProofStream::default();
    fri.prove(&codeword(&fri, &elements(&[1, 2, 3])), &mut stream).unwrap();
    let bytes = stream.as_bytes().to_vec();
    let values = fri.verify(&mut stream).unwrap();
    let mut again = ProofStream::from_transcript(bytes.clone());
    assert_eq!(Some(Ok(values)), fri.checked_verify(&mut again));
    let mut short = ProofStream::from_transcript(bytes[..50].to_vec());
    assert_eq!(
        Some(Err(FriError::Stream(ProofStreamError::TranscriptLengthExceeded))),
        fri.checked_verify(&mut short)
    );
}

#[test]
fn without_rounds_nothing_is_opened() {
    let fri = small_fri(4, 4, 2);
    let mut stream = ProofStream::default();
    fri.prove(&elements(&[5, 5, 5, 5]), &mut stream).unwrap();
    assert_eq!(Vec::<(usize, BFieldElement)>::new(), fri.verify(&mut stream).unwrap());
    let mut other = ProofStream::default();
    fri.prove(&elements(&[5, 5, 5, 6]), &mut other).unwrap();
    assert_eq!(
        Some(ValidationError::LastIterationTooHighDegree),
        validation(fri.verify(&mut other))
    );
}

#[test]
fn the_transcript_of_a_proof_is_exact() {
    // one round on four places: two roots, the last codeword, one query
    let fri = small_fri(4, 2, 1);
    assert_eq!((1, 0), fri.num_rounds());
    let word = elements(&[3, 5, 8, 13]);
    let mut stream = ProofStream::default();
    let indices = fri.prove(&word, &mut stream).unwrap();
    let parts = taken_apart(stream.as_bytes(), 1);
    assert_eq!(MerkleTree::from_vec(&word).get_root().to_vec(), parts.roots[0]);
    let mut seen = ProofStream::default();
    seen.enqueue(&parts.roots[0]);
    let alpha = BFieldElement::sample(&seen.prover_fiat_shamir());
    let half = BFieldElement::new(2).inverse().unwrap();
    let one = BFieldElement::new(1);
    let points = fri.get_evaluation_domain();
    let folded: Vec<BFieldElement> = (0..2)
        .map(|i| {
            let q = alpha.mul(points[i].inverse().unwrap());
            half.mul(one.add(q).mul(word[i]).add(one.sub(q).mul(word[i + 2])))
        })
        .collect();
    assert_eq!(Some(folded.clone()), decode_elements(&parts.last));
    let folded_tree = MerkleTree::from_vec(&folded);
    assert_eq!(folded_tree.get_root().to_vec(), parts.roots[1]);
    let word_tree = MerkleTree::from_vec(&word);
    assert_eq!(1, indices.len());
    let c = indices[0] % 2;
    assert_eq!(encode_paths(&word_tree.get_multi_proof(&[c, c + 2])), parts.openings[0]);
    assert_eq!(encode_paths(&folded_tree.get_multi_proof(&[c])), parts.openings[1]);
    assert_eq!(stream.as_bytes(), put_together(&parts).as_bytes());
}

#[test]
fn altered_paths_are_rejected() {
    let fri = small_fri(64, 4, 3);
    let mut stream = ProofStream::default();
    fri.prove(&codeword(&fri, &elements(&[1, 2, 3])), &mut stream).unwrap();
    let mut bytes = stream.as_bytes().to_vec();
    let last = bytes.len() - 1;
    bytes[last] ^= 1;
    let mut altered = ProofStream::from_transcript(bytes);
    assert_eq!(Some(ValidationError::BadMerkleProof), validation(fri.verify(&mut altered)));
}

#[test]
fn missing_paths_are_rejected() {
    let fri = small_fri(64, 4, 3);
    let rounds = fri.num_rounds().0 as usize;
    let mut stream = ProofStream::default();
    fri.prove(&codeword(&fri, &elements(&[1, 2, 3])), &mut stream).unwrap();
    let mut parts = taken_apart(stream.as_bytes(), rounds);
    let mut paths: Vec<PartialAuthenticationPath<BFieldElement>> =
        decode_paths(&parts.openings[2]).unwrap();
    paths.pop();
    parts.openings[2] = encode_paths(&paths);
    assert_eq!(
        Some(ValidationError::BadMerkleProof),
        validation(fri.verify(&mut put_together(&parts)))
    );
}

#[test]
fn surplus_paths_are_rejected() {
    let fri = small_fri(64, 4, 3);
    let rounds = fri.num_rounds().0 as usize;
    let mut stream = ProofStream::default();
    fri.prove(&codeword(&fri, &elements(&[1, 2, 3])), &mut stream).unwrap();
    for opening in 0..2 {
        let mut parts = taken_apart(stream.as_bytes(), rounds);
        let mut paths: Vec<PartialAuthenticationPath<BFieldElement>> =
            decode_paths(&parts.openings[opening]).unwrap();
        paths.push(PartialAuthenticationPath { value: BFieldElement::new(1), siblings: vec![] });
        parts.openings[opening] = encode_paths(&paths);
        assert_eq!(
            Some(ValidationError::BadSizedProof),
            validation(fri.verify(&mut put_together(&parts)))
        );
    }
}

#[test]
fn a_codeword_that_was_not_folded_is_rejected() {
    // the first codeword is one everywhere, the second is claimed to be zero
    let fri = small_fri(8, 4, 2);
    assert_eq!((1, 0), fri.num_rounds());
    let first = MerkleTree::from_vec(&elements(&[1; 8]));
    let second = MerkleTree::from_vec(&elements(&[0; 4]));
    let mut stream = ProofStream::default();
    stream.enqueue(&first.get_root());
    stream.enqueue(&second.get_root());
    stream.enqueue_length_prepended(&encode_elements(&elements(&[0; 4])));
    let c = fri.sample_indices(&stream.prover_fiat_shamir());
    let ab = vec![c[0], c[1], c[0] + 4, c[1] + 4];
    stream.enqueue_length_prepended(&encode_paths(&first.get_multi_proof(&ab)));
    stream.enqueue_length_prepended(&encode_paths(&second.get_multi_proof(&c)));
    assert_eq!(Some(ValidationError::NotColinear(0)), validation(fri.verify(&mut stream)));
}

#[test]
fn the_round_of_a_fault_is_reported() {
    // the first folding is honest, the second is not
    let fri = small_fri(16, 4, 2);
    assert_eq!((2, 0), fri.num_rounds());
    let words = [elements(&[1; 16]), elements(&[1; 8]), elements(&[3; 4])];
    let trees: Vec<MerkleTree<BFieldElement>> =
        words.iter().map(|w| MerkleTree::from_vec(w)).collect();
    let mut stream = ProofStream::default();
    for tree in &trees {
        stream.enqueue(&tree.get_root());
    }
    stream.enqueue_length_prepended(&encode_elements(&words[2]));
    let top = fri.sample_indices(&stream.prover_fiat_shamir());
    for r in 0..2 {
        let half = 16 >> (r + 1);
        let c: Vec<usize> = top.iter().map(|i| i % half).collect();
        let mut ab = c.clone();
        ab.extend(c.iter().map(|i| i + half));
        stream.enqueue_length_prepended(&encode_paths(&trees[r].get_multi_proof(&ab)));
        stream.enqueue_length_prepended(&encode_paths(&trees[r + 1].get_multi_proof(&c)));
    }
    assert_eq!(Some(ValidationError::NotColinear(1)), validation(fri.verify(&mut stream)));
}

#[test]
fn an_altered_last_codeword_is_rejected() {
    let fri = small_fri(64, 4, 3);
    let rounds = fri.num_rounds().0 as usize;
    let mut stream = ProofStream::default();
    fri.prove(&codeword(&fri, &elements(&[1, 2, 3])), &mut stream).unwrap();
    let mut parts = taken_apart(stream.as_bytes(), rounds);
    let mut word: Vec<BFieldElement> = decode_elements(&parts.last).unwrap();
    word[1] = word[1].add(BFieldElement::new(1));
    parts.last = encode_elements(&word);
    assert_eq!(
        Some(ValidationError::BadMerkleRootForLastCodeword),
        validation(fri.verify(&mut put_together(&parts)))
    );
    // no tree has three leafs, nor none
    for n in [3, 0] {
        word.truncate(n);
        parts.last = encode_elements(&word);
        assert_eq!(
            Some(ValidationError::BadMerkleRootForLastCodeword),
            validation(fri.verify(&mut put_together(&parts)))
        );
    }
}

#[test]
fn truncated_proofs_end_in_a_stream_error() {
    let fri = small_fri(16, 4, 2);
    let mut stream = ProofStream::default();
    fri.prove(&codeword(&fri, &elements(&[1, 2])), &mut stream).unwrap();
    let bytes = stream.as_bytes().to_vec();
    for n in 0..bytes.len() {
        let mut short = ProofStream::from_transcript(bytes[..n].to_vec());
        assert_eq!(
            Some(ProofStreamError::TranscriptLengthExceeded),
            stream_error(fri.verify(&mut short))
        );
    }
    let mut whole = ProofStream::from_transcript(bytes);
    assert!(fri.verify(&mut whole).is_ok());
}

#[test]
fn malformed_items_end_in_a_stream_error() {
    let fri = small_fri(16, 4, 2);
    let mut stream = ProofStream::default();
    fri.prove(&codeword(&fri, &elements(&[1, 2])), &mut stream).unwrap();
    let mut parts = taken_apart(stream.as_bytes(), 2);
    let last = parts.last.clone();
    parts.last = vec![1, 2, 3];
    assert_eq!(
        Some(ProofStreamError::MalformedItem),
        stream_error(fri.verify(&mut put_together(&parts)))
    );
    parts.last = last;
    for i in 0..4 {
        let opening = parts.openings[i].clone();
        parts.openings[i].push(0);
        assert_eq!(
            Some(ProofStreamError::MalformedItem),
            stream_error(fri.verify(&mut put_together(&parts)))
        );
        parts.openings[i] = opening;
    }
    assert!(fri.verify(&mut put_together(&parts)).is_ok());
}

#[test]
fn error_messages_name_the_error() {
    let prefix = "Deserialization error for LowDegreeProof: ";
    for e in [
        ValidationError::BadMerkleProof,
        ValidationError::BadSizedProof,
        ValidationError::NonPostiveRoundCount,
        ValidationError::NotColinear(0),
        ValidationError::NotColinear(7),
        ValidationError::NotColinear(1203),
        ValidationError::LastIterationTooHighDegree,
        ValidationError::BadMerkleRootForLastCodeword,
    ] {
        assert_eq!(format!("{}{:?}", prefix, e), e.message());
    }
}
