use rand::prelude::{Rng, SeedableRng, StdRng};
use twenty_first::b_field_element::BFieldElement;
use twenty_first::digest::Digest;
use twenty_first::shared::bag_peaks;
use twenty_first::tip5::Tip5;

fn random_digest(rng: &mut StdRng) -> Digest {
    let mut element = || BFieldElement::new(rng.random_range(0..=BFieldElement::QUOTIENT - 1));
    Digest([element(), element(), element(), element(), element()])
}

fn digest(values: [u64; 5]) -> Digest {
    Digest(values.map(BFieldElement::new))
}

#[test]
fn bag_peaks_snapshot() {
    let mut rng = StdRng::seed_from_u64(0x92ca758afeec6d29);

    assert_eq!(14353333629925222640, bag_peaks(&[]).0[0].value());
    assert_eq!(17149516008269095361, bag_peaks(&[random_digest(&mut rng)]).0[0].value());
    let peaks = [random_digest(&mut rng), random_digest(&mut rng)];
    assert_eq!(06487327802841213551, bag_peaks(&peaks).0[0].value());

    let peaks: Vec<Digest> = (0..10).map(|_| random_digest(&mut rng)).collect();
    assert_eq!(08165051011961773585, bag_peaks(&peaks).0[0].value());
}

#[test]
fn peaks_are_bagged_from_the_last_on() {
    let a = digest([1, 2, 3, 4, 5]);
    let b = digest([6, 7, 8, 9, 10]);
    let c = digest([11, 12, 13, 14, 15]);
    assert_eq!(Tip5::hash(&0u128), bag_peaks(&[]));
    assert_eq!(a, bag_peaks(&[a]));
    assert_eq!(Tip5::hash_pair(a, b), bag_peaks(&[a, b]));
    assert_eq!(Tip5::hash_pair(a, Tip5::hash_pair(b, c)), bag_peaks(&[a, b, c]));
    assert_ne!(bag_peaks(&[a, b]), bag_peaks(&[b, a]));
}

#[test]
fn digests_are_exact() {
    let a = digest([1, 2, 3, 4, 5]);
    let b = digest([6, 7, 8, 9, 10]);
    assert_eq!(
        digest([
            10818500669765797222,
            7750847691288459381,
            17271032843874487437,
            1108553480921430050,
            6029014391627118288,
        ]),
        Tip5::hash_pair(a, b)
    );
    // twelve elements, so that two chunks are absorbed
    let input: Vec<BFieldElement> = (0..12).map(BFieldElement::new).collect();
    assert_eq!(
        digest([
            13129338136636961149,
            16538082957630773500,
            11184167499676730866,
            14302168126148501025,
            13285294820449316740,
        ]),
        Tip5::hash_varlen(&input)
    );
    assert_eq!(
        digest([
            3478857150368469316,
            10740308775621534391,
            5593173109087783382,
            13792305747149380294,
            4523609785979264837,
        ]),
        Tip5::hash(&0x12345678_deadbeef_89abcdef_01234567u128)
    );
}
