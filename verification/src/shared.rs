//! Root commitments to lists of Merkle trees.

use vstd::prelude::*;

use crate::b_field_element::BFieldElement;
use crate::digest::Digest;
use crate::field::FieldElement;
use crate::tip5::{limbs, pair_digest, varlen_digest, Tip5};

verus! {

/// The commitment to a list of peaks. The last peak stands for itself, and every
/// peak is hashed together with the commitment to those behind it. The commitment
/// to no peaks is the digest of zero.
pub open spec fn bagged(peaks: Seq<Digest>) -> Seq<BFieldElement>
    decreases peaks.len(),
{
    if peaks.len() == 0 {
        varlen_digest(limbs(0))
    } else if peaks.len() == 1 {
        peaks[0]@
    } else {
        pair_digest(peaks[0]@, bagged(peaks.skip(1)))
    }
}

/// One more peak in front of others is hashed together with their commitment.
pub proof fn law_peak_in_front(peak: Digest, peaks: Seq<Digest>)
    requires
        peaks.len() > 0,
    ensures
        bagged(seq![peak] + peaks) == pair_digest(peak@, bagged(peaks)),
{
    assert((seq![peak] + peaks).skip(1) =~= peaks);
}

/// The commitment to a single peak is the peak, and the commitment to no peaks is the
/// digest of four zeros.
pub proof fn law_few_peaks(peak: Digest)
    ensures
        bagged(seq![peak]) == peak@,
        bagged(Seq::empty()) == varlen_digest(
            seq![
                BFieldElement::zero(),
                BFieldElement::zero(),
                BFieldElement::zero(),
                BFieldElement::zero(),
            ],
        ),
{
    BFieldElement::lemma_operations(BFieldElement::zero(), BFieldElement::zero());
    assert(limbs(0) =~= seq![
        BFieldElement::zero(),
        BFieldElement::zero(),
        BFieldElement::zero(),
        BFieldElement::zero(),
    ]);
}

/// Get a root commitment to the entire MMR/list of Merkle trees.
///
/// The peaks are bagged from the last one on. The number of nodes does not enter
/// the commitment.
pub fn bag_peaks(peaks: &[Digest]) -> (root: Digest)
    ensures
        root@ == bagged(peaks@),
{
    let n: usize = peaks.len();
    if n == 0 {
        return Tip5::hash(&0u128);
    }
    let mut acc: Digest = peaks[n - 1];
    let mut i: usize = n - 1;
    assert(peaks@.skip(n - 1)[0] == acc);
    while i > 0
        invariant
            i < n,
            n == peaks@.len(),
            acc@ == bagged(peaks@.skip(i as int)),
        decreases i,
    {
        i = i - 1;
        proof {
            assert(peaks@.skip(i as int).skip(1) =~= peaks@.skip(i + 1));
        }
        acc = Tip5::hash_pair(peaks[i], acc);
    }
    assert(peaks@.skip(0) =~= peaks@);
    acc
}

} // verus!
