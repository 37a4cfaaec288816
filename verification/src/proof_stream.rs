//! The transcript of a non-interactive proof: what the prover wrote, and how
//! much of it the verifier has read.

use vstd::prelude::*;

use crate::bytes::{le_bytes, le_value, push_u64, read_u64};
use crate::utils::{append_bytes, blake3_digest, blake3_hash, digest_of};

verus! {

/// Why an item could not be read.
#[derive(Debug, Clone, Copy, PartialEq, Eq)]
pub enum ProofStreamError {
    /// The transcript ends before the item does.
    TranscriptLengthExceeded,
    /// The bytes of the item encode no value.
    MalformedItem,
}

/// A transcript and the position up to which it has been read.
pub struct ProofStream {
    transcript: Vec<u8>,
    read_index: usize,
}

/// An item behind its length.
pub open spec fn length_prepended(item: Seq<u8>) -> Seq<u8> {
    le_bytes(item.len(), 8) + item
}

/// The bytes of the length-prepended item at `position`, where there is one.
pub open spec fn item_at(transcript: Seq<u8>, position: int) -> Option<Seq<u8>> {
    if position < 0 || position + 8 > transcript.len() {
        None
    } else {
        let n = le_value(transcript.subrange(position, position + 8));
        if position + 8 + n > transcript.len() {
            None
        } else {
            Some(transcript.subrange(position + 8, position + 8 + n))
        }
    }
}

impl ProofStream {
    /// What has been written.
    pub closed spec fn transcript(&self) -> Seq<u8> {
        self.transcript@
    }

    /// How much of it has been read.
    pub closed spec fn position(&self) -> int {
        self.read_index as int
    }

    /// No more has been read than was written.
    pub open spec fn well_formed(&self) -> bool {
        0 <= self.position() <= self.transcript().len()
    }

    /// The stream of a transcript that nobody has read from.
    pub fn from_transcript(transcript: Vec<u8>) -> (stream: ProofStream)
        ensures
            stream.well_formed(),
            stream.transcript() == transcript@,
            stream.position() == 0,
    {
        ProofStream { transcript, read_index: 0 }
    }

    /// The bytes written so far.
    pub fn as_bytes(&self) -> (bytes: &[u8])
        ensures
            bytes@ == self.transcript(),
    {
        self.transcript.as_slice()
    }

    /// Writes an item.
    pub fn enqueue(&mut self, item: &[u8])
        ensures
            final(self).transcript() == old(self).transcript() + item@,
            final(self).position() == old(self).position(),
    {
        append_bytes(&mut self.transcript, item);
    }

    /// Writes an item behind its length.
    pub fn enqueue_length_prepended(&mut self, item: &[u8])
        ensures
            final(self).transcript() == old(self).transcript() + length_prepended(item@),
            final(self).transcript() == old(self).transcript() + le_bytes(item@.len(), 8) + item@,
            final(self).position() == old(self).position(),
    {
        let n: usize = item.len();
        push_u64(&mut self.transcript, n as u64);
        append_bytes(&mut self.transcript, item);
        assert(self.transcript() =~= old(self).transcript() + length_prepended(item@));
        assert(self.transcript() =~= old(self).transcript() + le_bytes(item@.len(), 8) + item@);
    }

    /// Reads the next `byte_length` bytes. A failed read consumes nothing.
    pub fn dequeue(&mut self, byte_length: usize) -> (item: Result<Vec<u8>, ProofStreamError>)
        requires
            old(self).well_formed(),
        ensures
            final(self).well_formed(),
            final(self).transcript() == old(self).transcript(),
            ({
                let start = old(self).position();
                if start + byte_length <= old(self).transcript().len() {
                    &&& item matches Ok(bytes)
                    &&& bytes@ == old(self).transcript().subrange(start, start + byte_length)
                    &&& final(self).position() == start + byte_length
                } else {
                    &&& item == Err::<Vec<u8>, _>(ProofStreamError::TranscriptLengthExceeded)
                    &&& final(self).position() == start
                }
            }),
    {
        let start: usize = self.read_index;
        let len: usize = self.transcript.len();
        if len - start < byte_length {
            return Err(ProofStreamError::TranscriptLengthExceeded);
        }
        let mut bytes: Vec<u8> = Vec::new();
        let mut i: usize = 0;
        while i < byte_length
            invariant
                i <= byte_length,
                len == self.transcript@.len(),
                start + byte_length <= len,
                bytes@ == self.transcript@.subrange(start as int, start + i),
            decreases byte_length - i,
        {
            bytes.push(self.transcript[start + i]);
            i = i + 1;
            proof {
                assert(bytes@ =~= self.transcript@.subrange(start as int, start + i));
            }
        }
        self.read_index = start + byte_length;
        Ok(bytes)
    }

    /// Reads the next length-prepended item. A failed read consumes nothing.
    pub fn dequeue_length_prepended(&mut self) -> (item: Result<Vec<u8>, ProofStreamError>)
        requires
            old(self).well_formed(),
        ensures
            final(self).well_formed(),
            final(self).transcript() == old(self).transcript(),
            match item_at(old(self).transcript(), old(self).position()) {
                Some(bytes) => {
                    &&& item matches Ok(read)
                    &&& read@ == bytes
                    &&& final(self).position() == old(self).position() + 8 + bytes.len()
                },
                None => {
                    &&& item == Err::<Vec<u8>, _>(ProofStreamError::TranscriptLengthExceeded)
                    &&& final(self).position() == old(self).position()
                },
            },
    {
        let start: usize = self.read_index;
        let len: usize = self.transcript.len();
        if len - start < 8 {
            return Err(ProofStreamError::TranscriptLengthExceeded);
        }
        let n: u64 = read_u64(self.transcript.as_slice(), start);
        if ((len - start - 8) as u64) < n {
            return Err(ProofStreamError::TranscriptLengthExceeded);
        }
        self.read_index = start + 8;
        self.dequeue(n as usize)
    }

    /// The digest of all that was written.
    pub fn prover_fiat_shamir(&self) -> (digest: [u8; 32])
        ensures
            digest@ == digest_of(self.transcript()),
            digest@ == blake3_hash(self.transcript()),
    {
        blake3_digest(self.transcript.as_slice())
    }

    /// The digest of all that was read.
    pub fn verifier_fiat_shamir(&self) -> (digest: [u8; 32])
        requires
            self.well_formed(),
        ensures
            digest@ == digest_of(self.transcript().take(self.position())),
            digest@ == blake3_hash(self.transcript().take(self.position())),
    {
        let mut read: Vec<u8> = Vec::new();
        let n: usize = self.read_index;
        let mut i: usize = 0;
        while i < n
            invariant
                i <= n,
                n <= self.transcript@.len(),
                read@ == self.transcript@.take(i as int),
            decreases n - i,
        {
            read.push(self.transcript[i]);
            i = i + 1;
            proof {
                assert(read@ =~= self.transcript@.take(i as int));
            }
        }
        blake3_digest(read.as_slice())
    }
}

impl Default for ProofStream {
    /// The stream that nothing has been written to.
    fn default() -> (stream: ProofStream)
        ensures
            stream.well_formed(),
            stream.transcript() == Seq::<u8>::empty(),
            stream.position() == 0,
    {
        ProofStream::from_transcript(Vec::new())
    }
}

/// What was written is read back.
pub proof fn law_bytes_are_read_back(before: Seq<u8>, item: Seq<u8>, after: Seq<u8>)
    ensures
        (before + item + after).subrange(before.len() as int, (before.len() + item.len()) as int)
            == item,
{
    let t = before + item + after;
    assert(t.subrange(before.len() as int, (before.len() + item.len()) as int) =~= item);
}

/// What was written behind its length is read back.
pub proof fn law_item_is_read_back(before: Seq<u8>, item: Seq<u8>, after: Seq<u8>)
    requires
        item.len() < 0x1_0000_0000_0000_0000,
    ensures
        item_at(before + length_prepended(item) + after, before.len() as int) == Some(item),
{
    let t = before + length_prepended(item) + after;
    crate::bytes::lemma_le_bytes_len(item.len(), 8);
    crate::bytes::lemma_pow256_values();
    crate::bytes::lemma_le_value_of_bytes(item.len(), 8);
    let p = before.len() as int;
    assert(t.subrange(p, p + 8) =~= le_bytes(item.len(), 8));
    assert(t.subrange(p + 8, p + 8 + item.len()) =~= item);
}

/// An item is read exactly where it stands behind its length, as eight bytes with the
/// lowest first.
pub proof fn law_item_stands_behind_its_length(transcript: Seq<u8>, position: int, item: Seq<u8>)
    requires
        0 <= position,
    ensures
        item_at(transcript, position) == Some(item) <==> {
            &&& item.len() < 0x1_0000_0000_0000_0000
            &&& position + 8 + item.len() <= transcript.len()
            &&& transcript.subrange(position, position + 8) == le_bytes(item.len(), 8)
            &&& transcript.subrange(position + 8, position + 8 + item.len()) == item
        },
{
    crate::bytes::lemma_pow256_values();
    if position + 8 <= transcript.len() {
        let head = transcript.subrange(position, position + 8);
        crate::bytes::lemma_le_bytes_of_value(head);
        if item.len() < 0x1_0000_0000_0000_0000 {
            crate::bytes::lemma_le_value_of_bytes(item.len(), 8);
        }
    }
}

} // verus!
