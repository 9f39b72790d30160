//! Accounting for a streaming download: the payload arrives as a finite
//! sequence of byte chunks, each appended to the destination file before the
//! next is requested, and the fetch reports the total number of bytes written.

use vstd::prelude::*;

verus! {

/// Why a download failed. Any failure aborts the run; nothing retries.
#[derive(Clone, Copy, PartialEq, Eq, Structural, Debug)]
pub enum FetchError {
    /// The destination file could not be created.
    CreateFailed,
    /// The remote object could not be retrieved (missing, denied, or no connection).
    RequestFailed,
    /// The stream of body chunks errored mid-transfer.
    StreamInterrupted,
    /// Appending a chunk to the destination file failed.
    WriteFailed,
}

/// The payload reassembled from its chunks, in arrival order.
pub open spec fn concat_chunks(chunks: Seq<Seq<u8>>) -> Seq<u8>
    decreases chunks.len(),
{
    if chunks.len() == 0 {
        Seq::empty()
    } else {
        concat_chunks(chunks.drop_last()) + chunks.last()
    }
}

/// The sum of the chunk lengths.
pub open spec fn total_len(chunks: Seq<Seq<u8>>) -> nat
    decreases chunks.len(),
{
    if chunks.len() == 0 {
        0
    } else {
        total_len(chunks.drop_last()) + chunks.last().len()
    }
}

/// However a payload is cut into chunks, the chunk lengths sum to the size of
/// the reassembled payload.
pub proof fn lemma_chunking_preserves_size(chunks: Seq<Seq<u8>>)
    ensures
        concat_chunks(chunks).len() == total_len(chunks),
    decreases chunks.len(),
{
    if chunks.len() > 0 {
        lemma_chunking_preserves_size(chunks.drop_last());
    }
}

/// Progress of one streaming download: the count of bytes written so far and,
/// in ghost form, the bytes themselves in the order they were appended to the
/// destination file.
pub struct FetchProgress {
    total: usize,
    data: Ghost<Seq<u8>>,
}

impl FetchProgress {
    /// The bytes appended to the destination file so far, in order.
    pub closed spec fn data(self) -> Seq<u8> {
        self.data@
    }

    /// The running byte count.
    pub closed spec fn count(self) -> nat {
        self.total as nat
    }

    /// The running count agrees with the bytes recorded.
    pub open spec fn wf(self) -> bool {
        self.count() == self.data().len()
    }

    /// Starts accounting for a fresh download into a newly created file.
    pub fn new() -> (r: FetchProgress)
        ensures
            r.wf(),
            r.data() == Seq::<u8>::empty(),
    {
        FetchProgress { total: 0, data: Ghost(Seq::empty()) }
    }

    /// Records one chunk as appended to the destination. Returns `false`
    /// (leaving the accounting unchanged) only when the count would no longer
    /// fit in `usize`, which no real file can reach.
    pub fn record_chunk(&mut self, chunk: &Vec<u8>) -> (ok: bool)
        requires
            old(self).wf(),
        ensures
            final(self).wf(),
            ok <==> old(self).data().len() + chunk@.len() <= usize::MAX,
            ok ==> final(self).data() == old(self).data() + chunk@,
            !ok ==> *final(self) == *old(self),
    {
        match self.total.checked_add(chunk.len()) {
            Some(t) => {
                self.total = t;
                proof {
                    self.data@ = self.data@ + chunk@;
                }
                true
            },
            None => false,
        }
    }

    /// The total number of bytes recorded, reported on success.
    pub fn byte_count(&self) -> (n: usize)
        ensures
            n == self.count(),
    {
        self.total
    }
}

/// Byte-count correctness: when the bytes a download appended are some
/// chunking of an N-byte payload, the reported count is exactly N, whatever
/// the chunk boundaries were.
pub proof fn lemma_byte_count_correct(p: FetchProgress, chunks: Seq<Seq<u8>>)
    requires
        p.wf(),
        p.data() == concat_chunks(chunks),
    ensures
        p.count() == total_len(chunks),
{
    lemma_chunking_preserves_size(chunks);
}

} // verus!
