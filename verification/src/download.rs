//! Downloading a whole torrent, piece after piece: which piece comes next, how
//! long it is, what progress to report, and the check of a piece's hash.
use vstd::prelude::*;
use crate::bytes::bytes_equal;
use crate::hashing::{sha1, sha1_digest};
use crate::peer::{min, piece_size, piece_size_ok, spec_piece_size};
use crate::text::string_of;
use crate::torrent::{files_total, meta_view, TorrentMetadata};

verus! {

/// How far a download has come.
#[derive(Debug, Clone, Copy, PartialEq, Eq)]
pub struct DownloadProgress {
    pub current_piece: usize,
    pub total_pieces: usize,
    pub downloaded_bytes: u64,
    pub total_bytes: u64,
}

/// Why a download failed.
#[derive(Debug, Clone, Copy, PartialEq, Eq)]
pub enum DownloadError {
    HashMismatch,
}

impl DownloadError {
    pub open spec fn spec_message(self) -> Seq<char> {
        match self {
            DownloadError::HashMismatch => "piece hash mismatch"@,
        }
    }

    /// The error's message.
    pub fn to_string(&self) -> (s: String)
        ensures
            s@ == self.spec_message(),
    {
        match self {
            DownloadError::HashMismatch => string_of("piece hash mismatch"),
        }
    }
}

/// Checks that `data` has the SHA-1 digest `expected_hash`.
pub fn verify_piece(data: &[u8], expected_hash: [u8; 20]) -> (r: Result<(), DownloadError>)
    ensures
        r is Ok <==> sha1(data@) == expected_hash@,
        r matches Err(e) ==> e == DownloadError::HashMismatch,
{
    let digest = sha1_digest(data);
    if !bytes_equal(&digest, &expected_hash) {
        return Err(DownloadError::HashMismatch);
    }
    Ok(())
}

/// The number of bytes in the first `k` pieces of a torrent of `total` bytes cut
/// into pieces of `piece_length` bytes.
pub open spec fn bytes_before(total: u64, piece_length: u64, k: nat) -> int
    decreases k,
{
    if k == 0 {
        0
    } else {
        bytes_before(total, piece_length, (k - 1) as nat) + spec_piece_size(total, piece_length, (k - 1) as u32)
    }
}

/// The first `k` pieces hold the first `min(k * piece_length, total)` bytes.
pub proof fn lemma_bytes_before(total: u64, piece_length: u64, k: nat)
    requires
        k <= u32::MAX + 1,
        forall|i: int| 0 <= i < k ==> piece_size_ok(total, piece_length, #[trigger] (i as u32)),
    ensures
        bytes_before(total, piece_length, k) == if k * piece_length < total {
            k * piece_length
        } else {
            total as int
        },
    decreases k,
{
    if k > 0 {
        let j = (k - 1) as nat;
        let idx = (k - 1) as u32;
        assert(piece_size_ok(total, piece_length, (j as int) as u32));
        lemma_bytes_before(total, piece_length, j);
        assert(j * piece_length + piece_length == k * piece_length) by (nonlinear_arith)
            requires
                k == j + 1,
        ;
        assert(idx * piece_length == j * piece_length);
    } else {
        assert(k * piece_length == 0) by (nonlinear_arith)
            requires
                k == 0,
        ;
    }
}

/// A download of all the pieces of a torrent, in order.
pub struct DownloadRun {
    piece_length: u64,
    piece_hashes: Vec<[u8; 20]>,
    total: u64,
    /// The next piece, and the bytes of the pieces before it.
    done: (usize, u64),
}

impl DownloadRun {
    pub closed spec fn spec_next(&self) -> usize {
        self.done.0
    }

    pub closed spec fn spec_downloaded(&self) -> u64 {
        self.done.1
    }

    pub closed spec fn spec_total(&self) -> u64 {
        self.total
    }

    pub closed spec fn spec_piece_length(&self) -> u64 {
        self.piece_length
    }

    pub closed spec fn spec_hashes(&self) -> Seq<[u8; 20]> {
        self.piece_hashes@
    }

    /// The bytes downloaded are those of the pieces before the next one.
    #[verifier::type_invariant]
    spec fn wf(&self) -> bool {
        &&& self.done.0 <= self.piece_hashes@.len() <= u32::MAX + 1
        &&& self.done.1 <= self.total
        &&& forall|i: int| 0 <= i < self.done.0 ==> piece_size_ok(self.total, self.piece_length, #[trigger] (i as u32))
        &&& self.done.1 == bytes_before(self.total, self.piece_length, self.done.0 as nat)
    }

    /// A download of all the pieces of `metadata`, whose files hold `total` bytes.
    pub fn new(metadata: &TorrentMetadata, total: u64) -> (d: DownloadRun)
        requires
            total == files_total(meta_view(*metadata).files),
            metadata.piece_hashes@.len() <= u32::MAX + 1,
        ensures
            d.spec_next() == 0,
            d.spec_downloaded() == 0,
            d.spec_total() == total,
            d.spec_piece_length() == metadata.piece_length,
            d.spec_hashes() == metadata.piece_hashes@,
    {
        let mut hashes: Vec<[u8; 20]> = Vec::new();
        let mut i: usize = 0;
        while i < metadata.piece_hashes.len()
            invariant
                i <= metadata.piece_hashes@.len(),
                hashes@ == metadata.piece_hashes@.take(i as int),
            decreases metadata.piece_hashes.len() - i,
        {
            hashes.push(metadata.piece_hashes[i]);
            assert(metadata.piece_hashes@.take(i + 1) =~= metadata.piece_hashes@.take(i as int).push(
                metadata.piece_hashes@[i as int],
            ));
            i += 1;
        }
        assert(metadata.piece_hashes@.take(metadata.piece_hashes@.len() as int) =~= metadata.piece_hashes@);
        DownloadRun {
            piece_length: metadata.piece_length,
            piece_hashes: hashes,
            total,
            done: (0, 0),
        }
    }

    /// The progress to report before any piece.
    pub fn progress(&self) -> (p: DownloadProgress)
        ensures
            p == (DownloadProgress {
                current_piece: self.spec_next(),
                total_pieces: self.spec_hashes().len() as usize,
                downloaded_bytes: self.spec_downloaded(),
                total_bytes: self.spec_total(),
            }),
            self.spec_downloaded() == bytes_before(self.spec_total(), self.spec_piece_length(), self.spec_next() as nat),
            self.spec_downloaded() <= self.spec_total(),
            self.spec_next() <= self.spec_hashes().len(),
    {
        proof {
            use_type_invariant(self);
        }
        DownloadProgress {
            current_piece: self.done.0,
            total_pieces: self.piece_hashes.len(),
            downloaded_bytes: self.done.1,
            total_bytes: self.total,
        }
    }

    /// Whether the length of the next piece can be computed: the arithmetic of
    /// `piece_size` stays within a `u64`.
    pub fn next_piece_fits(&self) -> (b: bool)
        ensures
            b == piece_size_ok(self.spec_total(), self.spec_piece_length(), self.spec_next() as u32),
    {
        proof {
            use_type_invariant(self);
        }
        let index = self.done.0 as u32;
        let start = (index as u64).checked_mul(self.piece_length);
        match start {
            None => false,
            Some(s) => s >= self.total || s.checked_add(self.piece_length).is_some(),
        }
    }

    /// The next piece to download: its index, its length and its hash; none once
    /// all pieces are done.
    pub fn next_piece(&self) -> (r: Option<(u32, u64, [u8; 20])>)
        requires
            self.spec_next() < self.spec_hashes().len() ==> piece_size_ok(
                self.spec_total(),
                self.spec_piece_length(),
                self.spec_next() as u32,
            ),
        ensures
            self.spec_next() >= self.spec_hashes().len() ==> r is None,
            self.spec_next() < self.spec_hashes().len() ==> r == Some(
                (
                    self.spec_next() as u32,
                    spec_piece_size(self.spec_total(), self.spec_piece_length(), self.spec_next() as u32),
                    self.spec_hashes()[self.spec_next() as int],
                ),
            ),
    {
        proof {
            use_type_invariant(self);
        }
        if self.done.0 >= self.piece_hashes.len() {
            return None;
        }
        let index = self.done.0 as u32;
        Some((index, piece_size(self.total, self.piece_length, index), self.piece_hashes[self.done.0]))
    }

    /// Records that the next piece is done, and returns the progress to report.
    pub fn piece_done(&mut self) -> (p: DownloadProgress)
        requires
            old(self).spec_next() < old(self).spec_hashes().len(),
            piece_size_ok(old(self).spec_total(), old(self).spec_piece_length(), old(self).spec_next() as u32),
        ensures
            final(self).spec_next() == old(self).spec_next() + 1,
            final(self).spec_downloaded() == old(self).spec_downloaded() + spec_piece_size(
                old(self).spec_total(),
                old(self).spec_piece_length(),
                old(self).spec_next() as u32,
            ),
            final(self).spec_total() == old(self).spec_total(),
            final(self).spec_piece_length() == old(self).spec_piece_length(),
            final(self).spec_hashes() == old(self).spec_hashes(),
            final(self).spec_downloaded() == bytes_before(
                final(self).spec_total(),
                final(self).spec_piece_length(),
                final(self).spec_next() as nat,
            ),
            final(self).spec_downloaded() <= final(self).spec_total(),
            p == (DownloadProgress {
                current_piece: final(self).spec_next(),
                total_pieces: final(self).spec_hashes().len() as usize,
                downloaded_bytes: final(self).spec_downloaded(),
                total_bytes: final(self).spec_total(),
            }),
    {
        proof {
            use_type_invariant(&*self);
        }
        assert(self.done.0 < self.piece_hashes.len());
        let index = self.done.0 as u32;
        let length = piece_size(self.total, self.piece_length, index);
        proof {
            assert forall|i: int| 0 <= i < self.done.0 + 1 implies piece_size_ok(self.total, self.piece_length, #[trigger] (i as u32)) by {
                if i == self.done.0 {
                    assert((i as u32) == index);
                }
            }
            lemma_bytes_before(self.total, self.piece_length, (self.done.0 + 1) as nat);
            assert(((self.done.0 as int) as u32) == index);
        }
        self.done = (self.done.0 + 1, self.done.1 + length);
        self.progress()
    }
}

} // verus!
