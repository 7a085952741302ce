//! Extractor over an unpacked snapshot: a loose directory tree holding
//! a manifest file addressed by slot number and per-shard files named
//! `<slot>.<id>` in a sibling accounts directory.
//!
//! The file system itself is the caller's collaborator: construction
//! takes the manifest bytes already read, and iteration is a
//! request/supply protocol.  `next_request` names the directory entry
//! whose file should be read next; the caller either supplies the
//! file's bytes with `supply_file` or reports that the file is absent
//! or unreadable with `report_io_error`, after which the scan is failed
//! and yields nothing further.  Order across entries is not
//! significant: each shard is self-describing.

use vstd::prelude::*;
use crate::SnapshotError;
use crate::append_vec::AppendVec;
use crate::append_vec::AppendVecView;
use crate::solana::StorageDirectory;
use crate::solana::StorageEntry;
use crate::solana::parse_manifest;
use crate::solana::spec_parse_manifest;

verus! {

/// Mathematical state of an unpacked scan.
pub ghost struct UnpackedView {
    /// Bank slot declared by the manifest.
    pub slot: u64,
    /// The storage-entry directory, in manifest order.
    pub entries: Seq<StorageEntry>,
    /// Index of the next directory entry to request.
    pub next_idx: int,
    /// Whether an I/O failure or length mismatch ended the scan.
    pub failed: bool,
}

/// Single-pass extractor over an unpacked snapshot directory.
/// Constructed once from the manifest, then driven to exhaustion or
/// first failure; restarting requires a fresh extractor.
pub struct UnpackedSnapshotExtractor {
    slot: u64,
    directory: StorageDirectory,
    next_idx: usize,
    failed: bool,
}

impl View for UnpackedSnapshotExtractor {
    type V = UnpackedView;

    closed spec fn view(&self) -> UnpackedView {
        UnpackedView {
            slot: self.slot,
            entries: self.directory@,
            next_idx: self.next_idx as int,
            failed: self.failed,
        }
    }
}

impl UnpackedSnapshotExtractor {
    #[verifier::type_invariant]
    spec fn inv(self) -> bool {
        self.next_idx <= self.directory@.len()
    }

    /// Parse the manifest and build the directory.  Succeeds if and
    /// only if the manifest bytes deserialize.
    pub fn new(manifest_bytes: &[u8]) -> (r: Result<UnpackedSnapshotExtractor, SnapshotError>)
        ensures
            match r {
                Ok(x) => {
                    &&& spec_parse_manifest(manifest_bytes@) is Some
                    &&& x@ == (UnpackedView {
                        slot: spec_parse_manifest(manifest_bytes@).unwrap().slot,
                        entries: spec_parse_manifest(manifest_bytes@).unwrap().entries,
                        next_idx: 0,
                        failed: false,
                    })
                },
                Err(e) => spec_parse_manifest(manifest_bytes@) is None && e is DeserializeError,
            },
    {
        match parse_manifest(manifest_bytes) {
            Ok(m) => Ok(
                UnpackedSnapshotExtractor {
                    slot: m.slot,
                    directory: m.directory,
                    next_idx: 0,
                    failed: false,
                },
            ),
            Err(e) => Err(e),
        }
    }

    /// Bank slot declared by the manifest.
    pub fn slot(&self) -> (r: u64)
        ensures
            r == self@.slot,
    {
        self.slot
    }

    /// The directory entry whose file should be read next, or `None`
    /// when the scan is exhausted or failed.
    pub fn next_request(&self) -> (r: Option<StorageEntry>)
        ensures
            r == (if !self@.failed && self@.next_idx < self@.entries.len() {
                Some(self@.entries[self@.next_idx])
            } else {
                Option::<StorageEntry>::None
            }),
    {
        proof {
            use_type_invariant(self);
        }
        if !self.failed && self.next_idx < self.directory.len() {
            Some(self.directory.entry(self.next_idx))
        } else {
            None
        }
    }

    /// Supply the bytes read for the currently requested entry.  If
    /// exactly the expected length arrived, the shard is accepted and
    /// the scan advances; any other length is a length mismatch
    /// relative to the manifest, which fails the scan with an I/O
    /// error.
    pub fn supply_file(&mut self, bytes: Vec<u8>) -> (r: Result<AppendVec, SnapshotError>)
        requires
            !old(self)@.failed,
            old(self)@.next_idx < old(self)@.entries.len(),
            bytes@.len() + 7 <= usize::MAX,
        ensures
            final(self)@.slot == old(self)@.slot,
            final(self)@.entries == old(self)@.entries,
            ({
                let e = old(self)@.entries[old(self)@.next_idx];
                if bytes@.len() == e.expected_len {
                    &&& r matches Ok(av) && av@ == (AppendVecView {
                        slot: e.slot,
                        id: e.id,
                        bytes: bytes@,
                    })
                    &&& final(self)@.next_idx == old(self)@.next_idx + 1
                    &&& !final(self)@.failed
                } else {
                    &&& r matches Err(e2) && e2 is IOError
                    &&& final(self)@.failed
                }
            }),
    {
        proof {
            use_type_invariant(&*self);
        }
        let n = self.directory.len();
        let e = self.directory.entry(self.next_idx);
        if bytes.len() as u64 == e.expected_len {
            assert(self.next_idx < n);
            self.next_idx = self.next_idx + 1;
            Ok(AppendVec::new(e.slot, e.id, bytes))
        } else {
            self.failed = true;
            Err(SnapshotError::IOError)
        }
    }

    /// Record that the requested file is absent or unreadable.  The
    /// scan is failed: no further shards are yielded, and the returned
    /// error is what extraction surfaces.
    pub fn report_io_error(&mut self) -> (r: SnapshotError)
        ensures
            r is IOError,
            final(self)@ == (UnpackedView { failed: true, ..old(self)@ }),
    {
        proof {
            use_type_invariant(&*self);
        }
        self.failed = true;
        SnapshotError::IOError
    }
}

/// The largest slot among `candidates`: selects the most recent
/// snapshot subdirectory.  `None` exactly when there is no candidate.
pub fn latest_slot(candidates: &Vec<u64>) -> (r: Option<u64>)
    ensures
        match r {
            Some(m) => candidates@.contains(m) && forall|i: int|
                0 <= i < candidates@.len() ==> #[trigger] candidates@[i] <= m,
            None => candidates@.len() == 0,
        },
{
    if candidates.len() == 0 {
        return None;
    }
    let mut best: u64 = candidates[0];
    let mut i: usize = 1;
    while i < candidates.len()
        invariant
            1 <= i <= candidates@.len(),
            candidates@.contains(best),
            forall|j: int| 0 <= j < i ==> #[trigger] candidates@[j] <= best,
        decreases candidates@.len() - i,
    {
        if candidates[i] > best {
            best = candidates[i];
        }
        i = i + 1;
    }
    Some(best)
}

} // verus!
