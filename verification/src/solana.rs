//! Manifest reader: deserializes the version-tagged, length-prefixed
//! bank-state manifest into the storage-entry directory.
//!
//! Layout, in byte offsets: 0 version tag (must match
//! `MANIFEST_VERSION` before anything after it is interpreted), 8 bank
//! slot, 16 storage-entry count, 24 the entries themselves, 24 bytes
//! each: slot, id, expected raw byte length.  All integers are unsigned
//! 64-bit little-endian.  Bytes past the declared entries are ignored.

use vstd::prelude::*;
use crate::SnapshotError;
use crate::append_vec::spec_u64_at;
use vstd::bytes::u64_from_le_bytes;
use vstd::slice::slice_subrange;

verus! {

/// The one supported manifest version tag.
pub const MANIFEST_VERSION: u64 = 1;

/// Bytes before the first storage entry.
pub const MANIFEST_HEADER_LEN: usize = 24;

/// Bytes per storage entry.
pub const MANIFEST_ENTRY_LEN: usize = 24;

/// One declared storage entry: the shard tagged `(slot, id)` is
/// expected to hold exactly `expected_len` raw bytes.
#[derive(PartialEq, Eq, Structural, Clone, Copy, Debug)]
pub struct StorageEntry {
    pub slot: u64,
    pub id: u64,
    pub expected_len: u64,
}

/// The entry stored at byte offset `off`.
pub open spec fn spec_entry_at(b: Seq<u8>, off: int) -> StorageEntry {
    StorageEntry {
        slot: spec_u64_at(b, off),
        id: spec_u64_at(b, off + 8),
        expected_len: spec_u64_at(b, off + 16),
    }
}

/// The `n` entries following the manifest header.
pub open spec fn spec_entries(b: Seq<u8>, n: int) -> Seq<StorageEntry> {
    Seq::new(n as nat, |i: int| spec_entry_at(b, MANIFEST_HEADER_LEN + i * MANIFEST_ENTRY_LEN))
}

/// No two entries declare the same `(slot, id)` key.
pub open spec fn spec_unique_keys(es: Seq<StorageEntry>) -> bool {
    forall|p: int, q: int|
        0 <= p < q < es.len() ==> !(#[trigger] es[p].slot == #[trigger] es[q].slot && es[p].id
            == es[q].id)
}

/// Mathematical value of a parsed manifest: the bank slot and the
/// storage-entry directory.
pub ghost struct ManifestView {
    pub slot: u64,
    pub entries: Seq<StorageEntry>,
}

/// The manifest denoted by `b`: defined exactly when the version tag
/// matches, the declared entries all fit in the buffer, and no
/// `(slot, id)` key repeats.
pub open spec fn spec_parse_manifest(b: Seq<u8>) -> Option<ManifestView> {
    if b.len() >= MANIFEST_HEADER_LEN && spec_u64_at(b, 0) == MANIFEST_VERSION {
        let n = spec_u64_at(b, 16) as int;
        if MANIFEST_HEADER_LEN + n * MANIFEST_ENTRY_LEN <= b.len() && spec_unique_keys(
            spec_entries(b, n),
        ) {
            Some(ManifestView { slot: spec_u64_at(b, 8), entries: spec_entries(b, n) })
        } else {
            None
        }
    } else {
        None
    }
}

/// The index of the entry declaring `(slot, id)`, scanning from `i`.
pub open spec fn spec_dir_find_from(es: Seq<StorageEntry>, slot: u64, id: u64, i: int) -> Option<
    int,
>
    decreases es.len() - i,
{
    if i < 0 || i >= es.len() {
        None
    } else if es[i].slot == slot && es[i].id == id {
        Some(i)
    } else {
        spec_dir_find_from(es, slot, id, i + 1)
    }
}

/// The index of the entry declaring `(slot, id)`.
pub open spec fn spec_dir_find(es: Seq<StorageEntry>, slot: u64, id: u64) -> Option<int> {
    spec_dir_find_from(es, slot, id, 0)
}

/// A key held by some entry in range is found.
pub proof fn lemma_dir_find_from_finds(es: Seq<StorageEntry>, slot: u64, id: u64, i: int)
    requires
        0 <= i,
        exists|j: int| i <= j < es.len() && (#[trigger] es[j]).slot == slot && es[j].id == id,
    ensures
        spec_dir_find_from(es, slot, id, i) is Some,
    decreases es.len() - i,
{
    let j = choose|j: int| i <= j < es.len() && (#[trigger] es[j]).slot == slot && es[j].id == id;
    if !(es[i].slot == slot && es[i].id == id) {
        assert(i + 1 <= j < es.len() && es[j].slot == slot && es[j].id == id);
        lemma_dir_find_from_finds(es, slot, id, i + 1);
    }
}

/// A found index lies in range and carries the key it was found by.
pub proof fn lemma_dir_find_from_range(es: Seq<StorageEntry>, slot: u64, id: u64, i: int)
    requires
        spec_dir_find_from(es, slot, id, i) is Some,
    ensures
        ({
            let j = spec_dir_find_from(es, slot, id, i).unwrap();
            &&& i <= j < es.len()
            &&& es[j].slot == slot
            &&& es[j].id == id
        }),
    decreases es.len() - i,
{
    if !(i < 0 || i >= es.len()) && !(es[i].slot == slot && es[i].id == id) {
        lemma_dir_find_from_range(es, slot, id, i + 1);
    }
}

/// The expected length the directory declares for `(slot, id)`.
pub open spec fn spec_dir_lookup(es: Seq<StorageEntry>, slot: u64, id: u64) -> Option<u64> {
    match spec_dir_find(es, slot, id) {
        Some(i) => Some(es[i].expected_len),
        None => None,
    }
}

/// The storage-entry directory: an immutable mapping from `(slot, id)`
/// to the expected raw byte length of that shard, built once from the
/// manifest.
pub struct StorageDirectory {
    entries: Vec<StorageEntry>,
}

impl View for StorageDirectory {
    type V = Seq<StorageEntry>;

    closed spec fn view(&self) -> Seq<StorageEntry> {
        self.entries@
    }
}

impl StorageDirectory {
    /// Directory keys are unique: one declared length per shard.
    #[verifier::type_invariant]
    spec fn inv(self) -> bool {
        spec_unique_keys(self.entries@)
    }

    /// Number of declared entries.
    pub fn len(&self) -> (r: usize)
        ensures
            r == self@.len(),
    {
        self.entries.len()
    }

    /// The `i`-th declared entry.
    pub fn entry(&self, i: usize) -> (r: StorageEntry)
        requires
            i < self@.len(),
        ensures
            r == self@[i as int],
    {
        self.entries[i]
    }

    /// The index of the entry declaring `(slot, id)`, if any.
    pub fn find(&self, slot: u64, id: u64) -> (r: Option<usize>)
        ensures
            match r {
                Some(i) => i < self@.len() && spec_dir_find(self@, slot, id) == Some(i as int),
                None => spec_dir_find(self@, slot, id) is None,
            },
    {
        let n = self.entries.len();
        let mut i: usize = 0;
        while i < n
            invariant
                0 <= i <= n,
                n == self@.len(),
                spec_dir_find(self@, slot, id) == spec_dir_find_from(self@, slot, id, i as int),
            decreases n - i,
        {
            let e = self.entries[i];
            if e.slot == slot && e.id == id {
                return Some(i);
            }
            i = i + 1;
        }
        None
    }

    /// The expected length declared for `(slot, id)`, if any.
    pub fn lookup(&self, slot: u64, id: u64) -> (r: Option<u64>)
        ensures
            r == spec_dir_lookup(self@, slot, id),
    {
        match self.find(slot, id) {
            Some(i) => Some(self.entries[i].expected_len),
            None => None,
        }
    }
}

/// A parsed manifest: the bank's global state slot and the directory.
pub struct SnapshotManifest {
    pub slot: u64,
    pub directory: StorageDirectory,
}

impl SnapshotManifest {
    pub open spec fn view_spec(&self) -> ManifestView {
        ManifestView { slot: self.slot, entries: self.directory@ }
    }
}

/// Deserialize a manifest blob.  Succeeds, with exactly the entries the
/// blob declares, if and only if `spec_parse_manifest` is defined on
/// the bytes; every failure — bad version tag, truncated header or
/// entry table, repeated `(slot, id)` key — is a deserialization error.
pub fn parse_manifest(bytes: &[u8]) -> (r: Result<SnapshotManifest, SnapshotError>)
    ensures
        match r {
            Ok(m) => spec_parse_manifest(bytes@) == Some(m.view_spec()),
            Err(e) => spec_parse_manifest(bytes@) is None && e is DeserializeError,
        },
{
    let blen = bytes.len();
    if blen < MANIFEST_HEADER_LEN {
        return Err(SnapshotError::DeserializeError);
    }
    let version = u64_from_le_bytes(slice_subrange(bytes, 0, 8));
    if version != MANIFEST_VERSION {
        return Err(SnapshotError::DeserializeError);
    }
    let slot = u64_from_le_bytes(slice_subrange(bytes, 8, 16));
    let n64 = u64_from_le_bytes(slice_subrange(bytes, 16, 24));
    let avail: usize = blen - MANIFEST_HEADER_LEN;
    if n64 > (avail / MANIFEST_ENTRY_LEN) as u64 {
        proof {
            let n = n64 as int;
            assert(MANIFEST_HEADER_LEN + n * MANIFEST_ENTRY_LEN > bytes@.len()) by (nonlinear_arith)
                requires
                    n > avail as int / MANIFEST_ENTRY_LEN as int,
                    avail == bytes@.len() - MANIFEST_HEADER_LEN,
                    bytes@.len() >= MANIFEST_HEADER_LEN,
                    MANIFEST_ENTRY_LEN == 24,
                    MANIFEST_HEADER_LEN == 24,
            ;
        }
        return Err(SnapshotError::DeserializeError);
    }
    let n: usize = n64 as usize;
    proof {
        assert(MANIFEST_HEADER_LEN + n64 as int * MANIFEST_ENTRY_LEN <= bytes@.len())
            by (nonlinear_arith)
            requires
                n64 as int <= avail as int / MANIFEST_ENTRY_LEN as int,
                avail == bytes@.len() - MANIFEST_HEADER_LEN,
                bytes@.len() >= MANIFEST_HEADER_LEN,
                MANIFEST_ENTRY_LEN == 24,
                MANIFEST_HEADER_LEN == 24,
        ;
    }
    let mut entries: Vec<StorageEntry> = Vec::new();
    let mut i: usize = 0;
    while i < n
        invariant
            0 <= i <= n,
            n == n64 as int,
            blen == bytes@.len(),
            MANIFEST_HEADER_LEN + n * MANIFEST_ENTRY_LEN <= bytes@.len(),
            entries@ =~= spec_entries(bytes@, i as int),
        decreases n - i,
    {
        let off: usize = MANIFEST_HEADER_LEN + i * MANIFEST_ENTRY_LEN;
        proof {
            assert(MANIFEST_HEADER_LEN + (i as int) * MANIFEST_ENTRY_LEN + MANIFEST_ENTRY_LEN
                <= MANIFEST_HEADER_LEN + n * MANIFEST_ENTRY_LEN) by (nonlinear_arith)
                requires
                    0 <= (i as int) && (i as int) < (n as int),
                    MANIFEST_ENTRY_LEN == 24,
            ;
        }
        let e = StorageEntry {
            slot: u64_from_le_bytes(slice_subrange(bytes, off, off + 8)),
            id: u64_from_le_bytes(slice_subrange(bytes, off + 8, off + 16)),
            expected_len: u64_from_le_bytes(slice_subrange(bytes, off + 16, off + 24)),
        };
        proof {
            assert(spec_entries(bytes@, i as int + 1) =~= spec_entries(bytes@, i as int).push(
                spec_entry_at(bytes@, MANIFEST_HEADER_LEN + (i as int) * MANIFEST_ENTRY_LEN),
            ));
        }
        entries.push(e);
        i = i + 1;
    }
    // Reject a manifest that declares two lengths for one (slot, id).
    let mut p: usize = 0;
    while p < entries.len()
        invariant
            0 <= p <= entries@.len(),
            entries@ =~= spec_entries(bytes@, n64 as int),
            n64 == spec_u64_at(bytes@, 16),
            forall|a: int, c: int|
                0 <= a < c < p ==> !(#[trigger] entries@[a].slot == #[trigger] entries@[c].slot
                    && entries@[a].id == entries@[c].id),
        decreases entries@.len() - p,
    {
        let mut q: usize = 0;
        while q < p
            invariant
                0 <= q <= p < entries@.len(),
                entries@ =~= spec_entries(bytes@, n64 as int),
                n64 == spec_u64_at(bytes@, 16),
                forall|a: int|
                    0 <= a < q ==> !(#[trigger] entries@[a].slot == entries@[p as int].slot
                        && entries@[a].id == entries@[p as int].id),
            decreases p - q,
        {
            if entries[q].slot == entries[p].slot && entries[q].id == entries[p].id {
                proof {
                    let es = spec_entries(bytes@, n64 as int);
                    assert(entries@ =~= es);
                    assert(es[q as int].slot == es[p as int].slot && es[q as int].id == es[
                        p as int
                    ].id);
                    assert(!spec_unique_keys(es));
                }
                return Err(SnapshotError::DeserializeError);
            }
            q = q + 1;
        }
        p = p + 1;
    }
    Ok(SnapshotManifest { slot, directory: StorageDirectory { entries } })
}

/// Law: rebuilding the storage-entry directory from identical manifest
/// bytes yields an identical mapping.  `spec_parse_manifest` is a
/// function of the bytes alone, and `parse_manifest` returns exactly
/// its value, so two parses of equal blobs agree entry for entry.
pub proof fn lemma_directory_rebuild_idempotent(b1: Seq<u8>, b2: Seq<u8>)
    requires
        b1 == b2,
    ensures
        spec_parse_manifest(b1) == spec_parse_manifest(b2),
{
}

} // verus!
