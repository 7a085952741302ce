//! Extractor over an archived snapshot: a tape-archive-formatted
//! stream, optionally whole-stream compressed, read as a single forward
//! pass over member entries in archive order.
//!
//! The archive reader is the caller's collaborator; the scanning policy
//! lives here, in `ArchiveScanner`, as a transition machine driven one
//! member at a time.  The manifest member — path
//! `snapshots/<slot>/<slot>`, with the numerically largest bank slot
//! governing when a container embeds stale manifests for older slots —
//! must be resolved before any accounts member (`accounts/<slot>.<id>`)
//! can be validated.  An accounts member seen earlier is out of order:
//! the seekable sub-variant skips it and rereads it after manifest
//! discovery, the non-seekable sub-variant fails, since bounded memory
//! precludes buffering unresolved entries.  Scanning stops successfully
//! once every directory entry has been matched; leftover members are
//! ignored.

use vstd::prelude::*;
use crate::SnapshotError;
use crate::append_vec::AppendVec;
use crate::append_vec::AppendVecView;
use crate::find_byte;
use crate::parse_u64_dec;
use crate::spec_find_byte;
use crate::spec_parse_append_vec_name;
use crate::spec_parse_u64_dec;
use crate::parse_append_vec_name;
use crate::solana::ManifestView;
use crate::solana::StorageDirectory;
use crate::solana::StorageEntry;
use crate::solana::parse_manifest;
use crate::solana::spec_dir_find;
use crate::solana::spec_parse_manifest;
use vstd::slice::slice_subrange;

verus! {

/// The bytes of the path component `snapshots`.
pub open spec fn spec_snapshots_name() -> Seq<u8> {
    seq![115u8, 110u8, 97u8, 112u8, 115u8, 104u8, 111u8, 116u8, 115u8]
}

/// The bytes of the path component `accounts`.
pub open spec fn spec_accounts_name() -> Seq<u8> {
    seq![97u8, 99u8, 99u8, 111u8, 117u8, 110u8, 116u8, 115u8]
}

/// What a member path denotes within a snapshot archive.
#[derive(PartialEq, Eq, Structural, Clone, Copy, Debug)]
pub enum MemberClass {
    /// `snapshots/<slot>/<slot>`: a manifest for that slot.
    Manifest(u64),
    /// `accounts/<slot>.<id>`: a candidate shard.
    Accounts(u64, u64),
    /// Anything else: incidental bookkeeping, ignored.
    Other,
}

/// Classification of an archive member path.  A manifest path has
/// exactly the components `snapshots`, a decimal slot, and a file named
/// by the same slot value; an accounts path has exactly the components
/// `accounts` and `<slot>.<id>`.
pub open spec fn spec_classify_member(name: Seq<u8>) -> MemberClass {
    match spec_find_byte(name, 47, 0) {
        None => MemberClass::Other,
        Some(k1) => {
            let first = name.subrange(0, k1);
            let rest = name.subrange(k1 + 1, name.len() as int);
            if first == spec_accounts_name() && spec_find_byte(rest, 47, 0) is None {
                match spec_parse_append_vec_name(rest) {
                    Some((slot, id)) => MemberClass::Accounts(slot, id),
                    None => MemberClass::Other,
                }
            } else if first == spec_snapshots_name() {
                match spec_find_byte(rest, 47, 0) {
                    None => MemberClass::Other,
                    Some(k2) => {
                        let dirpart = rest.subrange(0, k2);
                        let filepart = rest.subrange(k2 + 1, rest.len() as int);
                        if spec_find_byte(filepart, 47, 0) is None {
                            match (spec_parse_u64_dec(dirpart), spec_parse_u64_dec(filepart)) {
                                (Some(a), Some(b)) => if a == b {
                                    MemberClass::Manifest(a)
                                } else {
                                    MemberClass::Other
                                },
                                _ => MemberClass::Other,
                            }
                        } else {
                            MemberClass::Other
                        }
                    },
                }
            } else {
                MemberClass::Other
            }
        },
    }
}

/// Whether `s` is the component `accounts`.
fn is_accounts_name(s: &[u8]) -> (r: bool)
    ensures
        r == (s@ == spec_accounts_name()),
{
    if s.len() != 8 {
        return false;
    }
    let r = s[0] == 97 && s[1] == 99 && s[2] == 99 && s[3] == 111 && s[4] == 117 && s[5] == 110
        && s[6] == 116 && s[7] == 115;
    proof {
        if r {
            assert(s@ =~= spec_accounts_name());
        } else {
            assert(s@ != spec_accounts_name());
        }
    }
    r
}

/// Whether `s` is the component `snapshots`.
fn is_snapshots_name(s: &[u8]) -> (r: bool)
    ensures
        r == (s@ == spec_snapshots_name()),
{
    if s.len() != 9 {
        return false;
    }
    let r = s[0] == 115 && s[1] == 110 && s[2] == 97 && s[3] == 112 && s[4] == 115 && s[5] == 104
        && s[6] == 111 && s[7] == 116 && s[8] == 115;
    proof {
        if r {
            assert(s@ =~= spec_snapshots_name());
        } else {
            assert(s@ != spec_snapshots_name());
        }
    }
    r
}

/// Classify an archive member path.
pub fn classify_member(name: &[u8]) -> (r: MemberClass)
    ensures
        r == spec_classify_member(name@),
{
    let n = name.len();
    match find_byte(name, 47) {
        None => MemberClass::Other,
        Some(k1) => {
            let first = slice_subrange(name, 0, k1);
            let rest = slice_subrange(name, k1 + 1, n);
            if is_accounts_name(first) && find_byte(rest, 47).is_none() {
                match parse_append_vec_name(rest) {
                    Some((slot, id)) => MemberClass::Accounts(slot, id),
                    None => MemberClass::Other,
                }
            } else if is_snapshots_name(first) {
                let m = rest.len();
                match find_byte(rest, 47) {
                    None => MemberClass::Other,
                    Some(k2) => {
                        let dirpart = slice_subrange(rest, 0, k2);
                        let filepart = slice_subrange(rest, k2 + 1, m);
                        if find_byte(filepart, 47).is_none() {
                            match (parse_u64_dec(dirpart), parse_u64_dec(filepart)) {
                                (Some(a), Some(b)) => if a == b {
                                    MemberClass::Manifest(a)
                                } else {
                                    MemberClass::Other
                                },
                                _ => MemberClass::Other,
                            }
                        } else {
                            MemberClass::Other
                        }
                    },
                }
            } else {
                MemberClass::Other
            }
        },
    }
}

/// Number of `true` entries in `s`.
pub open spec fn spec_count_true(s: Seq<bool>) -> int
    decreases s.len(),
{
    if s.len() == 0 {
        0
    } else {
        spec_count_true(s.drop_last()) + if s.last() {
            1int
        } else {
            0int
        }
    }
}

/// The count of matched flags never exceeds their number.
pub proof fn lemma_count_true_le_len(s: Seq<bool>)
    ensures
        0 <= spec_count_true(s) <= s.len(),
    decreases s.len(),
{
    if s.len() > 0 {
        lemma_count_true_le_len(s.drop_last());
    }
}

/// Setting one `false` flag to `true` raises the count by one.
pub proof fn lemma_count_true_update(s: Seq<bool>, i: int)
    requires
        0 <= i < s.len(),
        !s[i],
    ensures
        spec_count_true(s.update(i, true)) == spec_count_true(s) + 1,
    decreases s.len(),
{
    if i == s.len() - 1 {
        assert(s.update(i, true).drop_last() =~= s.drop_last());
    } else {
        assert(s.update(i, true).drop_last() =~= s.drop_last().update(i, true));
        lemma_count_true_update(s.drop_last(), i);
    }
}

/// When every flag counts, every flag is set.
pub proof fn lemma_count_true_full(s: Seq<bool>)
    requires
        spec_count_true(s) == s.len(),
    ensures
        forall|i: int| 0 <= i < s.len() ==> s[i],
    decreases s.len(),
{
    if s.len() > 0 {
        lemma_count_true_le_len(s.drop_last());
        lemma_count_true_full(s.drop_last());
        assert forall|i: int| 0 <= i < s.len() implies s[i] by {
            if i < s.len() - 1 {
                assert(s.drop_last()[i]);
            }
        }
    }
}

/// What the caller should do with the member just presented.
#[derive(PartialEq, Eq, Structural, Clone, Copy, Debug)]
pub enum MemberAction {
    /// Read the member fully and hand its bytes to `supply_manifest`.
    ReadManifest,
    /// Read exactly the entry's expected length and build the shard.
    ReadShard(StorageEntry),
    /// Ignore the member.
    Skip,
}

/// Mathematical state of an archive scan.
pub ghost struct ArchiveScannerView {
    /// Whether the underlying reader can seek backward.
    pub seekable: bool,
    /// The governing manifest, once resolved.
    pub manifest: Option<ManifestView>,
    /// Which directory entries have been matched, by entry index.
    pub matched: Seq<bool>,
    /// Whether any shard has been accepted; the directory is frozen
    /// from the first acceptance on.
    pub accepted_any: bool,
}

/// Forward-only scanning state over one archive.  Constructed fresh
/// per scan; never restarted.
pub struct ArchiveScanner {
    seekable: bool,
    slot: u64,
    directory: Option<StorageDirectory>,
    matched: Vec<bool>,
    matched_count: usize,
    accepted_any: bool,
}

impl View for ArchiveScanner {
    type V = ArchiveScannerView;

    closed spec fn view(&self) -> ArchiveScannerView {
        ArchiveScannerView {
            seekable: self.seekable,
            manifest: match self.directory {
                Some(d) => Some(ManifestView { slot: self.slot, entries: d@ }),
                None => None,
            },
            matched: self.matched@,
            accepted_any: self.accepted_any,
        }
    }
}

impl ArchiveScanner {
    /// Internal consistency: the match flags mirror the directory
    /// entries one for one, and the cached count is their tally.
    pub closed spec fn wf(&self) -> bool {
        &&& match self.directory {
            Some(d) => self.matched@.len() == d@.len(),
            None => self.matched@.len() == 0 && !self.accepted_any,
        }
        &&& self.matched_count == spec_count_true(self.matched@)
    }

    pub fn new(seekable: bool) -> (r: ArchiveScanner)
        ensures
            r.wf(),
            r@ == (ArchiveScannerView {
                seekable,
                manifest: None,
                matched: Seq::<bool>::empty(),
                accepted_any: false,
            }),
    {
        let r = ArchiveScanner {
            seekable,
            slot: 0,
            directory: None,
            matched: Vec::new(),
            matched_count: 0,
            accepted_any: false,
        };
        proof {
            assert(r.matched@ =~= Seq::<bool>::empty());
        }
        r
    }

    /// The bank slot of the governing manifest, once one is resolved.
    pub fn manifest_slot(&self) -> (r: Option<u64>)
        ensures
            r == (match self@.manifest {
                Some(m) => Some(m.slot),
                None => Option::<u64>::None,
            }),
    {
        match &self.directory {
            Some(_) => Some(self.slot),
            None => None,
        }
    }

    /// Whether every directory entry has been matched: scanning may
    /// stop successfully, ignoring whatever members remain.
    pub fn is_complete(&self) -> (r: bool)
        requires
            self.wf(),
        ensures
            r == (self@.manifest is Some && spec_count_true(self@.matched) == self@.matched.len()),
    {
        match &self.directory {
            Some(_) => self.matched_count == self.matched.len(),
            None => false,
        }
    }

    /// Present one member, in archive order, before reading its bytes.
    /// The decision — read it as a manifest, read it as a shard, skip
    /// it, or fail the scan — is a function of the member's class, its
    /// size, and the scan state alone.
    pub fn on_member(&mut self, name: &[u8], size: u64) -> (r: Result<
        MemberAction,
        SnapshotError,
    >)
        requires
            old(self).wf(),
        ensures
            final(self).wf(),
            final(self)@.seekable == old(self)@.seekable,
            match spec_classify_member(name@) {
                MemberClass::Other => r == Ok::<MemberAction, SnapshotError>(MemberAction::Skip)
                    && final(self)@ == old(self)@,
                MemberClass::Manifest(_) => final(self)@ == old(self)@ && r == Ok::<
                    MemberAction,
                    SnapshotError,
                >(
                    if old(self)@.accepted_any {
                        MemberAction::Skip
                    } else {
                        MemberAction::ReadManifest
                    },
                ),
                MemberClass::Accounts(slot, id) => match old(self)@.manifest {
                    None => {
                        if old(self)@.seekable {
                            r == Ok::<MemberAction, SnapshotError>(MemberAction::Skip) && final(self)@ == old(self)@
                        } else {
                            r == Err::<MemberAction, SnapshotError>(
                                SnapshotError::UnexpectedAppendVec,
                            ) && final(self)@ == old(self)@
                        }
                    },
                    Some(m) => match spec_dir_find(m.entries, slot, id) {
                        None => r == Err::<MemberAction, SnapshotError>(
                            SnapshotError::UnexpectedAppendVec,
                        ) && final(self)@ == old(self)@,
                        Some(j) => {
                            if m.entries[j].expected_len != size || old(self)@.matched[j] {
                                r == Err::<MemberAction, SnapshotError>(
                                    SnapshotError::UnexpectedAppendVec,
                                ) && final(self)@ == old(self)@
                            } else {
                                &&& r == Ok::<MemberAction, SnapshotError>(
                                    MemberAction::ReadShard(m.entries[j]),
                                )
                                &&& final(self)@ == (ArchiveScannerView {
                                    matched: old(self)@.matched.update(j, true),
                                    accepted_any: true,
                                    ..old(self)@
                                })
                            }
                        },
                    },
                },
            },
    {
        match classify_member(name) {
            MemberClass::Other => Ok(MemberAction::Skip),
            MemberClass::Manifest(_) => {
                if self.accepted_any {
                    Ok(MemberAction::Skip)
                } else {
                    Ok(MemberAction::ReadManifest)
                }
            },
            MemberClass::Accounts(slot, id) => {
                match &self.directory {
                    None => {
                        if self.seekable {
                            Ok(MemberAction::Skip)
                        } else {
                            Err(SnapshotError::UnexpectedAppendVec)
                        }
                    },
                    Some(d) => {
                        match d.find(slot, id) {
                            None => Err(SnapshotError::UnexpectedAppendVec),
                            Some(j) => {
                                let e = d.entry(j);
                                if e.expected_len != size || self.matched[j] {
                                    Err(SnapshotError::UnexpectedAppendVec)
                                } else {
                                    self.matched.set(j, true);
                                    let ml = self.matched.len();
                                    proof {
                                        lemma_count_true_update(old(self).matched@, j as int);
                                        lemma_count_true_le_len(self.matched@);
                                        assert(self.matched_count + 1 <= ml);
                                    }
                                    self.matched_count = self.matched_count + 1;
                                    self.accepted_any = true;
                                    Ok(MemberAction::ReadShard(e))
                                }
                            },
                        }
                    },
                }
            },
        }
    }

    /// Hand over the bytes of a manifest member after a `ReadManifest`
    /// action.  A blob that does not deserialize fails the scan.  A
    /// parsed manifest replaces the governing one only when its slot is
    /// larger, so the numerically largest slot wins; replacement
    /// rebuilds the directory and clears every match.  Resolution must
    /// precede the first accepted shard, so the directory is frozen
    /// afterwards.
    pub fn supply_manifest(&mut self, bytes: &[u8]) -> (r: Result<(), SnapshotError>)
        requires
            old(self).wf(),
            !old(self)@.accepted_any,
        ensures
            final(self).wf(),
            match spec_parse_manifest(bytes@) {
                None => r == Err::<(), SnapshotError>(SnapshotError::DeserializeError) && final(self)@ == old(self)@,
                Some(m) => {
                    &&& r == Ok::<(), SnapshotError>(())
                    &&& if old(self)@.manifest is None || m.slot > old(self)@.manifest.unwrap().slot {
                        final(self)@ == (ArchiveScannerView {
                            seekable: old(self)@.seekable,
                            manifest: Some(m),
                            matched: Seq::new(m.entries.len(), |i: int| false),
                            accepted_any: false,
                        })
                    } else {
                        final(self)@ == old(self)@
                    }
                },
            },
    {
        match parse_manifest(bytes) {
            Err(_) => Err(SnapshotError::DeserializeError),
            Ok(m) => {
                let replace = match &self.directory {
                    None => true,
                    Some(_) => m.slot > self.slot,
                };
                if replace {
                    let n = m.directory.len();
                    let mut matched: Vec<bool> = Vec::new();
                    let mut i: usize = 0;
                    while i < n
                        invariant
                            0 <= i <= n,
                            matched@ =~= Seq::new(i as nat, |k: int| false),
                        decreases n - i,
                    {
                        proof {
                            assert(matched@.push(false) =~= Seq::new((i + 1) as nat, |k: int| false));
                        }
                        matched.push(false);
                        i = i + 1;
                    }
                    proof {
                        lemma_count_true_all_false(matched@);
                    }
                    self.slot = m.slot;
                    self.directory = Some(m.directory);
                    self.matched = matched;
                    self.matched_count = 0;
                }
                Ok(())
            },
        }
    }

    /// Judge the scan once the container is exhausted.  Success is owed
    /// exactly when every directory entry was matched; otherwise the
    /// failure distinguishes "never found a manifest" from "manifest
    /// found but a declared shard never arrived".
    pub fn finish(&self) -> (r: Result<(), SnapshotError>)
        requires
            self.wf(),
        ensures
            match self@.manifest {
                None => r == Err::<(), SnapshotError>(SnapshotError::NoSnapshotManifest),
                Some(_) => {
                    if spec_count_true(self@.matched) == self@.matched.len() {
                        r == Ok::<(), SnapshotError>(())
                    } else {
                        r == Err::<(), SnapshotError>(SnapshotError::IOError)
                    }
                },
            },
    {
        match &self.directory {
            None => Err(SnapshotError::NoSnapshotManifest),
            Some(_) => {
                if self.matched_count == self.matched.len() {
                    Ok(())
                } else {
                    Err(SnapshotError::IOError)
                }
            },
        }
    }
}

/// A sequence of cleared flags counts zero.
proof fn lemma_count_true_all_false(s: Seq<bool>)
    requires
        forall|i: int| 0 <= i < s.len() ==> !s[i],
    ensures
        spec_count_true(s) == 0,
    decreases s.len(),
{
    if s.len() > 0 {
        lemma_count_true_all_false(s.drop_last());
    }
}

/// `av` is the shard a directory entry declared: same `(slot, id)` tag
/// and exactly the expected number of bytes.
pub open spec fn spec_shard_matches(av: AppendVecView, e: StorageEntry) -> bool {
    &&& av.slot == e.slot
    &&& av.id == e.id
    &&& av.bytes.len() == e.expected_len
}

/// Some already-yielded shard is the one `e` declares.
pub open spec fn spec_some_shard_matches(shards: Seq<AppendVec>, e: StorageEntry) -> bool {
    exists|k: int| 0 <= k < shards.len() && spec_shard_matches(#[trigger] shards[k]@, e)
}

/// When every flag is set, every flag counts.
pub proof fn lemma_count_true_all_true(s: Seq<bool>)
    requires
        forall|i: int| 0 <= i < s.len() ==> s[i],
    ensures
        spec_count_true(s) == s.len(),
    decreases s.len(),
{
    if s.len() > 0 {
        assert forall|i: int| 0 <= i < s.drop_last().len() implies s.drop_last()[i] by {
            assert(s[i]);
        }
        lemma_count_true_all_true(s.drop_last());
    }
}

/// Member `m` is the shard member entry `e` declares: an accounts
/// member carrying `e`'s key, holding exactly the expected bytes.
pub open spec fn spec_member_matches_entry(m: (Vec<u8>, Vec<u8>), e: StorageEntry) -> bool {
    &&& spec_classify_member(m.0@) == MemberClass::Accounts(e.slot, e.id)
    &&& m.1@.len() == e.expected_len
}

/// Member `g` holds the governing manifest `mv`: it parses to `mv`,
/// and every other manifest member parses, either to `mv` itself or to
/// a stale manifest for a strictly older slot — so the numerically
/// largest slot is `mv`'s.
#[verifier::opaque]
pub open spec fn spec_governing_manifest(
    members: Seq<(Vec<u8>, Vec<u8>)>,
    g: int,
    mv: ManifestView,
) -> bool {
    &&& 0 <= g < members.len()
    &&& spec_classify_member(members[g].0@) is Manifest
    &&& spec_parse_manifest(members[g].1@) == Some(mv)
    &&& forall|t: int|
        0 <= t < members.len() && (#[trigger] spec_classify_member(members[t].0@)) is Manifest
            ==> spec_parse_manifest(members[t].1@) is Some && (spec_parse_manifest(members[t].1@)
            == Some(mv) || spec_parse_manifest(members[t].1@).unwrap().slot < mv.slot)
}

/// A consistent container, relative to a governing manifest member `g`
/// parsing to `mv`: every accounts member is one that `mv`'s directory
/// declares, with the declared length; no two accounts members carry
/// the same key; every directory entry has its member; and on the
/// non-seekable sub-variant every accounts member comes after `g`, so
/// the manifest resolves before any shard must be validated.
#[verifier::opaque]
pub open spec fn spec_consistent_with(
    members: Seq<(Vec<u8>, Vec<u8>)>,
    seekable: bool,
    g: int,
    mv: ManifestView,
) -> bool {
    &&& spec_governing_manifest(members, g, mv)
    &&& forall|t: int|
        0 <= t < members.len() && (#[trigger] spec_classify_member(members[t].0@)) is Accounts
            ==> exists|j: int|
            0 <= j < mv.entries.len() && spec_member_matches_entry(
                members[t],
                #[trigger] mv.entries[j],
            )
    &&& forall|t1: int, t2: int|
        0 <= t1 < t2 < members.len() && (#[trigger] spec_classify_member(members[t1].0@))
            is Accounts && (#[trigger] spec_classify_member(members[t2].0@)) is Accounts
            ==> spec_classify_member(members[t1].0@) != spec_classify_member(members[t2].0@)
    &&& forall|j: int|
        0 <= j < mv.entries.len() ==> exists|t: int|
            0 <= t < members.len() && spec_member_matches_entry(
                #[trigger] members[t],
                #[trigger] mv.entries[j],
            )
    &&& (!seekable ==> forall|t: int|
        0 <= t < members.len() && (#[trigger] spec_classify_member(members[t].0@)) is Accounts
            ==> t > g)
}

/// The container is consistent with its manifest: some governing
/// manifest member exists for which `spec_consistent_with` holds.
pub open spec fn spec_consistent_container(members: Seq<(Vec<u8>, Vec<u8>)>, seekable: bool) -> bool {
    exists|g: int, mv: ManifestView| spec_consistent_with(members, seekable, g, mv)
}

/// Shard `av` was taken whole from some accounts member: that member
/// carries `av`'s key and exactly `av`'s bytes.
#[verifier::opaque]
pub open spec fn spec_shard_from_member(members: Seq<(Vec<u8>, Vec<u8>)>, av: AppendVecView) -> bool {
    exists|t: int|
        0 <= t < members.len() && (#[trigger] spec_classify_member(members[t].0@))
            == MemberClass::Accounts(av.slot, av.id) && members[t].1@ == av.bytes
}

/// Every still-unmatched entry has its member at or after position `i`.
#[verifier::opaque]
spec fn spec_entries_pending(
    members: Seq<(Vec<u8>, Vec<u8>)>,
    mv: ManifestView,
    matched: Seq<bool>,
    i: int,
) -> bool {
    forall|j: int|
        0 <= j < mv.entries.len() && !(#[trigger] matched[j]) ==> exists|t: int|
            i <= t < members.len() && spec_member_matches_entry(
                #[trigger] members[t],
                mv.entries[j],
            )
}

/// Every matched entry got its member from a position before `i`.
#[verifier::opaque]
spec fn spec_entries_matched_before(
    members: Seq<(Vec<u8>, Vec<u8>)>,
    mv: ManifestView,
    matched: Seq<bool>,
    i: int,
) -> bool {
    forall|j: int|
        0 <= j < mv.entries.len() && (#[trigger] matched[j]) ==> exists|t: int|
            0 <= t < i && spec_member_matches_entry(#[trigger] members[t], mv.entries[j])
}

/// Passing a non-accounts member leaves every pending witness ahead.
proof fn lemma_pending_skip(
    members: Seq<(Vec<u8>, Vec<u8>)>,
    mv: ManifestView,
    matched: Seq<bool>,
    i: int,
)
    requires
        0 <= i < members.len(),
        spec_entries_pending(members, mv, matched, i),
        !(spec_classify_member(members[i].0@) is Accounts),
    ensures
        spec_entries_pending(members, mv, matched, i + 1),
{
    reveal(spec_entries_pending);
    assert forall|j: int| 0 <= j < mv.entries.len() && !(#[trigger] matched[j]) implies exists|
        t: int,
    |
        i + 1 <= t < members.len() && spec_member_matches_entry(
            #[trigger] members[t],
            mv.entries[j],
        ) by {
        let t = choose|t: int|
            i <= t < members.len() && spec_member_matches_entry(
                #[trigger] members[t],
                mv.entries[j],
            );
        assert(spec_member_matches_entry(members[t], mv.entries[j]));
        assert(t != i);
    }
}

/// Accepting the member of entry `j0` at position `i` leaves every
/// other pending witness ahead: keys are unique, so no other entry's
/// member stands at `i`.
proof fn lemma_pending_accept(
    members: Seq<(Vec<u8>, Vec<u8>)>,
    mv: ManifestView,
    matched: Seq<bool>,
    i: int,
    j0: int,
)
    requires
        0 <= i < members.len(),
        0 <= j0 < mv.entries.len(),
        matched.len() == mv.entries.len(),
        spec_entries_pending(members, mv, matched, i),
        crate::solana::spec_unique_keys(mv.entries),
        spec_member_matches_entry(members[i], mv.entries[j0]),
    ensures
        spec_entries_pending(members, mv, matched.update(j0, true), i + 1),
{
    reveal(spec_entries_pending);
    let matched2 = matched.update(j0, true);
    assert forall|j: int| 0 <= j < mv.entries.len() && !(#[trigger] matched2[j]) implies exists|
        t: int,
    |
        i + 1 <= t < members.len() && spec_member_matches_entry(
            #[trigger] members[t],
            mv.entries[j],
        ) by {
        assert(j != j0);
        assert(!matched[j]);
        let t = choose|t: int|
            i <= t < members.len() && spec_member_matches_entry(
                #[trigger] members[t],
                mv.entries[j],
            );
        assert(spec_member_matches_entry(members[t], mv.entries[j]));
        if t == i {
            assert(mv.entries[j].slot == mv.entries[j0].slot && mv.entries[j].id
                == mv.entries[j0].id);
            if j < j0 {
                assert(!(mv.entries[j].slot == mv.entries[j0].slot && mv.entries[j].id
                    == mv.entries[j0].id));
            } else {
                assert(!(mv.entries[j0].slot == mv.entries[j].slot && mv.entries[j0].id
                    == mv.entries[j].id));
            }
        }
    }
}

/// The matched-before witnesses survive advancing past `i`, and the
/// entry matched at `i` gains `i` as its witness.
proof fn lemma_matched_before_advance(
    members: Seq<(Vec<u8>, Vec<u8>)>,
    mv: ManifestView,
    matched: Seq<bool>,
    i: int,
)
    requires
        spec_entries_matched_before(members, mv, matched, i),
    ensures
        spec_entries_matched_before(members, mv, matched, i + 1),
{
    reveal(spec_entries_matched_before);
    assert forall|j: int| 0 <= j < mv.entries.len() && (#[trigger] matched[j]) implies exists|
        t: int,
    |
        0 <= t < i + 1 && spec_member_matches_entry(#[trigger] members[t], mv.entries[j]) by {
        let t = choose|t: int|
            0 <= t < i && spec_member_matches_entry(#[trigger] members[t], mv.entries[j]);
        assert(spec_member_matches_entry(members[t], mv.entries[j]));
    }
}

/// In a consistent container the governing member index is in range.
proof fn lemma_consistent_bounds(
    members: Seq<(Vec<u8>, Vec<u8>)>,
    seekable: bool,
    g: int,
    mv0: ManifestView,
)
    requires
        spec_consistent_with(members, seekable, g, mv0),
    ensures
        0 <= g < members.len(),
{
    reveal(spec_consistent_with);
    reveal(spec_governing_manifest);
}

/// The governing member is classified as a manifest member.
proof fn lemma_governing_is_manifest(
    members: Seq<(Vec<u8>, Vec<u8>)>,
    seekable: bool,
    g: int,
    mv0: ManifestView,
)
    requires
        spec_consistent_with(members, seekable, g, mv0),
    ensures
        0 <= g < members.len(),
        spec_classify_member(members[g].0@) is Manifest,
{
    reveal(spec_consistent_with);
    reveal(spec_governing_manifest);
}

/// In a consistent container every manifest member parses, to the
/// governing manifest or to one for a strictly older slot; the
/// governing member itself parses to the governing manifest.
proof fn lemma_governing_parses(
    members: Seq<(Vec<u8>, Vec<u8>)>,
    seekable: bool,
    g: int,
    mv0: ManifestView,
    i: int,
)
    requires
        spec_consistent_with(members, seekable, g, mv0),
        0 <= i < members.len(),
        spec_classify_member(members[i].0@) is Manifest,
    ensures
        spec_parse_manifest(members[i].1@) is Some,
        spec_parse_manifest(members[i].1@) == Some(mv0) || spec_parse_manifest(
            members[i].1@,
        ).unwrap().slot < mv0.slot,
        i == g ==> spec_parse_manifest(members[i].1@) == Some(mv0),
{
    reveal(spec_consistent_with);
    reveal(spec_governing_manifest);
}

/// In a consistent container, an accounts member presented to a
/// scanner that tracks the governing directory is never rejected: the
/// directory is resolved, the key is found, the size is the declared
/// one, and the entry is still unmatched.
proof fn lemma_consistent_member_accepted(
    members: Seq<(Vec<u8>, Vec<u8>)>,
    seekable: bool,
    g: int,
    mv0: ManifestView,
    sc: ArchiveScannerView,
    i: int,
)
    requires
        spec_consistent_with(members, seekable, g, mv0),
        0 <= i < members.len(),
        spec_classify_member(members[i].0@) is Accounts,
        seekable ==> sc.manifest == Some(mv0),
        !seekable && i > g ==> sc.manifest == Some(mv0),
        sc.manifest == Some(mv0) ==> sc.matched.len() == mv0.entries.len()
            && spec_entries_matched_before(members, mv0, sc.matched, i),
    ensures
        sc.manifest == Some(mv0),
        !seekable ==> i > g,
        ({
            let cls = spec_classify_member(members[i].0@);
            match cls {
                MemberClass::Accounts(slot, id) => {
                    &&& spec_dir_find(mv0.entries, slot, id) is Some
                    &&& {
                        let j = spec_dir_find(mv0.entries, slot, id).unwrap();
                        &&& 0 <= j < mv0.entries.len()
                        &&& spec_member_matches_entry(members[i], mv0.entries[j])
                        &&& !sc.matched[j]
                    }
                },
                _ => false,
            }
        }),
{
    reveal(spec_consistent_with);
    reveal(spec_governing_manifest);
    reveal(spec_entries_matched_before);
    let cls = spec_classify_member(members[i].0@);
    match cls {
        MemberClass::Accounts(slot, id) => {
            if !seekable {
                assert(i > g);
            }
            assert(sc.manifest == Some(mv0));
            let j0 = choose|j: int|
                0 <= j < mv0.entries.len() && spec_member_matches_entry(
                    members[i],
                    #[trigger] mv0.entries[j],
                );
            assert(spec_member_matches_entry(members[i], mv0.entries[j0]));
            assert(mv0.entries[j0].slot == slot && mv0.entries[j0].id == id);
            crate::solana::lemma_dir_find_from_finds(mv0.entries, slot, id, 0);
            crate::solana::lemma_dir_find_from_range(mv0.entries, slot, id, 0);
            let j = spec_dir_find(mv0.entries, slot, id).unwrap();
            assert(crate::solana::spec_unique_keys(mv0.entries));
            if j != j0 {
                if j < j0 {
                    assert(!(mv0.entries[j].slot == mv0.entries[j0].slot && mv0.entries[j].id
                        == mv0.entries[j0].id));
                } else {
                    assert(!(mv0.entries[j0].slot == mv0.entries[j].slot && mv0.entries[j0].id
                        == mv0.entries[j].id));
                }
            }
            assert(j == j0);
            if sc.matched[j] {
                let t = choose|t: int|
                    0 <= t < i && spec_member_matches_entry(
                        #[trigger] members[t],
                        mv0.entries[j],
                    );
                assert(spec_member_matches_entry(members[t], mv0.entries[j]));
                assert(spec_classify_member(members[t].0@) is Accounts);
                assert(spec_classify_member(members[t].0@) != spec_classify_member(
                    members[i].0@,
                ));
                assert(false);
            }
        },
        _ => {},
    }
}

/// With nothing matched yet, every declared member is still ahead of
/// the start of the scan.
proof fn lemma_pending_initial(
    members: Seq<(Vec<u8>, Vec<u8>)>,
    seekable: bool,
    g: int,
    mv0: ManifestView,
    matched: Seq<bool>,
)
    requires
        spec_consistent_with(members, seekable, g, mv0),
        matched.len() == mv0.entries.len(),
        forall|t: int| 0 <= t < matched.len() ==> !(#[trigger] matched[t]),
    ensures
        spec_entries_pending(members, mv0, matched, 0),
        spec_entries_matched_before(members, mv0, matched, 0),
{
    reveal(spec_consistent_with);
    reveal(spec_entries_pending);
    reveal(spec_entries_matched_before);
    assert forall|j: int| 0 <= j < mv0.entries.len() && !(#[trigger] matched[j]) implies exists|
        t: int,
    |
        0 <= t < members.len() && spec_member_matches_entry(
            #[trigger] members[t],
            mv0.entries[j],
        ) by {
        let t = choose|t: int|
            0 <= t < members.len() && spec_member_matches_entry(
                #[trigger] members[t],
                mv0.entries[j],
            );
        assert(spec_member_matches_entry(members[t], mv0.entries[j]));
    }
}

/// When the directory resolves at position `i` on the non-seekable
/// sub-variant, every declared member is still ahead: consistency puts
/// every accounts member after the governing manifest member.
proof fn lemma_pending_after_resolve(
    members: Seq<(Vec<u8>, Vec<u8>)>,
    seekable: bool,
    g: int,
    mv0: ManifestView,
    matched: Seq<bool>,
    i: int,
)
    requires
        spec_consistent_with(members, seekable, g, mv0),
        matched.len() == mv0.entries.len(),
        !seekable,
        0 <= i <= g,
        forall|t: int| 0 <= t < matched.len() ==> !(#[trigger] matched[t]),
    ensures
        spec_entries_pending(members, mv0, matched, i + 1),
        spec_entries_matched_before(members, mv0, matched, i + 1),
{
    reveal(spec_consistent_with);
    reveal(spec_entries_pending);
    reveal(spec_entries_matched_before);
    assert forall|j: int| 0 <= j < mv0.entries.len() && !(#[trigger] matched[j]) implies exists|
        t: int,
    |
        i + 1 <= t < members.len() && spec_member_matches_entry(
            #[trigger] members[t],
            mv0.entries[j],
        ) by {
        let t = choose|t: int|
            0 <= t < members.len() && spec_member_matches_entry(
                #[trigger] members[t],
                mv0.entries[j],
            );
        assert(spec_member_matches_entry(members[t], mv0.entries[j]));
        assert(spec_classify_member(members[t].0@) is Accounts);
        assert(t > g);
    }
}

/// The matched-before witnesses survive an acceptance at `i`: the
/// accepted entry gains `i` itself as its witness.
proof fn lemma_matched_before_accept(
    members: Seq<(Vec<u8>, Vec<u8>)>,
    mv: ManifestView,
    matched: Seq<bool>,
    i: int,
    j0: int,
)
    requires
        0 <= i < members.len(),
        0 <= j0 < mv.entries.len(),
        matched.len() == mv.entries.len(),
        spec_entries_matched_before(members, mv, matched, i),
        spec_member_matches_entry(members[i], mv.entries[j0]),
    ensures
        spec_entries_matched_before(members, mv, matched.update(j0, true), i + 1),
{
    reveal(spec_entries_matched_before);
    let matched2 = matched.update(j0, true);
    assert forall|j: int| 0 <= j < mv.entries.len() && (#[trigger] matched2[j]) implies exists|
        t: int,
    |
        0 <= t < i + 1 && spec_member_matches_entry(#[trigger] members[t], mv.entries[j]) by {
        if j == j0 {
            assert(spec_member_matches_entry(members[i], mv.entries[j]));
        } else {
            assert(matched[j]);
            let t = choose|t: int|
                0 <= t < i && spec_member_matches_entry(#[trigger] members[t], mv.entries[j]);
            assert(spec_member_matches_entry(members[t], mv.entries[j]));
        }
    }
}

/// Once the whole container has been scanned, a consistent container
/// leaves no entry unmatched.
proof fn lemma_consistent_complete(
    members: Seq<(Vec<u8>, Vec<u8>)>,
    mv0: ManifestView,
    matched: Seq<bool>,
)
    requires
        spec_entries_pending(members, mv0, matched, members.len() as int),
        matched.len() == mv0.entries.len(),
    ensures
        spec_count_true(matched) == matched.len(),
{
    reveal(spec_entries_pending);
    assert forall|j: int| 0 <= j < matched.len() implies matched[j] by {
        if !matched[j] {
            let t = choose|t: int|
                members.len() as int <= t < members.len() && spec_member_matches_entry(
                    #[trigger] members[t],
                    mv0.entries[j],
                );
            assert(spec_member_matches_entry(members[t], mv0.entries[j]));
        }
    }
    lemma_count_true_all_true(matched);
}

/// Relation the extraction loop maintains between the scanner state,
/// the shards yielded so far, and the (ghost) directory index each
/// shard was matched against.
spec fn spec_driver_inv(sc: ArchiveScannerView, shards: Seq<AppendVec>, idxs: Seq<int>) -> bool {
    &&& idxs.len() == shards.len()
    &&& shards.len() == spec_count_true(sc.matched)
    &&& sc.accepted_any == (shards.len() > 0)
    &&& match sc.manifest {
        None => shards.len() == 0,
        Some(m) => {
            &&& sc.matched.len() == m.entries.len()
            &&& crate::solana::spec_unique_keys(m.entries)
            &&& forall|k: int|
                0 <= k < shards.len() ==> 0 <= #[trigger] idxs[k] < m.entries.len()
                    && sc.matched[idxs[k]] && spec_shard_matches(shards[k]@, m.entries[idxs[k]])
            &&& forall|k1: int, k2: int|
                0 <= k1 < k2 < shards.len() ==> #[trigger] idxs[k1] != #[trigger] idxs[k2]
            &&& forall|j: int|
                0 <= j < sc.matched.len() && sc.matched[j] ==> exists|k: int|
                    0 <= k < shards.len() && #[trigger] idxs[k] == j
        },
    }
}

/// Scan an archive held in memory as `(path, bytes)` members, in
/// archive order, and extract every declared shard.  On success the
/// scan is complete: the returned shards match the directory of the
/// governing manifest one for one — every directory entry exactly
/// once, with its declared length — no two shards share a `(slot, id)`
/// key, and each shard's bytes are exactly the bytes of the accounts
/// member it was matched from.  Success is owed: on any consistent
/// container (`spec_consistent_container`) extraction returns `Ok`.
/// On the non-seekable sub-variant an accounts member ahead of
/// manifest resolution fails the extraction.
#[verifier::rlimit(100)]
pub fn extract_from_archive_members(members: &Vec<(Vec<u8>, Vec<u8>)>, seekable: bool) -> (r:
    Result<(ArchiveScanner, Vec<AppendVec>), SnapshotError>)
    requires
        forall|t: int|
            0 <= t < members@.len() ==> (#[trigger] members@[t]).1@.len() + 7 <= usize::MAX,
    ensures
        match r {
            Ok(pair) => {
                let sc = pair.0;
                let shards = pair.1;
                &&& sc@.manifest is Some
                &&& spec_count_true(sc@.matched) == sc@.matched.len()
                &&& shards@.len() == sc@.manifest.unwrap().entries.len()
                &&& forall|j: int|
                    0 <= j < sc@.manifest.unwrap().entries.len() ==> spec_some_shard_matches(
                        shards@,
                        #[trigger] sc@.manifest.unwrap().entries[j],
                    )
                &&& forall|k1: int, k2: int|
                    0 <= k1 < k2 < shards@.len() ==> !(shards@[k1]@.slot == shards@[k2]@.slot
                        && shards@[k1]@.id == shards@[k2]@.id)
                &&& forall|k: int|
                    0 <= k < shards@.len() ==> spec_shard_from_member(
                        members@,
                        (#[trigger] shards@[k])@,
                    )
            },
            Err(_) => !spec_consistent_container(members@, seekable),
        },
{
    let ghost con = spec_consistent_container(members@, seekable);
    let ghost gq: (int, ManifestView) = if con {
        choose|g: int, mv: ManifestView| spec_consistent_with(members@, seekable, g, mv)
    } else {
        (0int, ManifestView { slot: 0u64, entries: Seq::empty() })
    };
    let ghost g = gq.0;
    let ghost mv0 = gq.1;
    proof {
        if con {
            assert(spec_consistent_with(members@, seekable, g, mv0));
            lemma_consistent_bounds(members@, seekable, g, mv0);
        }
    }
    let mut scanner = ArchiveScanner::new(seekable);
    if seekable {
        // Manifest discovery pass: resolve the governing manifest
        // before any accounts member is validated, then reread.
        let mut i: usize = 0;
        while i < members.len()
            invariant
                0 <= i <= members@.len(),
                scanner.wf(),
                scanner@.seekable == seekable,
                !scanner@.accepted_any,
                forall|t: int| 0 <= t < scanner@.matched.len() ==> !(#[trigger] scanner@.matched[t]),
                match scanner@.manifest {
                    Some(m) => scanner@.matched.len() == m.entries.len()
                        && crate::solana::spec_unique_keys(m.entries),
                    None => scanner@.matched.len() == 0,
                },
                con == spec_consistent_container(members@, seekable),
                con ==> spec_consistent_with(members@, seekable, g, mv0),
                con ==> 0 <= g < members@.len(),
                con ==> (match scanner@.manifest {
                    None => true,
                    Some(m) => m == mv0 || m.slot < mv0.slot,
                }),
                con && i > g ==> scanner@.manifest == Some(mv0),
            decreases members@.len() - i,
        {
            let m = &members[i];
            let ghost pre1 = scanner@;
            match classify_member(m.0.as_slice()) {
                MemberClass::Manifest(_) => {
                    match scanner.supply_manifest(m.1.as_slice()) {
                        Err(e) => {
                            proof {
                                if con {
                                    lemma_governing_parses(members@, seekable, g, mv0, i as int);
                                }
                            }
                            return Err(e);
                        },
                        Ok(_) => {
                            proof {
                                let mvopt = spec_parse_manifest(members@[i as int].1@);
                                if mvopt is Some {
                                    let mv = mvopt.unwrap();
                                    if pre1.manifest is None || mv.slot
                                        > pre1.manifest.unwrap().slot {
                                        assert forall|t: int|
                                            0 <= t < scanner@.matched.len() implies !(scanner@
                                            .matched[t]) by {}
                                    }
                                }
                                if con {
                                    lemma_governing_parses(members@, seekable, g, mv0, i as int);
                                    if i as int == g {
                                        assert(scanner@.manifest == Some(mv0));
                                    }
                                }
                            }
                        },
                    }
                },
                _ => {
                    proof {
                        if con && i as int == g {
                            lemma_governing_is_manifest(members@, seekable, g, mv0);
                            assert(false);
                        }
                    }
                },
            }
            i = i + 1;
        }
    }
    let mut shards: Vec<AppendVec> = Vec::new();
    let ghost mut idxs: Seq<int> = Seq::empty();
    proof {
        lemma_count_true_all_false(scanner@.matched);
        assert(shards@ =~= Seq::<AppendVec>::empty());
        if con && scanner@.manifest == Some(mv0) {
            lemma_pending_initial(members@, seekable, g, mv0, scanner@.matched);
        }
    }
    let mut i: usize = 0;
    while i < members.len()
        invariant
            0 <= i <= members@.len(),
            scanner.wf(),
            scanner@.seekable == seekable,
            spec_driver_inv(scanner@, shards@, idxs),
            forall|t: int|
                0 <= t < members@.len() ==> (#[trigger] members@[t]).1@.len() + 7 <= usize::MAX,
            forall|k: int|
                0 <= k < shards@.len() ==> spec_shard_from_member(
                    members@,
                    (#[trigger] shards@[k])@,
                ),
            con == spec_consistent_container(members@, seekable),
            con ==> spec_consistent_with(members@, seekable, g, mv0),
            con ==> 0 <= g < members@.len(),
            con ==> (match scanner@.manifest {
                None => true,
                Some(m) => m == mv0 || m.slot < mv0.slot,
            }),
            con && (seekable || i > g) ==> scanner@.manifest == Some(mv0),
            con && !seekable && i <= g ==> shards@.len() == 0,
            con && scanner@.manifest == Some(mv0) ==> spec_entries_pending(
                members@,
                mv0,
                scanner@.matched,
                i as int,
            ),
            con && scanner@.manifest == Some(mv0) ==> spec_entries_matched_before(
                members@,
                mv0,
                scanner@.matched,
                i as int,
            ),
        ensures
            i == members@.len() || (scanner@.manifest is Some && spec_count_true(scanner@.matched)
                == scanner@.matched.len()),
        decreases members@.len() - i,
    {
        let m = &members[i];
        let ghost pre = scanner@;
        match scanner.on_member(m.0.as_slice(), m.1.len() as u64) {
            Err(e) => {
                proof {
                    if con {
                        match spec_classify_member(members@[i as int].0@) {
                            MemberClass::Accounts(slot, id) => {
                                lemma_consistent_member_accepted(
                                    members@,
                                    seekable,
                                    g,
                                    mv0,
                                    pre,
                                    i as int,
                                );
                                assert(false);
                            },
                            _ => {},
                        }
                    }
                }
                return Err(e);
            },
            Ok(MemberAction::Skip) => {
                proof {
                    if con {
                        match spec_classify_member(members@[i as int].0@) {
                            MemberClass::Accounts(slot, id) => {
                                lemma_consistent_member_accepted(
                                    members@,
                                    seekable,
                                    g,
                                    mv0,
                                    pre,
                                    i as int,
                                );
                                assert(false);
                            },
                            MemberClass::Manifest(_) => {
                                if !seekable && i as int == g {
                                    // a manifest member is skipped only once a
                                    // shard was accepted, which consistency
                                    // forbids before the governing member
                                    assert(pre.accepted_any);
                                    assert(false);
                                }
                                if scanner@.manifest == Some(mv0) {
                                    lemma_pending_skip(members@, mv0, scanner@.matched, i as int);
                                    lemma_matched_before_advance(
                                        members@,
                                        mv0,
                                        scanner@.matched,
                                        i as int,
                                    );
                                }
                            },
                            MemberClass::Other => {
                                if i as int == g {
                                    lemma_governing_is_manifest(members@, seekable, g, mv0);
                                    assert(false);
                                }
                                if scanner@.manifest == Some(mv0) {
                                    lemma_pending_skip(members@, mv0, scanner@.matched, i as int);
                                    lemma_matched_before_advance(
                                        members@,
                                        mv0,
                                        scanner@.matched,
                                        i as int,
                                    );
                                }
                            },
                        }
                    }
                }
            },
            Ok(MemberAction::ReadManifest) => {
                proof {
                    assert(!pre.accepted_any);
                    assert(shards@.len() == 0);
                }
                match scanner.supply_manifest(m.1.as_slice()) {
                    Err(e) => {
                        proof {
                            if con {
                                lemma_governing_parses(members@, seekable, g, mv0, i as int);
                            }
                        }
                        return Err(e);
                    },
                    Ok(_) => {
                        proof {
                            let mvopt = spec_parse_manifest(members@[i as int].1@);
                            if mvopt is Some {
                                let mv = mvopt.unwrap();
                                if pre.manifest is None || mv.slot > pre.manifest.unwrap().slot {
                                    assert forall|t: int|
                                        0 <= t < scanner@.matched.len() implies !scanner@.matched[t]
                                    by {}
                                    lemma_count_true_all_false(scanner@.matched);
                                }
                            }
                            if con {
                                lemma_governing_parses(members@, seekable, g, mv0, i as int);
                                if i as int == g {
                                    assert(scanner@.manifest == Some(mv0));
                                }
                                if scanner@.manifest == Some(mv0) {
                                    if scanner@.matched == pre.matched && pre.manifest == Some(
                                        mv0,
                                    ) {
                                        lemma_pending_skip(
                                            members@,
                                            mv0,
                                            scanner@.matched,
                                            i as int,
                                        );
                                        lemma_matched_before_advance(
                                            members@,
                                            mv0,
                                            scanner@.matched,
                                            i as int,
                                        );
                                    } else {
                                        // the directory was just rebuilt: nothing is
                                        // matched, and resolution happens at or before
                                        // the governing member, so every declared
                                        // member is still ahead
                                        assert(pre.manifest != Some(mv0));
                                        assert(!seekable && i as int <= g);
                                        lemma_pending_after_resolve(
                                            members@,
                                            seekable,
                                            g,
                                            mv0,
                                            scanner@.matched,
                                            i as int,
                                        );
                                    }
                                }
                            }
                        }
                    },
                }
            },
            Ok(MemberAction::ReadShard(entry)) => {
                let bytes = vstd::slice::slice_to_vec(m.1.as_slice());
                let ghost bv = bytes@;
                match shard_from_bytes(entry, bytes) {
                    Err(e) => {
                        proof {
                            assert(bv.len() == entry.expected_len);
                            assert(false);
                        }
                        return Err(e);
                    },
                    Ok(av) => {
                        let ghost old_idxs = idxs;
                        let ghost old_shards = shards@;
                        proof {
                            let cls = spec_classify_member(members@[i as int].0@);
                            match cls {
                                MemberClass::Accounts(slot, id) => {
                                    let mv = pre.manifest.unwrap();
                                    let j = spec_dir_find(mv.entries, slot, id).unwrap();
                                    crate::solana::lemma_dir_find_from_range(
                                        mv.entries,
                                        slot,
                                        id,
                                        0,
                                    );
                                    lemma_count_true_update(pre.matched, j);
                                    assert forall|k: int| 0 <= k < idxs.len() implies idxs[k] != j
                                    by {
                                        assert(pre.matched[idxs[k]]);
                                    }
                                    idxs = idxs.push(j);
                                },
                                _ => {
                                    assert(false);
                                },
                            }
                        }
                        shards.push(av);
                        proof {
                            let cls = spec_classify_member(members@[i as int].0@);
                            match cls {
                                MemberClass::Accounts(slot, id) => {
                                    let mv = pre.manifest.unwrap();
                                    let j = spec_dir_find(mv.entries, slot, id).unwrap();
                                    assert(shards@ == old_shards.push(av));
                                    assert(idxs == old_idxs.push(j));
                                    assert(spec_shard_matches(av@, mv.entries[j]));
                                    assert forall|j2: int|
                                        0 <= j2 < scanner@.matched.len() && scanner@.matched[j2]
                                            implies exists|k: int|
                                        0 <= k < shards@.len() && #[trigger] idxs[k] == j2 by {
                                        if j2 == j {
                                            assert(idxs[old_idxs.len() as int] == j2);
                                        } else {
                                            assert(pre.matched[j2]);
                                            let k = choose|k: int|
                                                0 <= k < old_shards.len() && #[trigger] old_idxs[k]
                                                    == j2;
                                            assert(idxs[k] == j2);
                                        }
                                    }
                                    assert forall|k: int| 0 <= k < shards@.len() implies 0 <= (
                                    #[trigger] idxs[k]) < mv.entries.len() && scanner@
                                        .matched[idxs[k]] && spec_shard_matches(
                                        shards@[k]@,
                                        mv.entries[idxs[k]],
                                    ) by {
                                        if k < old_shards.len() {
                                            assert(old_idxs[k] == idxs[k]);
                                            assert(old_shards[k] == shards@[k]);
                                            assert(pre.matched[idxs[k]]);
                                        } else {
                                            assert(idxs[k] == j);
                                            assert(shards@[k] == av);
                                        }
                                    }
                                    // the new shard came whole from this member
                                    assert(spec_shard_from_member(members@, av@)) by {
                                        reveal(spec_shard_from_member);
                                        assert(spec_classify_member(members@[i as int].0@)
                                            == MemberClass::Accounts(av@.slot, av@.id));
                                        assert(members@[i as int].1@ == av@.bytes);
                                    }
                                    assert forall|k: int|
                                        0 <= k < shards@.len() implies spec_shard_from_member(
                                        members@,
                                        (#[trigger] shards@[k])@,
                                    ) by {
                                        if k < old_shards.len() {
                                            assert(old_shards[k] == shards@[k]);
                                        } else {
                                            assert(shards@[k] == av);
                                        }
                                    }
                                    if con {
                                        lemma_consistent_member_accepted(
                                            members@,
                                            seekable,
                                            g,
                                            mv0,
                                            pre,
                                            i as int,
                                        );
                                        lemma_pending_accept(
                                            members@,
                                            mv0,
                                            pre.matched,
                                            i as int,
                                            j,
                                        );
                                        lemma_matched_before_accept(
                                            members@,
                                            mv0,
                                            pre.matched,
                                            i as int,
                                            j,
                                        );
                                    }
                                },
                                _ => {
                                    assert(false);
                                },
                            }
                        }
                    },
                }
            },
        }
        i = i + 1;
        if scanner.is_complete() {
            break;
        }
    }
    match scanner.finish() {
        Err(e) => {
            proof {
                if con {
                    assert(i == members@.len());
                    assert(scanner@.manifest == Some(mv0));
                    lemma_consistent_complete(members@, mv0, scanner@.matched);
                    assert(false);
                }
            }
            Err(e)
        },
        Ok(_) => {
            proof {
                let mv = scanner@.manifest.unwrap();
                lemma_count_true_full(scanner@.matched);
                assert(shards@.len() == mv.entries.len());
                assert forall|j: int| 0 <= j < mv.entries.len() implies spec_some_shard_matches(
                    shards@,
                    #[trigger] mv.entries[j],
                ) by {
                    assert(scanner@.matched[j]);
                    let k = choose|k: int| 0 <= k < shards@.len() && idxs[k] == j;
                    assert(spec_shard_matches(shards@[k]@, mv.entries[j]));
                }
                assert forall|k1: int, k2: int| 0 <= k1 < k2 < shards@.len() implies !(
                shards@[k1]@.slot == shards@[k2]@.slot && shards@[k1]@.id == shards@[k2]@.id) by {
                    assert(spec_shard_matches(shards@[k1]@, mv.entries[idxs[k1]]));
                    assert(spec_shard_matches(shards@[k2]@, mv.entries[idxs[k2]]));
                    assert(idxs[k1] != idxs[k2]);
                }
            }
            Ok((scanner, shards))
        },
    }
}

/// Build the shard for an accepted accounts member from the bytes the
/// caller read.  Exactly the expected length must have arrived;
/// anything shorter or longer is a short or corrupt read.
pub fn shard_from_bytes(entry: StorageEntry, bytes: Vec<u8>) -> (r: Result<
    AppendVec,
    SnapshotError,
>)
    requires
        bytes@.len() + 7 <= usize::MAX,
    ensures
        if bytes@.len() == entry.expected_len {
            r matches Ok(av) && av@ == (AppendVecView {
                slot: entry.slot,
                id: entry.id,
                bytes: bytes@,
            })
        } else {
            r matches Err(e) && e is IOError
        },
{
    if bytes.len() as u64 == entry.expected_len {
        Ok(AppendVec::new(entry.slot, entry.id, bytes))
    } else {
        Err(SnapshotError::IOError)
    }
}

} // verus!
