use solana_snapshot_etl::archived::extract_from_archive_members;
use solana_snapshot_etl::archived::ArchiveScanner;
use solana_snapshot_etl::archived::MemberAction;
use solana_snapshot_etl::SnapshotError;

fn p64(v: &mut Vec<u8>, x: u64) {
    for b in x.to_le_bytes() {
        v.push(b);
    }
}

fn manifest_bytes(slot: u64, entries: &[(u64, u64, u64)]) -> Vec<u8> {
    let mut v = Vec::new();
    p64(&mut v, 1);
    p64(&mut v, slot);
    p64(&mut v, entries.len() as u64);
    for (s, i, l) in entries {
        p64(&mut v, *s);
        p64(&mut v, *i);
        p64(&mut v, *l);
    }
    v
}

fn member(name: &str, bytes: Vec<u8>) -> (Vec<u8>, Vec<u8>) {
    (name.as_bytes().to_vec(), bytes)
}

const L1: usize = 16;
const L2: usize = 24;

fn two_shard_manifest() -> Vec<u8> {
    manifest_bytes(100, &[(100, 1, L1 as u64), (100, 2, L2 as u64)])
}

fn keys_of(shards: &[solana_snapshot_etl::append_vec::AppendVec]) -> Vec<(u64, u64)> {
    let mut ks: Vec<(u64, u64)> = shards.iter().map(|a| (a.slot(), a.id())).collect();
    ks.sort();
    ks
}

#[test]
fn archive_manifest_before_shards_yields_both() {
    let members = vec![
        member("version", vec![7]),
        member("snapshots/100/100", two_shard_manifest()),
        member("accounts/100.1", vec![1u8; L1]),
        member("accounts/100.2", vec![2u8; L2]),
    ];
    let (sc, shards) = extract_from_archive_members(&members, false).unwrap();
    assert_eq!(sc.manifest_slot(), Some(100));
    assert_eq!(shards.len(), 2);
    assert_eq!(keys_of(&shards), vec![(100, 1), (100, 2)]);
    assert_eq!(shards[0].len(), L1);
    assert_eq!(shards[1].len(), L2);
    // each shard carries exactly its member's bytes
    assert_eq!(shards[0].bytes().clone(), vec![1u8; L1]);
    assert_eq!(shards[1].bytes().clone(), vec![2u8; L2]);
}

#[test]
fn archive_accounts_before_manifest_fails_on_stream() {
    let members = vec![
        member("accounts/100.1", vec![1u8; L1]),
        member("snapshots/100/100", two_shard_manifest()),
        member("accounts/100.2", vec![2u8; L2]),
    ];
    let r = extract_from_archive_members(&members, false);
    assert!(matches!(r, Err(SnapshotError::UnexpectedAppendVec)));
}

#[test]
fn archive_accounts_before_manifest_ok_when_seekable() {
    let members = vec![
        member("accounts/100.1", vec![1u8; L1]),
        member("snapshots/100/100", two_shard_manifest()),
        member("accounts/100.2", vec![2u8; L2]),
    ];
    let (_, shards) = extract_from_archive_members(&members, true).unwrap();
    assert_eq!(keys_of(&shards), vec![(100, 1), (100, 2)]);
}

#[test]
fn archive_undeclared_shard_fails() {
    let members = vec![
        member("snapshots/100/100", two_shard_manifest()),
        member("accounts/999.9", vec![0u8; 8]),
    ];
    let r = extract_from_archive_members(&members, false);
    assert!(matches!(r, Err(SnapshotError::UnexpectedAppendVec)));
}

#[test]
fn archive_length_mismatch_fails() {
    let members = vec![
        member("snapshots/100/100", two_shard_manifest()),
        member("accounts/100.1", vec![0u8; L1 + 1]),
    ];
    let r = extract_from_archive_members(&members, false);
    assert!(matches!(r, Err(SnapshotError::UnexpectedAppendVec)));
}

#[test]
fn archive_without_manifest_fails() {
    let members = vec![member("version", vec![1])];
    let r = extract_from_archive_members(&members, false);
    assert!(matches!(r, Err(SnapshotError::NoSnapshotManifest)));
}

#[test]
fn archive_missing_declared_shard_fails_short() {
    let members = vec![
        member("snapshots/100/100", two_shard_manifest()),
        member("accounts/100.1", vec![1u8; L1]),
    ];
    let r = extract_from_archive_members(&members, false);
    assert!(matches!(r, Err(SnapshotError::IOError)));
}

#[test]
fn archive_largest_slot_manifest_governs() {
    let stale = manifest_bytes(90, &[(90, 1, 8)]);
    let governing = manifest_bytes(100, &[(100, 1, L1 as u64)]);
    let members = vec![
        member("snapshots/90/90", stale.clone()),
        member("snapshots/100/100", governing.clone()),
        member("accounts/100.1", vec![0u8; L1]),
    ];
    let (sc, shards) = extract_from_archive_members(&members, false).unwrap();
    assert_eq!(sc.manifest_slot(), Some(100));
    assert_eq!(keys_of(&shards), vec![(100, 1)]);

    // The same container with the stale manifest after the governing
    // one resolves identically.
    let members2 = vec![
        member("snapshots/100/100", governing),
        member("snapshots/90/90", stale),
        member("accounts/100.1", vec![0u8; L1]),
    ];
    let (_, shards2) = extract_from_archive_members(&members2, false).unwrap();
    assert_eq!(keys_of(&shards2), vec![(100, 1)]);
}

#[test]
fn archive_stops_once_complete() {
    // Once every directory entry is matched the rest of the container
    // is ignored, even members that would otherwise be rejected.
    let members = vec![
        member("snapshots/100/100", two_shard_manifest()),
        member("accounts/100.1", vec![1u8; L1]),
        member("accounts/100.2", vec![2u8; L2]),
        member("accounts/999.9", vec![0u8; 8]),
    ];
    let (_, shards) = extract_from_archive_members(&members, false).unwrap();
    assert_eq!(shards.len(), 2);
}

#[test]
fn archive_duplicate_member_fails() {
    let members = vec![
        member("snapshots/100/100", two_shard_manifest()),
        member("accounts/100.1", vec![1u8; L1]),
        member("accounts/100.1", vec![1u8; L1]),
    ];
    let r = extract_from_archive_members(&members, false);
    assert!(matches!(r, Err(SnapshotError::UnexpectedAppendVec)));
}

#[test]
fn archive_bad_manifest_blob_fails() {
    let members = vec![member("snapshots/100/100", vec![0u8; 4])];
    let r = extract_from_archive_members(&members, false);
    assert!(matches!(r, Err(SnapshotError::DeserializeError)));
}

#[test]
fn scanner_actions_step_by_step() {
    let mut sc = ArchiveScanner::new(false);
    assert!(!sc.is_complete());
    assert!(matches!(
        sc.on_member(b"version", 1),
        Ok(MemberAction::Skip)
    ));
    assert!(matches!(
        sc.on_member(b"snapshots/100/100", 72),
        Ok(MemberAction::ReadManifest)
    ));
    sc.supply_manifest(&two_shard_manifest()).unwrap();
    match sc.on_member(b"accounts/100.1", L1 as u64) {
        Ok(MemberAction::ReadShard(e)) => {
            assert_eq!((e.slot, e.id, e.expected_len), (100, 1, L1 as u64));
        }
        other => panic!("unexpected action: {:?}", other),
    }
    assert!(!sc.is_complete());
    assert!(matches!(
        sc.on_member(b"accounts/100.2", L2 as u64),
        Ok(MemberAction::ReadShard(_))
    ));
    assert!(sc.is_complete());
    assert!(sc.finish().is_ok());
}
