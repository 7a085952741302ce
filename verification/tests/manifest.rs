use solana_snapshot_etl::solana::parse_manifest;
use solana_snapshot_etl::SnapshotError;

fn p64(v: &mut Vec<u8>, x: u64) {
    for b in x.to_le_bytes() {
        v.push(b);
    }
}

fn manifest_bytes(slot: u64, entries: &[(u64, u64, u64)]) -> Vec<u8> {
    let mut v = Vec::new();
    p64(&mut v, 1); // version tag
    p64(&mut v, slot);
    p64(&mut v, entries.len() as u64);
    for (s, i, l) in entries {
        p64(&mut v, *s);
        p64(&mut v, *i);
        p64(&mut v, *l);
    }
    v
}

#[test]
fn parse_manifest_builds_directory() {
    let b = manifest_bytes(100, &[(100, 1, 616), (100, 2, 136)]);
    let m = parse_manifest(&b).unwrap();
    assert_eq!(m.slot, 100);
    assert_eq!(m.directory.len(), 2);
    assert_eq!(m.directory.lookup(100, 1), Some(616));
    assert_eq!(m.directory.lookup(100, 2), Some(136));
    assert_eq!(m.directory.lookup(100, 3), None);
    assert_eq!(m.directory.lookup(99, 1), None);
    let e0 = m.directory.entry(0);
    assert_eq!((e0.slot, e0.id, e0.expected_len), (100, 1, 616));
}

#[test]
fn parse_manifest_rejects_bad_version() {
    let mut b = manifest_bytes(100, &[]);
    b[0] = 2;
    assert!(matches!(
        parse_manifest(&b),
        Err(SnapshotError::DeserializeError)
    ));
}

#[test]
fn parse_manifest_rejects_truncated_header() {
    let b = manifest_bytes(100, &[]);
    assert!(matches!(
        parse_manifest(&b[..16]),
        Err(SnapshotError::DeserializeError)
    ));
}

#[test]
fn parse_manifest_rejects_truncated_entries() {
    let mut b = manifest_bytes(100, &[(100, 1, 8)]);
    b.truncate(b.len() - 1);
    assert!(matches!(
        parse_manifest(&b),
        Err(SnapshotError::DeserializeError)
    ));
}

#[test]
fn parse_manifest_rejects_duplicate_key() {
    let b = manifest_bytes(100, &[(100, 1, 8), (100, 1, 16)]);
    assert!(matches!(
        parse_manifest(&b),
        Err(SnapshotError::DeserializeError)
    ));
}

#[test]
fn parse_manifest_ignores_trailing_bytes() {
    let mut b = manifest_bytes(7, &[(7, 1, 24)]);
    b.extend_from_slice(&[0xde, 0xad, 0xbe, 0xef]);
    let m = parse_manifest(&b).unwrap();
    assert_eq!(m.slot, 7);
    assert_eq!(m.directory.lookup(7, 1), Some(24));
}

#[test]
fn directory_rebuild_is_idempotent() {
    let b = manifest_bytes(100, &[(100, 1, 616), (100, 2, 136), (99, 7, 8)]);
    let m1 = parse_manifest(&b).unwrap();
    let m2 = parse_manifest(&b).unwrap();
    assert_eq!(m1.slot, m2.slot);
    assert_eq!(m1.directory.len(), m2.directory.len());
    for i in 0..m1.directory.len() {
        let a = m1.directory.entry(i);
        let b2 = m2.directory.entry(i);
        assert_eq!((a.slot, a.id, a.expected_len), (b2.slot, b2.id, b2.expected_len));
    }
}

#[test]
fn parse_manifest_empty_directory() {
    let b = manifest_bytes(3, &[]);
    let m = parse_manifest(&b).unwrap();
    assert_eq!(m.directory.len(), 0);
    assert_eq!(m.directory.lookup(3, 0), None);
}
