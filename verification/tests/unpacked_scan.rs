use solana_snapshot_etl::unpacked::UnpackedSnapshotExtractor;
use solana_snapshot_etl::SnapshotError;

fn p64(v: &mut Vec<u8>, x: u64) {
    for b in x.to_le_bytes() {
        v.push(b);
    }
}

fn manifest_bytes(slot: u64, entries: &[(u64, u64, u64)]) -> Vec<u8> {
    let mut v = Vec::new();
    p64(&mut v, 1);
    p64(&mut v, slot);
    p64(&mut v, entries.len() as u64);
    for (s, i, l) in entries {
        p64(&mut v, *s);
        p64(&mut v, *i);
        p64(&mut v, *l);
    }
    v
}

#[test]
fn unpacked_extracts_every_declared_shard() {
    let m = manifest_bytes(100, &[(100, 1, 16), (100, 2, 8)]);
    let mut x = UnpackedSnapshotExtractor::new(&m).unwrap();
    assert_eq!(x.slot(), 100);
    let mut got = Vec::new();
    while let Some(e) = x.next_request() {
        let bytes = vec![0u8; e.expected_len as usize];
        let av = x.supply_file(bytes).unwrap();
        got.push((av.slot(), av.id(), av.len()));
    }
    assert_eq!(got, vec![(100, 1, 16), (100, 2, 8)]);
    assert!(x.next_request().is_none());
}

#[test]
fn unpacked_missing_file_fails_and_stops() {
    let m = manifest_bytes(100, &[(100, 1, 16), (100, 2, 8)]);
    let mut x = UnpackedSnapshotExtractor::new(&m).unwrap();
    let first = x.next_request().unwrap();
    assert_eq!((first.slot, first.id), (100, 1));
    // The declared file is absent on disk: extraction fails with an
    // I/O error and yields no further shards after that point.
    let e = x.report_io_error();
    assert!(matches!(e, SnapshotError::IOError));
    assert!(x.next_request().is_none());
}

#[test]
fn unpacked_length_mismatch_fails_and_stops() {
    let m = manifest_bytes(100, &[(100, 1, 16)]);
    let mut x = UnpackedSnapshotExtractor::new(&m).unwrap();
    assert!(x.next_request().is_some());
    let r = x.supply_file(vec![0u8; 15]);
    assert!(matches!(r, Err(SnapshotError::IOError)));
    assert!(x.next_request().is_none());
}

#[test]
fn unpacked_rejects_bad_manifest() {
    let mut m = manifest_bytes(100, &[]);
    m[0] = 9;
    assert!(matches!(
        UnpackedSnapshotExtractor::new(&m),
        Err(SnapshotError::DeserializeError)
    ));
}

#[test]
fn unpacked_empty_directory_is_exhausted_at_once() {
    let m = manifest_bytes(5, &[]);
    let x = UnpackedSnapshotExtractor::new(&m).unwrap();
    assert!(x.next_request().is_none());
}
