use solana_snapshot_etl::append_vec::AppendVec;
use solana_snapshot_etl::append_vec_iter;
use solana_snapshot_etl::StoredAccountMetaHandle;

fn p64(v: &mut Vec<u8>, x: u64) {
    for b in x.to_le_bytes() {
        v.push(b);
    }
}

fn record_bytes(
    wv: u64,
    pk: u8,
    lamports: u64,
    rent_epoch: u64,
    owner: u8,
    executable: bool,
    data: &[u8],
) -> Vec<u8> {
    let mut v = Vec::new();
    p64(&mut v, wv);
    p64(&mut v, data.len() as u64);
    for _ in 0..32 {
        v.push(pk);
    }
    p64(&mut v, lamports);
    p64(&mut v, rent_epoch);
    for _ in 0..32 {
        v.push(owner);
    }
    v.push(if executable { 1 } else { 0 });
    while v.len() < 136 {
        v.push(0);
    }
    v.extend_from_slice(data);
    while v.len() % 8 != 0 {
        v.push(0);
    }
    v
}

#[test]
fn single_record_roundtrip() {
    let data = [1u8, 2, 3];
    let buf = record_bytes(7, 0xaa, 500, 2, 0xbb, true, &data);
    let av = AppendVec::new(100, 1, buf);
    let handles = append_vec_iter(&av);
    assert_eq!(handles.len(), 1);
    let meta = handles[0].access().unwrap();
    assert_eq!(meta.write_version, 7);
    assert_eq!(meta.data_len, 3);
    assert_eq!(meta.pubkey, vec![0xaa; 32]);
    assert_eq!(meta.lamports, 500);
    assert_eq!(meta.rent_epoch, 2);
    assert_eq!(meta.owner, vec![0xbb; 32]);
    assert!(meta.executable);
    assert_eq!(meta.data, vec![1, 2, 3]);
}

#[test]
fn concatenated_records_decode_in_order() {
    let d1 = [9u8, 8, 7, 6, 5];
    let d2 = [0u8; 17];
    let d3 = [42u8];
    let mut buf = record_bytes(1, 1, 10, 0, 2, false, &d1);
    buf.extend_from_slice(&record_bytes(2, 3, 20, 1, 4, true, &d2));
    buf.extend_from_slice(&record_bytes(3, 5, 30, 2, 6, false, &d3));
    let av = AppendVec::new(100, 1, buf);
    let handles = append_vec_iter(&av);
    assert_eq!(handles.len(), 3);
    let m1 = handles[0].access().unwrap();
    let m2 = handles[1].access().unwrap();
    let m3 = handles[2].access().unwrap();
    assert_eq!(m1.write_version, 1);
    assert_eq!(m1.data, d1.to_vec());
    assert_eq!(m2.write_version, 2);
    assert_eq!(m2.data, d2.to_vec());
    assert!(m2.executable);
    assert_eq!(m3.write_version, 3);
    assert_eq!(m3.data, d3.to_vec());
}

#[test]
fn offset_past_last_record_yields_nothing() {
    let buf = record_bytes(1, 0, 0, 0, 0, false, &[5, 5, 5, 5]);
    let end = buf.len();
    let av = AppendVec::new(1, 1, buf);
    assert!(av.get_account(end).is_none());
    assert!(av.get_account(end + 100).is_none());
    // An offset where less than a full header remains also ends the walk.
    assert!(av.get_account(end - 8).is_none());
}

#[test]
fn empty_data_record_has_aligned_header_end() {
    let buf = record_bytes(11, 1, 1, 1, 1, false, &[]);
    assert_eq!(buf.len(), 136);
    let av = AppendVec::new(1, 2, buf);
    let (meta, next) = av.get_account(0).unwrap();
    assert_eq!(meta.data_len, 0);
    assert!(meta.data.is_empty());
    // 136 is already a multiple of 8: the aligned end of the header alone.
    assert_eq!(next, 136);
}

#[test]
fn corrupt_tail_record_is_dropped() {
    let mut buf = record_bytes(1, 0, 0, 0, 0, false, &[1, 2, 3]);
    // A second header declaring more data than the buffer holds.
    let mut tail = record_bytes(2, 0, 0, 0, 0, false, &[]);
    tail[8] = 0xff; // data_len = 255, but no data bytes follow
    buf.extend_from_slice(&tail);
    let av = AppendVec::new(1, 1, buf);
    let handles = append_vec_iter(&av);
    assert_eq!(handles.len(), 1);
    assert_eq!(handles[0].access().unwrap().data, vec![1, 2, 3]);
}

#[test]
fn trailing_padding_is_ignored() {
    let mut buf = record_bytes(1, 0, 0, 0, 0, false, &[1]);
    for _ in 0..7 {
        buf.push(0);
    }
    let av = AppendVec::new(1, 1, buf);
    assert_eq!(append_vec_iter(&av).len(), 1);
}

#[test]
fn handle_decodes_lazily_at_its_offset() {
    let first = record_bytes(1, 0, 0, 0, 0, false, &[1, 2]);
    let second_at = first.len();
    let mut buf = first;
    buf.extend_from_slice(&record_bytes(2, 0, 0, 0, 0, false, &[3, 4]));
    let av = AppendVec::new(5, 6, buf);
    let h = StoredAccountMetaHandle::new(&av, second_at);
    assert_eq!(h.access().unwrap().data, vec![3, 4]);
    let past = StoredAccountMetaHandle::new(&av, av.len());
    assert!(past.access().is_none());
}

#[test]
fn append_vec_accessors() {
    let av = AppendVec::new(123, 45, vec![0u8; 16]);
    assert_eq!(av.slot(), 123);
    assert_eq!(av.id(), 45);
    assert_eq!(av.len(), 16);
}

#[test]
fn nonzero_executable_byte_reads_true() {
    let mut buf = record_bytes(1, 0, 0, 0, 0, false, &[]);
    buf[96] = 2;
    let av = AppendVec::new(1, 1, buf);
    assert!(av.get_account(0).unwrap().0.executable);
}
