use solana_snapshot_etl::append_vec::AppendVec;
use solana_snapshot_etl::parallel::dispatch_append_vecs;
use solana_snapshot_etl::parallel::CollectingConsumer;

fn p64(v: &mut Vec<u8>, x: u64) {
    for b in x.to_le_bytes() {
        v.push(b);
    }
}

fn record_bytes(data: &[u8]) -> Vec<u8> {
    let mut v = Vec::new();
    p64(&mut v, 1);
    p64(&mut v, data.len() as u64);
    while v.len() < 136 {
        v.push(0);
    }
    v.extend_from_slice(data);
    while v.len() % 8 != 0 {
        v.push(0);
    }
    v
}

fn shards(n: u64) -> Vec<AppendVec> {
    (0..n).map(|i| AppendVec::new(100, i, vec![0u8; 8])).collect()
}

#[test]
fn dispatch_processes_every_shard_exactly_once() {
    let mut c = CollectingConsumer::new();
    dispatch_append_vecs(shards(5), &mut c, 3).unwrap();
    assert_eq!(
        c.keys().clone(),
        vec![(100, 0), (100, 1), (100, 2), (100, 3), (100, 4)]
    );
}

#[test]
fn dispatch_is_independent_of_worker_count() {
    let expected: Vec<(u64, u64)> = (0..9).map(|i| (100, i)).collect();
    for n in 1..=4 {
        let mut c = CollectingConsumer::new();
        dispatch_append_vecs(shards(9), &mut c, n).unwrap();
        assert_eq!(c.keys().clone(), expected);
    }
}

#[test]
fn dispatch_fills_and_drains_the_bounded_queue() {
    // With one worker the queue holds two shards: ten shards force
    // both the backpressure path and the final drain.
    let mut c = CollectingConsumer::new();
    dispatch_append_vecs(shards(10), &mut c, 1).unwrap();
    assert_eq!(c.keys().len(), 10);
}

#[test]
fn dispatch_of_nothing_consumes_nothing() {
    let mut c = CollectingConsumer::new();
    dispatch_append_vecs(Vec::new(), &mut c, 2).unwrap();
    assert!(c.keys().is_empty());
}

#[test]
fn consumer_walks_every_record_of_each_shard() {
    let mut buf = record_bytes(&[1, 2, 3]);
    buf.extend_from_slice(&record_bytes(&[]));
    let av = AppendVec::new(7, 1, buf);
    let mut c = CollectingConsumer::new();
    dispatch_append_vecs(vec![av], &mut c, 1).unwrap();
    assert_eq!(c.keys().clone(), vec![(7, 1)]);
    assert_eq!(c.records_seen(), 2);
}
