//! Dispatch of extracted shards to consumers under bounded memory.
//!
//! A single bounded queue decouples the container scan from shard
//! consumption and is the sole throttle: a full queue forces the
//! producer to drain work before pushing more, capping in-flight
//! memory to a small multiple of one shard regardless of snapshot
//! size.  Fan-out granularity is exactly one shard per dispatch — a
//! shard is never split — so the decoder's in-order guarantee within a
//! shard is preserved.  The queue here is a real `crossbeam` channel,
//! owned whole (both endpoints) by the dispatch loop; a worker pool
//! that shares the same channel across OS threads lives outside the
//! verified core and adds no ordering guarantee between shards.

use vstd::prelude::*;
use crate::SnapshotResult;
use crate::append_vec::AppendVec;
use crate::append_vec::AppendVecView;

verus! {

/// The sink protocol: one operation, "accept one shard", invoked
/// exactly once per accepted shard.  Implementations own their sink
/// exclusively; the dispatcher never shares one across workers.
pub trait AppendVecConsumer {
    /// The `(slot, id)` keys of every shard this consumer has
    /// accepted, oldest first.
    spec fn consumed(&self) -> Seq<(u64, u64)>;

    /// Whether this consumer accepts every shard: a sink that cannot
    /// fail promises `Ok` on each call and stays infallible.
    spec fn always_ok(&self) -> bool;

    /// Accept one shard.  On success exactly this shard joins the
    /// consumed history; on a fatal error the shard may or may not
    /// have been recorded before the failure.  An infallible consumer
    /// succeeds.
    fn on_append_vec(&mut self, append_vec: AppendVec) -> (r: SnapshotResult<()>)
        ensures
            r is Ok ==> final(self).consumed() == old(self).consumed().push(
                (append_vec@.slot, append_vec@.id),
            ),
            r is Err ==> final(self).consumed() == old(self).consumed() || final(self).consumed()
                == old(self).consumed().push((append_vec@.slot, append_vec@.id)),
            old(self).always_ok() ==> r is Ok && final(self).always_ok(),
    ;
}

/// A consumer that records the key of every shard handed to it and
/// counts the records its decoder walk yields.
pub struct CollectingConsumer {
    keys: Vec<(u64, u64)>,
    records_seen: usize,
}

impl CollectingConsumer {
    /// The running record tally, saturating at the `usize` limit.
    pub closed spec fn records(&self) -> usize {
        self.records_seen
    }

    pub fn new() -> (r: CollectingConsumer)
        ensures
            r.consumed() == Seq::<(u64, u64)>::empty(),
            r.always_ok(),
            r.records() == 0,
    {
        let r = CollectingConsumer { keys: Vec::new(), records_seen: 0 };
        proof {
            assert(r.keys@ =~= Seq::<(u64, u64)>::empty());
        }
        r
    }

    /// The keys accepted so far, in acceptance order.
    pub fn keys(&self) -> (r: &Vec<(u64, u64)>)
        ensures
            r@ == self.consumed(),
    {
        &self.keys
    }

    /// How many records the decoder walks have yielded in total,
    /// saturated at the `usize` limit.
    pub fn records_seen(&self) -> (r: usize)
        ensures
            r == self.records(),
    {
        self.records_seen
    }
}

impl AppendVecConsumer for CollectingConsumer {
    closed spec fn consumed(&self) -> Seq<(u64, u64)> {
        self.keys@
    }

    closed spec fn always_ok(&self) -> bool {
        true
    }

    /// Walks every record of the shard through the decoder, adds the
    /// number of records decoded to the tally (saturating at the
    /// `usize` limit), then records the shard's key.  Never fails.
    fn on_append_vec(&mut self, append_vec: AppendVec) -> (r: SnapshotResult<()>)
        ensures
            r is Ok,
            final(self).records() as int == vstd::math::min(
                old(self).records() + crate::append_vec::spec_records_from(
                    append_vec@.bytes,
                    0,
                ).len(),
                usize::MAX as int,
            ),
    {
        let handles = crate::append_vec_iter(&append_vec);
        let n = handles.len();
        if self.records_seen <= usize::MAX - n {
            self.records_seen = self.records_seen + n;
        } else {
            self.records_seen = usize::MAX;
        }
        self.keys.push((append_vec.slot(), append_vec.id()));
        Ok(())
    }
}

/// A bounded multi-consumer queue of shards: one `crossbeam` channel,
/// with both endpoints held together so the queue is owned exclusively
/// and behaves as the sequence `spec_channel_queue` describes.
#[verifier::external_body]
pub struct ShardChannel {
    tx: crossbeam::channel::Sender<AppendVec>,
    rx: crossbeam::channel::Receiver<AppendVec>,
}

pub uninterp spec fn spec_channel_queue(ch: ShardChannel) -> Seq<AppendVecView>;

pub uninterp spec fn spec_channel_cap(ch: ShardChannel) -> nat;

/// Relies on crossbeam_channel::bounded: creates a channel with a
/// fixed capacity, initially holding no message.  The bound on `cap`
/// keeps the call away from the capacities (near the `usize` limit)
/// on which `bounded` panics computing its ring-buffer marks.
#[verifier::external_body]
fn shard_channel_new(cap: usize) -> (r: ShardChannel)
    requires
        cap * 4 <= usize::MAX,
    ensures
        spec_channel_queue(r) == Seq::<AppendVecView>::empty(),
        spec_channel_cap(r) == cap as nat,
{
    let (tx, rx) = crossbeam::channel::bounded(cap);
    ShardChannel { tx, rx }
}

/// Relies on crossbeam_channel::Sender::try_send: on a bounded channel
/// that is not full and whose receiver is held, enqueues the message
/// at the back of the queue and returns without blocking.
#[verifier::external_body]
fn shard_channel_push(ch: &mut ShardChannel, av: AppendVec)
    requires
        spec_channel_queue(*old(ch)).len() < spec_channel_cap(*old(ch)),
    ensures
        spec_channel_queue(*final(ch)) == spec_channel_queue(*old(ch)).push(av@),
        spec_channel_cap(*final(ch)) == spec_channel_cap(*old(ch)),
{
    let _ = ch.tx.try_send(av);
}

/// Relies on crossbeam_channel::Receiver::try_recv: dequeues and
/// returns the oldest message when one is queued — the channel is
/// first-in first-out — and returns the empty error, changing
/// nothing, when the queue is empty; never blocks.
#[verifier::external_body]
fn shard_channel_try_pop(ch: &mut ShardChannel) -> (r: Option<AppendVec>)
    ensures
        spec_channel_cap(*final(ch)) == spec_channel_cap(*old(ch)),
        match r {
            Some(av) => {
                &&& spec_channel_queue(*old(ch)).len() > 0
                &&& av@ == spec_channel_queue(*old(ch))[0]
                &&& spec_channel_queue(*final(ch)) == spec_channel_queue(*old(ch)).drop_first()
            },
            None => {
                &&& spec_channel_queue(*old(ch)).len() == 0
                &&& spec_channel_queue(*final(ch)) == spec_channel_queue(*old(ch))
            },
        },
{
    ch.rx.try_recv().ok()
}

/// The `(slot, id)` keys of queued shard views, oldest first.
pub open spec fn spec_view_keys(q: Seq<AppendVecView>) -> Seq<(u64, u64)> {
    q.map_values(|v: AppendVecView| (v.slot, v.id))
}

/// The `(slot, id)` keys of the shards, in order.
pub open spec fn spec_keys_of(shards: Seq<AppendVec>) -> Seq<(u64, u64)> {
    shards.map_values(|av: AppendVec| (av@.slot, av@.id))
}

/// Law: the dispatcher processes every shard exactly once.  Shards
/// flow through a bounded queue of capacity twice the worker count:
/// each is pushed once, in extraction order; when the queue is full
/// the producer first drains one shard to the consumer — the
/// backpressure that bounds in-flight memory — and once every shard
/// has been pushed the queue is drained to empty.  On success the
/// consumer's history has grown by exactly the keys of the input
/// shards, in order; on a consumer failure the dispatcher stops
/// issuing work and the history has grown by exactly some prefix.
pub fn dispatch_append_vecs<A: AppendVecConsumer>(
    shards: Vec<AppendVec>,
    consumer: &mut A,
    num_threads: usize,
) -> (r: SnapshotResult<()>)
    requires
        num_threads >= 1,
        num_threads * 8 <= usize::MAX,
    ensures
        r is Ok ==> final(consumer).consumed() == old(consumer).consumed() + spec_keys_of(shards@),
        r is Err ==> exists|k: int|
            0 <= k <= shards@.len() && final(consumer).consumed() == old(consumer).consumed()
                + spec_keys_of(#[trigger] shards@.subrange(0, k)),
        shards@.len() == 0 ==> r is Ok,
        old(consumer).always_ok() ==> r is Ok,
{
    let ghost all = shards@;
    let ghost consumed0 = consumer.consumed();
    let ghost infallible = consumer.always_ok();
    let cap: usize = num_threads * 2;
    let mut queue = shard_channel_new(cap);
    let mut qlen: usize = 0;
    let mut pending = shards;
    while pending.len() > 0
        invariant
            all == shards@,
            consumed0 == old(consumer).consumed(),
            infallible == old(consumer).always_ok(),
            infallible ==> consumer.always_ok(),
            spec_channel_cap(queue) == cap as nat,
            cap >= 2,
            qlen == spec_channel_queue(queue).len(),
            qlen <= cap,
            consumer.consumed() + spec_view_keys(spec_channel_queue(queue)) + spec_keys_of(
                pending@,
            ) =~= consumed0 + spec_keys_of(all),
            consumed0.is_prefix_of(consumer.consumed()),
        decreases 2 * pending@.len() + spec_channel_queue(queue).len(),
    {
        if qlen == cap {
            let ghost q0 = spec_channel_queue(queue);
            match shard_channel_try_pop(&mut queue) {
                None => {
                    proof {
                        assert(false);
                    }
                },
                Some(av) => {
                    qlen = qlen - 1;
                    let ghost key = (av@.slot, av@.id);
                    let ghost c0 = consumer.consumed();
                    let res = consumer.on_append_vec(av);
                    proof {
                        assert(spec_view_keys(q0) =~= seq![key] + spec_view_keys(q0.drop_first()));
                    }
                    match res {
                        Ok(_) => {
                            proof {
                                assert(c0.push(key) + spec_view_keys(q0.drop_first()) =~= c0
                                    + spec_view_keys(q0));
                            }
                        },
                        Err(e) => {
                            proof {
                                let total = consumed0 + spec_keys_of(all);
                                assert(c0 =~= total.subrange(0, c0.len() as int));
                                if consumer.consumed() == c0.push(key) {
                                    assert(c0.push(key) =~= total.subrange(
                                        0,
                                        c0.len() as int + 1,
                                    ));
                                }
                                lemma_consumed_is_prefix(consumer.consumed(), consumed0, all);
                            }
                            return Err(e);
                        },
                    }
                },
            }
        } else {
            let av = pending.remove(0);
            proof {
                assert(spec_keys_of(pending@.insert(0, av)) =~= seq![(av@.slot, av@.id)]
                    + spec_keys_of(pending@));
                assert(spec_view_keys(spec_channel_queue(queue).push(av@)) =~= spec_view_keys(
                    spec_channel_queue(queue),
                ) + seq![(av@.slot, av@.id)]);
            }
            shard_channel_push(&mut queue, av);
            qlen = qlen + 1;
        }
    }
    while qlen > 0
        invariant
            all == shards@,
            consumed0 == old(consumer).consumed(),
            infallible == old(consumer).always_ok(),
            infallible ==> consumer.always_ok(),
            spec_channel_cap(queue) == cap as nat,
            qlen == spec_channel_queue(queue).len(),
            consumer.consumed() + spec_view_keys(spec_channel_queue(queue)) =~= consumed0
                + spec_keys_of(all),
            consumed0.is_prefix_of(consumer.consumed()),
        decreases qlen,
    {
        let ghost q0 = spec_channel_queue(queue);
        match shard_channel_try_pop(&mut queue) {
            None => {
                proof {
                    assert(false);
                }
            },
            Some(av) => {
                qlen = qlen - 1;
                let ghost key = (av@.slot, av@.id);
                let ghost c0 = consumer.consumed();
                let res = consumer.on_append_vec(av);
                proof {
                    assert(spec_view_keys(q0) =~= seq![key] + spec_view_keys(q0.drop_first()));
                }
                match res {
                    Ok(_) => {
                        proof {
                            assert(c0.push(key) + spec_view_keys(q0.drop_first()) =~= c0
                                + spec_view_keys(q0));
                        }
                    },
                    Err(e) => {
                        proof {
                            let total = consumed0 + spec_keys_of(all);
                            assert(c0 =~= total.subrange(0, c0.len() as int));
                            if consumer.consumed() == c0.push(key) {
                                assert(c0.push(key) =~= total.subrange(0, c0.len() as int + 1));
                            }
                            lemma_consumed_is_prefix(consumer.consumed(), consumed0, all);
                        }
                        return Err(e);
                    },
                }
            },
        }
    }
    proof {
        assert(consumer.consumed() =~= consumed0 + spec_keys_of(all));
    }
    Ok(())
}

/// A consumed history that extends its starting point and stays a
/// prefix of "starting point plus all keys" has grown by exactly a
/// prefix of those keys.
proof fn lemma_consumed_is_prefix(
    consumed: Seq<(u64, u64)>,
    consumed0: Seq<(u64, u64)>,
    all: Seq<AppendVec>,
)
    requires
        consumed0.is_prefix_of(consumed),
        consumed.is_prefix_of(consumed0 + spec_keys_of(all)),
    ensures
        exists|k: int|
            0 <= k <= all.len() && consumed == consumed0 + spec_keys_of(
                #[trigger] all.subrange(0, k),
            ),
{
    let k = consumed.len() - consumed0.len();
    assert(0 <= k <= all.len());
    assert(consumed =~= consumed0 + spec_keys_of(all.subrange(0, k))) by {
        assert(spec_keys_of(all.subrange(0, k)) =~= spec_keys_of(all).subrange(0, k));
    }
}

} // verus!
