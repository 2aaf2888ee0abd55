//! The distribution hub: four independent broadcast feeds with a bounded
//! backlog. Each publish hands a batch of key-tagged payloads to every live
//! subscriber of one feed; a slow subscriber misses the oldest batches
//! rather than stalling the publisher, and each subscriber filters the
//! entries it receives by an optional key.

use vstd::prelude::*;
use vstd::seq_lib::group_seq_properties;

verus! {

/// One published entry: a subscriber key (a station id, or zero for
/// "global") and an opaque payload.
pub type FeedEntry = (u32, Vec<u8>);

/// What one publish hands to a feed: the entries of one batch, in order.
pub type FeedBatch = Vec<FeedEntry>;

/// Declares tokio's broadcast sender so feed handles can live in the hub;
/// its values stay opaque here.
#[verifier::external_type_specification]
#[verifier::external_body]
#[verifier::reject_recursive_types(T)]
pub struct ExSender<T>(tokio::sync::broadcast::Sender<T>);

/// Declares tokio's broadcast receiver so `subscribe` can hand one out; its
/// values stay opaque here.
#[verifier::external_type_specification]
#[verifier::external_body]
#[verifier::reject_recursive_types(T)]
pub struct ExReceiver<T>(tokio::sync::broadcast::Receiver<T>);

/// Relies on tokio::sync::broadcast::channel: makes a feed whose backlog
/// keeps at least the given number of batches (tokio rounds the capacity up
/// to the next power of two). The function panics only for a capacity of
/// zero or above `usize::MAX / 2`, which the bounds here rule out.
#[verifier::external_body]
fn new_feed(capacity: usize) -> (r: (
    tokio::sync::broadcast::Sender<FeedBatch>,
    tokio::sync::broadcast::Receiver<FeedBatch>,
))
    requires
        1 <= capacity <= usize::MAX / 2,
{
    tokio::sync::broadcast::channel(capacity)
}

/// Relies on tokio::sync::broadcast::Sender::send: queues the batch for
/// every receiver subscribed at the call, without blocking, and reports
/// their number, which is then at least one; when none is live, it hands
/// the very batch back as the error.
#[verifier::external_body]
fn send_batch(tx: &tokio::sync::broadcast::Sender<FeedBatch>, batch: FeedBatch) -> (r: Result<
    usize,
    FeedBatch,
>)
    ensures
        (r matches Err(b) ==> b == batch),
        (r matches Ok(n) ==> n >= 1),
{
    match tx.send(batch) {
        Ok(n) => Ok(n),
        Err(tokio::sync::broadcast::error::SendError(b)) => Err(b),
    }
}

/// Relies on tokio::sync::broadcast::Sender::subscribe: a new receiver that
/// sees every batch published from this moment on.
#[verifier::external_body]
fn subscribe_feed(tx: &tokio::sync::broadcast::Sender<FeedBatch>) -> (r:
    tokio::sync::broadcast::Receiver<FeedBatch>)
{
    tx.subscribe()
}

/// The key passes the filter: always without a filter, else on equality.
pub open spec fn spec_matches(filter: Option<u32>, key: u32) -> bool {
    match filter {
        Option::Some(k) => key == k,
        Option::None => true,
    }
}

/// The entries of one received batch that a subscriber with the given key
/// filter keeps: all of them without a filter, else exactly those tagged
/// with its key, in publish order.
pub fn filter_entries(entries: FeedBatch, filter: Option<u32>) -> (r: FeedBatch)
    ensures
        r@ == entries@.filter(|e: FeedEntry| spec_matches(filter, e.0)),
        forall|k: int| 0 <= k < r@.len() ==> spec_matches(filter, (#[trigger] r@[k]).0),
{
    broadcast use group_seq_properties;

    let ghost orig = entries@;
    let ghost pred = |e: FeedEntry| spec_matches(filter, e.0);
    let mut rest = entries;
    let initial_len = rest.len();
    proof {
        assert(orig.len() == initial_len);
    }
    let mut r: FeedBatch = Vec::new();
    let mut i: usize = 0;
    proof {
        reveal(Seq::filter);
        assert(orig.take(0) =~= Seq::<FeedEntry>::empty());
        assert(orig.take(0).filter(pred) =~= Seq::<FeedEntry>::empty());
        assert(rest@ =~= orig.skip(0));
    }
    while rest.len() > 0
        invariant
            i <= orig.len(),
            orig.len() <= usize::MAX,
            rest@ == orig.skip(i as int),
            r@ == orig.take(i as int).filter(pred),
            pred == (|e: FeedEntry| spec_matches(filter, e.0)),
        decreases rest@.len(),
    {
        let e = rest.remove(0);
        proof {
            assert(e == orig[i as int]);
            assert(rest@ =~= orig.skip(i + 1));
        }
        let keep = match filter {
            Option::Some(k) => e.0 == k,
            Option::None => true,
        };
        if keep {
            r.push(e);
        }
        proof {
            reveal(Seq::filter);
            assert(orig.take(i + 1).drop_last() =~= orig.take(i as int));
            assert(orig.take(i + 1).last() == orig[i as int]);
            assert(r@ =~= orig.take(i + 1).filter(pred));
        }
        i = i + 1;
    }
    proof {
        assert(i == orig.len());
        assert(orig.take(i as int) =~= orig);
        assert forall|k: int| 0 <= k < r@.len() implies spec_matches(
            filter,
            (#[trigger] r@[k]).0,
        ) by {
            reveal(Seq::filter);
            orig.lemma_filter_pred(pred, k);
        }
    }
    r
}

/// Four independent broadcast feeds sharing one dispatch shape: raw batch
/// passthrough, per-station aggregates, per-prefecture aggregates, and
/// trailing-window snapshots.
pub struct DistributionHub {
    feeds: Vec<tokio::sync::broadcast::Sender<FeedBatch>>,
}

/// The number of feeds the hub carries.
pub const FEED_COUNT: usize = 4;

impl DistributionHub {
    /// The hub carries its four feeds.
    pub closed spec fn wf(&self) -> bool {
        self.feeds@.len() == 4
    }

    /// Builds the hub, every feed with the same backlog capacity. No batch
    /// published before a subscription is kept for it.
    pub fn new(capacity: usize) -> (r: Self)
        requires
            1 <= capacity <= usize::MAX / 2,
        ensures
            r.wf(),
    {
        let mut feeds: Vec<tokio::sync::broadcast::Sender<FeedBatch>> = Vec::new();
        let mut i: usize = 0;
        while i < FEED_COUNT
            invariant
                feeds@.len() == i,
                i <= 4,
                1 <= capacity <= usize::MAX / 2,
            decreases 4 - i,
        {
            let (tx, _rx) = new_feed(capacity);
            feeds.push(tx);
            i = i + 1;
        }
        DistributionHub { feeds }
    }

    /// Pushes one batch atomically to every current subscriber of the feed,
    /// reporting how many there are; a feed with no subscribers drops the
    /// batch and reports the batch itself back.
    pub fn publish(&self, feed: usize, entries: FeedBatch) -> (r: Result<usize, FeedBatch>)
        requires
            self.wf(),
            feed < 4,
        ensures
            (r matches Err(b) ==> b == entries),
            (r matches Ok(n) ==> n >= 1),
    {
        send_batch(vstd::std_specs::vec::vec_index(&self.feeds, feed), entries)
    }

    /// A handle receiving every batch published on the feed from now on; a
    /// handle that falls behind the backlog misses the oldest batches.
    pub fn subscribe(&self, feed: usize) -> (r: tokio::sync::broadcast::Receiver<FeedBatch>)
        requires
            self.wf(),
            feed < 4,
    {
        subscribe_feed(vstd::std_specs::vec::vec_index(&self.feeds, feed))
    }
}

} // verus!
