use tokio::sync::broadcast::error::TryRecvError;
use weatherflow::aggregator::{Aggregator, StationMeta};
use weatherflow::codec::{compress_data, ObservationPointData};
use weatherflow::hub::{filter_entries, DistributionHub};

fn entry(key: u32, payload: &[u8]) -> (u32, Vec<u8>) {
    (key, payload.to_vec())
}

#[test]
fn subscribers_see_published_batches_in_order() {
    let hub = DistributionHub::new(16);
    let mut rx = hub.subscribe(0);
    assert_eq!(hub.publish(0, vec![entry(1, b"a"), entry(2, b"b")]), Ok(1));
    hub.publish(0, vec![entry(3, b"c")]).unwrap();
    assert_eq!(rx.try_recv().unwrap(), vec![entry(1, b"a"), entry(2, b"b")]);
    assert_eq!(rx.try_recv().unwrap(), vec![entry(3, b"c")]);
    assert_eq!(rx.try_recv(), Err(TryRecvError::Empty));
}

#[test]
fn feeds_are_independent() {
    let hub = DistributionHub::new(16);
    let mut rx0 = hub.subscribe(0);
    let mut rx1 = hub.subscribe(1);
    hub.publish(0, vec![entry(9, b"zero")]).unwrap();
    assert_eq!(rx0.try_recv().unwrap(), vec![entry(9, b"zero")]);
    assert_eq!(rx1.try_recv(), Err(TryRecvError::Empty));
}

#[test]
fn publish_without_subscribers_drops_the_batch() {
    let hub = DistributionHub::new(16);
    let batch = vec![entry(1, b"lost")];
    assert_eq!(hub.publish(2, batch.clone()), Err(batch));
    // a later subscriber sees nothing published before it
    let mut rx = hub.subscribe(2);
    assert_eq!(rx.try_recv(), Err(TryRecvError::Empty));
}

#[test]
fn a_lagging_subscriber_misses_the_oldest_batches() {
    let hub = DistributionHub::new(16);
    let mut rx = hub.subscribe(3);
    for i in 0..20u32 {
        hub.publish(3, vec![entry(i, b"x")]).unwrap();
    }
    // the backlog kept only the newest 16 of 20 batches
    assert_eq!(rx.try_recv(), Err(TryRecvError::Lagged(4)));
    assert_eq!(rx.try_recv().unwrap(), vec![entry(4, b"x")]);
}

#[test]
fn key_filter_keeps_only_matching_entries_in_order() {
    let batch = vec![entry(1, b"a"), entry(2, b"b"), entry(1, b"c"), entry(3, b"d")];
    let kept = filter_entries(batch.clone(), Some(1));
    assert_eq!(kept, vec![entry(1, b"a"), entry(1, b"c")]);
    for e in &kept {
        assert_eq!(e.0, 1);
    }
    let none_match = filter_entries(batch.clone(), Some(42));
    assert!(none_match.is_empty());
    let all = filter_entries(batch.clone(), None);
    assert_eq!(all, batch);
}

#[test]
fn end_to_end_feed_zero_passes_raw_batches_through() {
    let stations = vec![StationMeta {
        id: 40001,
        name: "alpha".to_string(),
        prefecture_name: "north".to_string(),
        prefecture_code: 13,
        is_prefecture_center: true,
    }];
    let mut agg = Aggregator::new(stations);
    let hub = DistributionHub::new(16);
    let mut rx = hub.subscribe(0);
    let recs = vec![ObservationPointData { id: 40001, average: 150, max: 200, min: 100 }];
    let bytes = compress_data(0, &recs).unwrap();
    let bundle = agg.on_receive_data(&bytes).unwrap();
    hub.publish(0, vec![(0, bundle.raw)]).unwrap();
    let got = rx.try_recv().unwrap();
    assert_eq!(got, vec![(0u32, bytes)]);
}
