use weatherflow::codec::ObservationPointData;
use weatherflow::window::{PointAggregator, WindowAggregateResult, WindowAggregator};

fn synthetic(i: usize) -> (i32, i32, i32) {
    let base = ((i * 37) % 400) as i32 - 200;
    (base - 25, base + 30, base)
}

#[test]
fn window_average_is_exact_mean_before_wrap() {
    let mut p = PointAggregator::new();
    let mut sum: i64 = 0;
    for i in 0..200 {
        let (mn, mx, av) = synthetic(i);
        p.add(mn, mx, av);
        sum += av as i64;
        let (s, c) = p.average().unwrap();
        assert_eq!(s, sum);
        assert_eq!(c, (i + 1) as u64);
    }
}

#[test]
fn window_tracks_exactly_the_last_365_readings() {
    let mut p = PointAggregator::new();
    let mut all: Vec<(i32, i32, i32)> = Vec::new();
    for i in 0..400 {
        let (mn, mx, av) = synthetic(i);
        p.add(mn, mx, av);
        all.push((mn, mx, av));
        // brute-force window over the last 365 readings
        let start = if all.len() > 365 { all.len() - 365 } else { 0 };
        let win = &all[start..];
        let bmax = win.iter().map(|r| r.1).max().unwrap();
        let bmin = win.iter().map(|r| r.0).min().unwrap();
        let bsum: i64 = win.iter().map(|r| r.2 as i64).sum();
        assert_eq!(p.max().unwrap(), bmax);
        assert_eq!(p.min().unwrap(), bmin);
        let (s, c) = p.average().unwrap();
        assert_eq!(s, bsum);
        assert_eq!(c, win.len() as u64);
    }
}

#[test]
fn empty_window_has_no_summary() {
    let p = PointAggregator::new();
    assert_eq!(p.max(), None);
    assert_eq!(p.min(), None);
    assert_eq!(p.average(), None);
    assert_eq!(p.count(), 0);
    assert!(WindowAggregateResult::try_from(&p).is_err());
}

#[test]
fn aggregator_keeps_stations_apart_and_sorted() {
    let mut w = WindowAggregator::new();
    let batch1 = vec![
        ObservationPointData { id: 40007, average: 10, max: 20, min: 5 },
        ObservationPointData { id: 40003, average: -10, max: -5, min: -20 },
    ];
    let batch2 = vec![
        ObservationPointData { id: 40007, average: 30, max: 40, min: 25 },
        ObservationPointData { id: 40005, average: 0, max: 1, min: -1 },
    ];
    w.add(&batch1);
    w.add(&batch2);
    assert_eq!(w.total(), 4);
    let out = w.to_vec();
    let ids: Vec<u32> = out.iter().map(|e| e.0).collect();
    assert_eq!(ids, vec![40003, 40005, 40007]);
    let r7 = out[2].1;
    assert_eq!(r7.max, 40);
    assert_eq!(r7.min, 5);
    assert_eq!(r7.sum, 40);
    assert_eq!(r7.count, 2);
    let r3 = out[0].1;
    assert_eq!((r3.max, r3.min, r3.sum, r3.count), (-5, -20, -10, 1));
}

#[test]
fn duplicate_ids_in_one_batch_both_count() {
    let mut w = WindowAggregator::new();
    let batch = vec![
        ObservationPointData { id: 40001, average: 10, max: 10, min: 10 },
        ObservationPointData { id: 40001, average: 30, max: 30, min: 30 },
    ];
    w.add(&batch);
    let out = w.to_vec();
    assert_eq!(out.len(), 1);
    assert_eq!(out[0].1.count, 2);
    assert_eq!(out[0].1.sum, 40);
    assert_eq!(out[0].1.max, 30);
    assert_eq!(out[0].1.min, 10);
}
