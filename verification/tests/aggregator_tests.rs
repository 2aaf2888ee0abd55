use weatherflow::aggregator::{Aggregator, StationMeta};
use weatherflow::codec::{compress_data, ObservationPointData};

fn meta(id: u32, name: &str, pref: &str, code: u32, center: bool) -> StationMeta {
    StationMeta {
        id,
        name: name.to_string(),
        prefecture_name: pref.to_string(),
        prefecture_code: code,
        is_prefecture_center: center,
    }
}

fn one_station() -> Vec<StationMeta> {
    vec![meta(40001, "alpha", "north", 13, true)]
}

#[test]
fn one_hot_day_in_a_year_counts_once() {
    let mut agg = Aggregator::new(one_station());
    let mut last = None;
    for day in 0u16..365 {
        // exactly one day with max 36.0 C; every other day peaks at 10.0 C
        let mx = if day == 3 { 360 } else { 100 };
        let recs = vec![ObservationPointData { id: 40001, average: 50, max: mx, min: 0 }];
        let bytes = compress_data(day, &recs).unwrap();
        last = Some(agg.on_receive_data(&bytes).unwrap());
    }
    let bundle = last.unwrap();
    assert_eq!(bundle.point_snapshots.len(), 1);
    let (id, point) = &bundle.point_snapshots[0];
    assert_eq!(*id, 40001);
    assert_eq!(point.count, 365);
    assert_eq!(point.max, 360);
    assert_eq!(point.min, 0);
    // day 3 of 1970 lies in January: bucket 0 saw the one extreme day
    let jan = &point.months[0];
    assert_eq!(jan.high_over_35, 1);
    assert_eq!(jan.high_over_30, 0);
    assert_eq!(jan.high_over_25, 0);
    // the hot-day counters are mutually exclusive: together at most count
    for m in &point.months {
        assert!(m.high_over_35 + m.high_over_30 + m.high_over_25 <= m.count);
        assert!(m.high_below_0 + m.low_below_0 <= m.count);
        assert_eq!(m.high_over_35 + m.high_over_30 + m.high_over_25, if m.count == jan.count && m.high_over_35 == 1 { 1 } else { 0 });
    }
    let total: u64 = point.months.iter().map(|m| m.count).sum();
    assert_eq!(total, 365);
}

#[test]
fn cold_day_classification_checks_max_first() {
    let mut agg = Aggregator::new(one_station());
    // a day whose max stays below freezing: only high_below_0 moves
    let recs = vec![ObservationPointData { id: 40001, average: -50, max: -10, min: -80 }];
    let bytes = compress_data(0, &recs).unwrap();
    let bundle = agg.on_receive_data(&bytes).unwrap();
    let jan = &bundle.point_snapshots[0].1.months[0];
    assert_eq!(jan.high_below_0, 1);
    assert_eq!(jan.low_below_0, 0);
    // a milder day: max above freezing, min below: only low_below_0 moves
    let recs = vec![ObservationPointData { id: 40001, average: 0, max: 50, min: -30 }];
    let bytes = compress_data(1, &recs).unwrap();
    let bundle = agg.on_receive_data(&bytes).unwrap();
    let jan = &bundle.point_snapshots[0].1.months[0];
    assert_eq!(jan.high_below_0, 1);
    assert_eq!(jan.low_below_0, 1);
}

#[test]
fn tropical_night_counts_by_min_alone() {
    let mut agg = Aggregator::new(one_station());
    let recs = vec![ObservationPointData { id: 40001, average: 280, max: 320, min: 260 }];
    let bytes = compress_data(200, &recs).unwrap();
    let bundle = agg.on_receive_data(&bytes).unwrap();
    let month_idx = (bundle.date.month - 1) as usize;
    let bucket = &bundle.point_snapshots[0].1.months[month_idx];
    assert_eq!(bucket.low_over_25, 1);
    assert_eq!(bucket.high_over_30, 1);
    assert_eq!(bucket.high_over_35, 0);
}

#[test]
fn prefecture_follows_its_center_station_only() {
    let stations = vec![
        meta(40001, "alpha", "north", 13, true),
        meta(40002, "beta", "north", 13, false),
        meta(40003, "gamma", "south", 27, true),
    ];
    let mut agg = Aggregator::new(stations);
    let recs = vec![
        ObservationPointData { id: 40001, average: 100, max: 150, min: 60 },
        ObservationPointData { id: 40002, average: 999, max: 999, min: 999 },
        ObservationPointData { id: 40003, average: -20, max: 0, min: -40 },
    ];
    let bytes = compress_data(10, &recs).unwrap();
    let bundle = agg.on_receive_data(&bytes).unwrap();
    let codes: Vec<u32> = bundle.prefecture_snapshots.iter().map(|e| e.0).collect();
    assert_eq!(codes, vec![13, 27]);
    let north = &bundle.prefecture_snapshots[0].1;
    // the non-center station 40002 never reaches prefecture 13
    assert_eq!(north.count, 1);
    assert_eq!(north.max, 150);
    assert_eq!(north.min, 60);
    assert_eq!(north.name, "alpha");
    assert_eq!(north.prefecture_name, "north");
    let south = &bundle.prefecture_snapshots[1].1;
    assert_eq!(south.count, 1);
    assert_eq!(south.max, 0);
}

#[test]
fn bundle_carries_the_batch_date_and_raw_bytes() {
    let mut agg = Aggregator::new(one_station());
    let recs = vec![ObservationPointData { id: 40001, average: 1, max: 2, min: 0 }];
    // day 31 after 1970-01-01 is 1970-02-01
    let bytes = compress_data(31, &recs).unwrap();
    let bundle = agg.on_receive_data(&bytes).unwrap();
    assert_eq!(bundle.raw, bytes);
    assert_eq!((bundle.date.year, bundle.date.month, bundle.date.day), (1970, 2, 1));
    assert_eq!(bundle.window_snapshots.len(), 1);
    assert_eq!(bundle.window_snapshots[0].0, 40001);
    assert_eq!(bundle.window_snapshots[0].1.max, 2);
}

#[test]
fn malformed_frames_leave_the_state_alone() {
    let mut agg = Aggregator::new(one_station());
    assert!(agg.on_receive_data(&[5, 0]).is_err());
    assert_eq!(agg.total_count(), 0);
    let recs = vec![ObservationPointData { id: 40001, average: 1, max: 2, min: 0 }];
    let bytes = compress_data(0, &recs).unwrap();
    agg.on_receive_data(&bytes).unwrap();
    assert!(agg.on_receive_data(&bytes[..5]).is_err());
    assert_eq!(agg.total_count(), 1);
}

#[test]
fn unknown_stations_still_aggregate_per_station() {
    // a station missing from the metadata feeds its own statistics but no
    // prefecture
    let mut agg = Aggregator::new(one_station());
    let recs = vec![ObservationPointData { id: 40777, average: 10, max: 20, min: 0 }];
    let bytes = compress_data(0, &recs).unwrap();
    let bundle = agg.on_receive_data(&bytes).unwrap();
    assert_eq!(bundle.point_snapshots.len(), 1);
    assert_eq!(bundle.point_snapshots[0].0, 40777);
    assert_eq!(bundle.prefecture_snapshots[0].1.count, 0);
}

#[test]
fn point_feed_lists_only_the_batch_stations() {
    let stations = vec![
        meta(40001, "alpha", "north", 13, true),
        meta(40002, "beta", "south", 27, true),
    ];
    let mut agg = Aggregator::new(stations);
    let first = vec![ObservationPointData { id: 40001, average: 10, max: 20, min: 0 }];
    let bytes = compress_data(0, &first).unwrap();
    agg.on_receive_data(&bytes).unwrap();
    // the second batch touches only station 40002: feed 1 lists it alone
    let second = vec![ObservationPointData { id: 40002, average: 30, max: 40, min: 20 }];
    let bytes = compress_data(1, &second).unwrap();
    let bundle = agg.on_receive_data(&bytes).unwrap();
    let ids: Vec<u32> = bundle.point_snapshots.iter().map(|e| e.0).collect();
    assert_eq!(ids, vec![40002]);
    // while feed 2 still carries every known prefecture
    let codes: Vec<u32> = bundle.prefecture_snapshots.iter().map(|e| e.0).collect();
    assert_eq!(codes, vec![13, 27]);
    assert_eq!(bundle.prefecture_snapshots[0].1.count, 1);
    assert_eq!(bundle.prefecture_snapshots[1].1.count, 1);
}

#[test]
fn prefecture_table_is_complete_even_when_untouched() {
    let stations = vec![
        meta(40001, "alpha", "north", 13, true),
        meta(40003, "gamma", "south", 27, true),
    ];
    let mut agg = Aggregator::new(stations);
    let recs = vec![ObservationPointData { id: 40003, average: 1, max: 2, min: 0 }];
    let bytes = compress_data(0, &recs).unwrap();
    let bundle = agg.on_receive_data(&bytes).unwrap();
    let codes: Vec<u32> = bundle.prefecture_snapshots.iter().map(|e| e.0).collect();
    assert_eq!(codes, vec![13, 27]);
    assert_eq!(bundle.prefecture_snapshots[0].1.count, 0);
}
