//! The running aggregator: all-time and per-calendar-month statistics per
//! station, and all-time statistics per prefecture, fed only by each
//! prefecture's designated center station. All temperatures are decicelsius.

use crate::codec::{DecodeError, ObservationPointData};
use crate::window::{station_records, WindowAggregateResult, WindowAggregator};
use vstd::prelude::*;

verus! {

/// Daily maximum at or above 35.0 C counts as an extremely hot day.
pub const HOT_35: i32 = 350;

/// Daily maximum at or above 30.0 C counts as a very hot day.
pub const HOT_30: i32 = 300;

/// Daily maximum (or nightly minimum) at or above 25.0 C.
pub const HOT_25: i32 = 250;

/// A calendar date.
#[derive(Clone, Copy, Debug, PartialEq, Eq, Structural)]
pub struct Date {
    /// Calendar year.
    pub year: u32,
    /// Calendar month, 1 to 12.
    pub month: u32,
    /// Day of month, 1 to 31.
    pub day: u32,
}

impl Date {
    /// The month names a bucket and the day fits a calendar.
    pub open spec fn wf(&self) -> bool {
        &&& 1 <= self.month <= 12
        &&& 1 <= self.day <= 31
    }
}

/// The calendar date `days` days after 1970-01-01, as chrono computes it;
/// a function of the offset alone.
pub uninterp spec fn ymd_of_day_offset(days: u16) -> (u32, u32, u32);

/// Relies on chrono's `NaiveDate` arithmetic and `Datelike` accessors: the
/// proleptic Gregorian date `days` days after 1970-01-01. By chrono's
/// documentation `month()` is in 1..=12, `day()` is in 1..=31, and a `u16`
/// offset from the epoch stays far inside `NaiveDate`'s range, so the
/// addition cannot fail and the year lies between 1970 and 2150.
#[verifier::external_body]
pub fn date_of_day_offset(days: u16) -> (r: Date)
    ensures
        (r.year, r.month, r.day) == ymd_of_day_offset(days),
        r.wf(),
        1970 <= r.year <= 2150,
{
    let d = chrono::NaiveDate::from_ymd_opt(1970, 1, 1).unwrap() + chrono::Duration::days(
        days as i64,
    );
    Date {
        year: chrono::Datelike::year(&d) as u32,
        month: chrono::Datelike::month(&d),
        day: chrono::Datelike::day(&d),
    }
}

/// The mathematical value of one month bucket.
pub struct MonthModel {
    /// Least `min` reading seen, or the greatest sentinel before any.
    pub min: int,
    /// Greatest `max` reading seen, or the least sentinel before any.
    pub max: int,
    /// Sum of the average readings seen.
    pub sum: int,
    /// Number of readings seen.
    pub count: int,
    /// Days with max at or above 35.0 C.
    pub high_over_35: int,
    /// Days with max in [30.0, 35.0) C.
    pub high_over_30: int,
    /// Days with max in [25.0, 30.0) C.
    pub high_over_25: int,
    /// Days with min at or above 25.0 C.
    pub low_over_25: int,
    /// Days with max below 0.0 C.
    pub high_below_0: int,
    /// Days with max at or above 0.0 C but min below 0.0 C.
    pub low_below_0: int,
}

/// A fresh, empty bucket: sentinels for min and max, zero everywhere else.
pub open spec fn spec_month_new() -> MonthModel {
    MonthModel {
        min: i32::MAX as int,
        max: i32::MIN as int,
        sum: 0,
        count: 0,
        high_over_35: 0,
        high_over_30: 0,
        high_over_25: 0,
        low_over_25: 0,
        high_below_0: 0,
        low_below_0: 0,
    }
}

/// One reading folded into a bucket: running min, max, sum and count, the
/// three mutually exclusive hot-day counters classified by `max` with the
/// first match winning, the tropical-night counter by `min` alone, and the
/// two mutually exclusive cold-day counters, `max` checked first.
pub open spec fn spec_month_add(m: MonthModel, mn: int, mx: int, av: int) -> MonthModel {
    MonthModel {
        min: if mn < m.min {
            mn
        } else {
            m.min
        },
        max: if mx > m.max {
            mx
        } else {
            m.max
        },
        sum: m.sum + av,
        count: m.count + 1,
        high_over_35: m.high_over_35 + if mx >= HOT_35 {
            1int
        } else {
            0int
        },
        high_over_30: m.high_over_30 + if mx < HOT_35 && mx >= HOT_30 {
            1int
        } else {
            0int
        },
        high_over_25: m.high_over_25 + if mx < HOT_30 && mx >= HOT_25 {
            1int
        } else {
            0int
        },
        low_over_25: m.low_over_25 + if mn >= HOT_25 {
            1int
        } else {
            0int
        },
        high_below_0: m.high_below_0 + if mx < 0 {
            1int
        } else {
            0int
        },
        low_below_0: m.low_below_0 + if mx >= 0 && mn < 0 {
            1int
        } else {
            0int
        },
    }
}

/// One calendar month's statistics for one station, accumulated across all
/// years.
#[derive(Clone, Copy, Debug, PartialEq, Eq, Structural)]
pub struct MonthAggregateResult {
    /// Least `min` reading, decicelsius; `i32::MAX` before any reading.
    pub min: i32,
    /// Greatest `max` reading, decicelsius; `i32::MIN` before any reading.
    pub max: i32,
    /// Sum of average readings, decicelsius.
    pub sum: i128,
    /// Number of readings.
    pub count: u64,
    /// Days with max at or above 35.0 C.
    pub high_over_35: u64,
    /// Days with max in [30.0, 35.0) C.
    pub high_over_30: u64,
    /// Days with max in [25.0, 30.0) C.
    pub high_over_25: u64,
    /// Days with min at or above 25.0 C.
    pub low_over_25: u64,
    /// Days with max below 0.0 C.
    pub high_below_0: u64,
    /// Days with max at or above 0.0 C but min below 0.0 C.
    pub low_below_0: u64,
}

impl MonthAggregateResult {
    /// The bucket as a mathematical value.
    pub open spec fn model(&self) -> MonthModel {
        MonthModel {
            min: self.min as int,
            max: self.max as int,
            sum: self.sum as int,
            count: self.count as int,
            high_over_35: self.high_over_35 as int,
            high_over_30: self.high_over_30 as int,
            high_over_25: self.high_over_25 as int,
            low_over_25: self.low_over_25 as int,
            high_below_0: self.high_below_0 as int,
            low_below_0: self.low_below_0 as int,
        }
    }

    /// Counters never outrun the reading count, the exclusive families stay
    /// within it jointly, and the sum stays within `count` readings' range.
    pub open spec fn wf(&self) -> bool {
        &&& self.high_over_35 + self.high_over_30 + self.high_over_25 <= self.count
        &&& self.high_below_0 + self.low_below_0 <= self.count
        &&& self.low_over_25 <= self.count
        &&& -((self.count as int) * 0x8000_0000) <= self.sum as int
        &&& self.sum as int <= (self.count as int) * 0x8000_0000
    }

    /// A fresh, empty bucket.
    pub fn new() -> (r: Self)
        ensures
            r.wf(),
            r.model() == spec_month_new(),
    {
        MonthAggregateResult {
            min: i32::MAX,
            max: i32::MIN,
            sum: 0,
            count: 0,
            high_over_35: 0,
            high_over_30: 0,
            high_over_25: 0,
            low_over_25: 0,
            high_below_0: 0,
            low_below_0: 0,
        }
    }

    /// Folds one reading into the bucket.
    pub fn add(&mut self, min: i32, max: i32, avg: i32)
        requires
            old(self).wf(),
            old(self).count < u64::MAX,
        ensures
            final(self).wf(),
            final(self).model() == spec_month_add(
                old(self).model(),
                min as int,
                max as int,
                avg as int,
            ),
    {
        if min < self.min {
            self.min = min;
        }
        if max > self.max {
            self.max = max;
        }
        self.sum = self.sum + (avg as i128);
        self.count = self.count + 1;
        if max >= HOT_35 {
            self.high_over_35 = self.high_over_35 + 1;
        } else if max >= HOT_30 {
            self.high_over_30 = self.high_over_30 + 1;
        } else if max >= HOT_25 {
            self.high_over_25 = self.high_over_25 + 1;
        }
        if min >= HOT_25 {
            self.low_over_25 = self.low_over_25 + 1;
        }
        if max < 0 {
            self.high_below_0 = self.high_below_0 + 1;
        } else if min < 0 {
            self.low_below_0 = self.low_below_0 + 1;
        }
    }

    /// The mean of the average readings as an exact pair of sum and count;
    /// absent exactly while the bucket is empty.
    pub fn average(&self) -> (r: Option<(i128, u64)>)
        ensures
            (match r {
                Option::None => self.count == 0,
                Option::Some(pair) => self.count > 0 && pair.0 == self.sum && pair.1 == self.count,
            }),
    {
        if self.count == 0 {
            None
        } else {
            Some((self.sum, self.count))
        }
    }
}

/// The mathematical value of one station's all-time statistics.
pub struct PointModel {
    /// Least `min` reading seen, or the greatest sentinel before any.
    pub min: int,
    /// Greatest `max` reading seen, or the least sentinel before any.
    pub max: int,
    /// Sum of the average readings seen.
    pub sum: int,
    /// Number of readings seen.
    pub count: int,
    /// The date of the latest reading.
    pub latest_date: Date,
    /// One bucket per calendar month, January first.
    pub months: Seq<MonthModel>,
}

/// A fresh station record: sentinels, zero counters, the placeholder date,
/// and twelve empty buckets.
pub open spec fn spec_point_new() -> PointModel {
    PointModel {
        min: i32::MAX as int,
        max: i32::MIN as int,
        sum: 0,
        count: 0,
        latest_date: Date { year: 1900, month: 1, day: 1 },
        months: Seq::new(12, |i: int| spec_month_new()),
    }
}

/// One reading folded into a station record: the all-time fields advance,
/// the latest date is replaced, and the bucket of the reading's calendar
/// month takes the reading.
pub open spec fn spec_point_add(p: PointModel, date: Date, mn: int, mx: int, av: int) -> PointModel {
    PointModel {
        min: if mn < p.min {
            mn
        } else {
            p.min
        },
        max: if mx > p.max {
            mx
        } else {
            p.max
        },
        sum: p.sum + av,
        count: p.count + 1,
        latest_date: date,
        months: p.months.update(
            date.month - 1,
            spec_month_add(p.months[date.month - 1], mn, mx, av),
        ),
    }
}

/// One station's all-time statistics with its twelve month buckets.
pub struct PointAggregateResult {
    /// Least `min` reading, decicelsius; `i32::MAX` before any reading.
    pub min: i32,
    /// Greatest `max` reading, decicelsius; `i32::MIN` before any reading.
    pub max: i32,
    /// Sum of average readings, decicelsius.
    pub sum: i128,
    /// Number of readings.
    pub count: u64,
    /// The date of the latest reading; 1900-01-01 before any.
    pub latest_date: Date,
    /// One bucket per calendar month, January first.
    pub months: Vec<MonthAggregateResult>,
}

impl PointAggregateResult {
    /// The record as a mathematical value.
    pub open spec fn model(&self) -> PointModel {
        PointModel {
            min: self.min as int,
            max: self.max as int,
            sum: self.sum as int,
            count: self.count as int,
            latest_date: self.latest_date,
            months: self.months@.map_values(|m: MonthAggregateResult| m.model()),
        }
    }

    /// Twelve well-formed buckets, none counting past the record, and the
    /// sum within range.
    pub open spec fn wf(&self) -> bool {
        &&& self.months@.len() == 12
        &&& (forall|i: int| 0 <= i < 12 ==> (#[trigger] self.months@[i]).wf())
        &&& (forall|i: int| 0 <= i < 12 ==> (#[trigger] self.months@[i]).count <= self.count)
        &&& -((self.count as int) * 0x8000_0000) <= self.sum as int
        &&& self.sum as int <= (self.count as int) * 0x8000_0000
    }

    /// A fresh station record.
    pub fn new() -> (r: Self)
        ensures
            r.wf(),
            r.model() == spec_point_new(),
    {
        let mut months: Vec<MonthAggregateResult> = Vec::new();
        let mut i: usize = 0;
        while i < 12
            invariant
                months@.len() == i,
                i <= 12,
                forall|k: int|
                    0 <= k < i ==> (#[trigger] months@[k]).wf() && months@[k].model()
                        == spec_month_new() && months@[k].count == 0,
            decreases 12 - i,
        {
            months.push(MonthAggregateResult::new());
            i = i + 1;
        }
        let r = PointAggregateResult {
            min: i32::MAX,
            max: i32::MIN,
            sum: 0,
            count: 0,
            latest_date: Date { year: 1900, month: 1, day: 1 },
            months,
        };
        proof {
            assert(r.model().months =~= spec_point_new().months);
            assert(r.model() == spec_point_new());
        }
        r
    }

    /// Folds one reading into the record and its month's bucket.
    pub fn add(&mut self, date: Date, min: i32, max: i32, avg: i32)
        requires
            old(self).wf(),
            date.wf(),
            old(self).count < u64::MAX,
        ensures
            final(self).wf(),
            final(self).model() == spec_point_add(
                old(self).model(),
                date,
                min as int,
                max as int,
                avg as int,
            ),
    {
        let ghost pre = *self;
        if min < self.min {
            self.min = min;
        }
        if max > self.max {
            self.max = max;
        }
        self.sum = self.sum + (avg as i128);
        self.count = self.count + 1;
        self.latest_date = date;
        let idx = (date.month - 1) as usize;
        let bucket = vstd::std_specs::vec::vec_index_mut(&mut self.months, idx);
        bucket.add(min, max, avg);
        proof {
            assert(self.months@ =~= pre.months@.update(idx as int, self.months@[idx as int]));
            assert(self.months@[idx as int].model() == spec_month_add(
                pre.months@[idx as int].model(),
                min as int,
                max as int,
                avg as int,
            ));
            assert(self.model().months =~= spec_point_add(
                pre.model(),
                date,
                min as int,
                max as int,
                avg as int,
            ).months);
            assert(self.model() == spec_point_add(
                pre.model(),
                date,
                min as int,
                max as int,
                avg as int,
            ));
        }
    }

    /// A deep copy of the record, for publication.
    pub fn snapshot(&self) -> (r: Self)
        requires
            self.wf(),
        ensures
            r.wf(),
            r.model() == self.model(),
    {
        let mut months: Vec<MonthAggregateResult> = Vec::new();
        let mut i: usize = 0;
        while i < self.months.len()
            invariant
                self.wf(),
                months@.len() == i,
                i <= 12,
                self.months@.len() == 12,
                forall|k: int| 0 <= k < i ==> #[trigger] months@[k] == self.months@[k],
            decreases 12 - i,
        {
            let m = *vstd::std_specs::vec::vec_index(&self.months, i);
            months.push(m);
            i = i + 1;
        }
        let r = PointAggregateResult {
            min: self.min,
            max: self.max,
            sum: self.sum,
            count: self.count,
            latest_date: self.latest_date,
            months,
        };
        proof {
            assert(r.months@ =~= self.months@);
            assert(r.model().months =~= self.model().months);
            assert(r.model() == self.model());
        }
        r
    }
}

// ---------------------------------------------------------------------------
// Sorted association lists
// ---------------------------------------------------------------------------

/// Keys strictly ascend.
pub open spec fn assoc_sorted<V>(s: Seq<(u32, V)>) -> bool {
    forall|i: int, j: int| 0 <= i < j < s.len() ==> (#[trigger] s[i]).0 < (#[trigger] s[j]).0
}

/// Some entry carries this key.
pub open spec fn assoc_has<V>(s: Seq<(u32, V)>, key: u32) -> bool {
    exists|i: int| 0 <= i < s.len() && (#[trigger] s[i]).0 == key
}

/// The value the key maps to, if any.
pub open spec fn assoc_get<V>(s: Seq<(u32, V)>, key: u32) -> Option<V> {
    if assoc_has(s, key) {
        let i = choose|i: int| 0 <= i < s.len() && (#[trigger] s[i]).0 == key;
        Some(s[i].1)
    } else {
        None
    }
}

/// In a sorted list keys are unique, so an entry is what its key looks up to.
pub proof fn lemma_assoc_at<V>(s: Seq<(u32, V)>, i: int)
    requires
        assoc_sorted(s),
        0 <= i < s.len(),
    ensures
        assoc_has(s, s[i].0),
        assoc_get(s, s[i].0) == Some(s[i].1),
{
    assert(assoc_has(s, s[i].0));
    let j = choose|j: int| 0 <= j < s.len() && (#[trigger] s[j]).0 == s[i].0;
    if i < j {
        assert((s[i]).0 < (s[j]).0);
    }
    if j < i {
        assert((s[j]).0 < (s[i]).0);
    }
}

// ---------------------------------------------------------------------------
// Station metadata
// ---------------------------------------------------------------------------

/// What the aggregator knows of one station.
#[derive(Clone, Debug)]
pub struct StationMeta {
    /// The station's id.
    pub id: u32,
    /// The station's name.
    pub name: String,
    /// The name of the prefecture the station belongs to.
    pub prefecture_name: String,
    /// The stable integer code of that prefecture.
    pub prefecture_code: u32,
    /// Whether this station is its prefecture's designated center.
    pub is_prefecture_center: bool,
}

/// Station ids strictly ascend.
pub open spec fn metas_sorted(s: Seq<StationMeta>) -> bool {
    forall|i: int, j: int| 0 <= i < j < s.len() ==> (#[trigger] s[i]).id < (#[trigger] s[j]).id
}

/// Some station carries this id.
pub open spec fn meta_has(s: Seq<StationMeta>, id: u32) -> bool {
    exists|i: int| 0 <= i < s.len() && (#[trigger] s[i]).id == id
}

/// The metadata of the station with this id, if known.
pub open spec fn meta_get(s: Seq<StationMeta>, id: u32) -> Option<StationMeta> {
    if meta_has(s, id) {
        let i = choose|i: int| 0 <= i < s.len() && (#[trigger] s[i]).id == id;
        Some(s[i])
    } else {
        None
    }
}

proof fn lemma_meta_at(s: Seq<StationMeta>, i: int)
    requires
        metas_sorted(s),
        0 <= i < s.len(),
    ensures
        meta_has(s, s[i].id),
        meta_get(s, s[i].id) == Some(s[i]),
{
    assert(meta_has(s, s[i].id));
    let j = choose|j: int| 0 <= j < s.len() && (#[trigger] s[j]).id == s[i].id;
    if i < j {
        assert((s[i]).id < (s[j]).id);
    }
    if j < i {
        assert((s[j]).id < (s[i]).id);
    }
}

/// The prefecture code a station's reading feeds, if the station is known
/// and is its prefecture's center.
pub open spec fn spec_center_code(metas: Seq<StationMeta>, id: u32) -> Option<u32> {
    match meta_get(metas, id) {
        Option::Some(m) => if m.is_prefecture_center {
            Option::Some(m.prefecture_code)
        } else {
            Option::None
        },
        Option::None => Option::None,
    }
}

/// Looks a station's feeding prefecture code up in the sorted metadata.
fn center_code(metas: &Vec<StationMeta>, id: u32) -> (r: Option<u32>)
    requires
        metas_sorted(metas@),
    ensures
        r == spec_center_code(metas@, id),
{
    let n = metas.len();
    let mut i: usize = 0;
    while i < n
        invariant
            i <= n,
            n == metas@.len(),
            metas_sorted(metas@),
            forall|k: int| 0 <= k < i ==> (#[trigger] metas@[k]).id != id,
        decreases n - i,
    {
        let m = vstd::std_specs::vec::vec_index(metas, i);
        if m.id == id {
            proof {
                lemma_meta_at(metas@, i as int);
            }
            if m.is_prefecture_center {
                return Some(m.prefecture_code);
            } else {
                return None;
            }
        }
        i = i + 1;
    }
    proof {
        if meta_has(metas@, id) {
            let k = choose|k: int| 0 <= k < metas@.len() && (#[trigger] metas@[k]).id == id;
            assert(metas@[k].id != id);
        }
    }
    None
}

// ---------------------------------------------------------------------------
// Per-prefecture statistics
// ---------------------------------------------------------------------------

/// The mathematical value of one prefecture's all-time statistics.
pub struct PrefModel {
    /// The center station's id.
    pub id: u32,
    /// The center station's name.
    pub name: Seq<char>,
    /// The prefecture's name.
    pub prefecture_name: Seq<char>,
    /// Least `min` reading seen, or the greatest sentinel before any.
    pub min: int,
    /// Greatest `max` reading seen, or the least sentinel before any.
    pub max: int,
    /// Sum of the average readings seen.
    pub sum: int,
    /// Number of readings seen.
    pub count: int,
    /// The date of the latest reading.
    pub latest_date: Date,
    /// Days with max at or above 35.0 C.
    pub high_over_35: int,
    /// Days with max in [30.0, 35.0) C.
    pub high_over_30: int,
    /// Days with max in [25.0, 30.0) C.
    pub high_over_25: int,
    /// Days with min at or above 25.0 C.
    pub low_over_25: int,
    /// Days with max below 0.0 C.
    pub high_below_0: int,
    /// Days with max at or above 0.0 C but min below 0.0 C.
    pub low_below_0: int,
}

/// A fresh prefecture record for a center station.
pub open spec fn spec_pref_new(m: StationMeta) -> PrefModel {
    PrefModel {
        id: m.id,
        name: m.name@,
        prefecture_name: m.prefecture_name@,
        min: i32::MAX as int,
        max: i32::MIN as int,
        sum: 0,
        count: 0,
        latest_date: Date { year: 1900, month: 1, day: 1 },
        high_over_35: 0,
        high_over_30: 0,
        high_over_25: 0,
        low_over_25: 0,
        high_below_0: 0,
        low_below_0: 0,
    }
}

/// One reading folded into a prefecture record: the same shape as a month
/// bucket, plus the latest date.
pub open spec fn spec_pref_add(p: PrefModel, date: Date, mn: int, mx: int, av: int) -> PrefModel {
    PrefModel {
        id: p.id,
        name: p.name,
        prefecture_name: p.prefecture_name,
        min: if mn < p.min {
            mn
        } else {
            p.min
        },
        max: if mx > p.max {
            mx
        } else {
            p.max
        },
        sum: p.sum + av,
        count: p.count + 1,
        latest_date: date,
        high_over_35: p.high_over_35 + if mx >= HOT_35 {
            1int
        } else {
            0int
        },
        high_over_30: p.high_over_30 + if mx < HOT_35 && mx >= HOT_30 {
            1int
        } else {
            0int
        },
        high_over_25: p.high_over_25 + if mx < HOT_30 && mx >= HOT_25 {
            1int
        } else {
            0int
        },
        low_over_25: p.low_over_25 + if mn >= HOT_25 {
            1int
        } else {
            0int
        },
        high_below_0: p.high_below_0 + if mx < 0 {
            1int
        } else {
            0int
        },
        low_below_0: p.low_below_0 + if mx >= 0 && mn < 0 {
            1int
        } else {
            0int
        },
    }
}

/// One prefecture's all-time statistics, fed only by its center station.
pub struct PrefectureAggregateResult {
    /// The center station's id.
    pub id: u32,
    /// The center station's name.
    pub name: String,
    /// The prefecture's name.
    pub prefecture_name: String,
    /// Least `min` reading, decicelsius; `i32::MAX` before any reading.
    pub min: i32,
    /// Greatest `max` reading, decicelsius; `i32::MIN` before any reading.
    pub max: i32,
    /// Sum of average readings, decicelsius.
    pub sum: i128,
    /// Number of readings.
    pub count: u64,
    /// The date of the latest reading; 1900-01-01 before any.
    pub latest_date: Date,
    /// Days with max at or above 35.0 C.
    pub high_over_35: u64,
    /// Days with max in [30.0, 35.0) C.
    pub high_over_30: u64,
    /// Days with max in [25.0, 30.0) C.
    pub high_over_25: u64,
    /// Days with min at or above 25.0 C.
    pub low_over_25: u64,
    /// Days with max below 0.0 C.
    pub high_below_0: u64,
    /// Days with max at or above 0.0 C but min below 0.0 C.
    pub low_below_0: u64,
}

impl PrefectureAggregateResult {
    /// The record as a mathematical value.
    pub open spec fn model(&self) -> PrefModel {
        PrefModel {
            id: self.id,
            name: self.name@,
            prefecture_name: self.prefecture_name@,
            min: self.min as int,
            max: self.max as int,
            sum: self.sum as int,
            count: self.count as int,
            latest_date: self.latest_date,
            high_over_35: self.high_over_35 as int,
            high_over_30: self.high_over_30 as int,
            high_over_25: self.high_over_25 as int,
            low_over_25: self.low_over_25 as int,
            high_below_0: self.high_below_0 as int,
            low_below_0: self.low_below_0 as int,
        }
    }

    /// Counters never outrun the reading count and the sum stays in range.
    pub open spec fn wf(&self) -> bool {
        &&& self.high_over_35 + self.high_over_30 + self.high_over_25 <= self.count
        &&& self.high_below_0 + self.low_below_0 <= self.count
        &&& self.low_over_25 <= self.count
        &&& -((self.count as int) * 0x8000_0000) <= self.sum as int
        &&& self.sum as int <= (self.count as int) * 0x8000_0000
    }

    /// A fresh record for a prefecture whose center is the given station.
    pub fn new(id: u32, name: String, prefecture_name: String) -> (r: Self)
        ensures
            r.wf(),
            r.id == id,
            r.name == name,
            r.prefecture_name == prefecture_name,
            r.count == 0,
            r.min == i32::MAX,
            r.max == i32::MIN,
            r.sum == 0,
            r.latest_date == (Date { year: 1900, month: 1, day: 1 }),
            r.high_over_35 == 0 && r.high_over_30 == 0 && r.high_over_25 == 0,
            r.low_over_25 == 0 && r.high_below_0 == 0 && r.low_below_0 == 0,
    {
        PrefectureAggregateResult {
            id,
            name,
            prefecture_name,
            min: i32::MAX,
            max: i32::MIN,
            sum: 0,
            count: 0,
            latest_date: Date { year: 1900, month: 1, day: 1 },
            high_over_35: 0,
            high_over_30: 0,
            high_over_25: 0,
            low_over_25: 0,
            high_below_0: 0,
            low_below_0: 0,
        }
    }

    /// Folds one reading into the record.
    pub fn add(&mut self, date: Date, min: i32, max: i32, avg: i32)
        requires
            old(self).wf(),
            old(self).count < u64::MAX,
        ensures
            final(self).wf(),
            final(self).model() == spec_pref_add(
                old(self).model(),
                date,
                min as int,
                max as int,
                avg as int,
            ),
    {
        if min < self.min {
            self.min = min;
        }
        if max > self.max {
            self.max = max;
        }
        self.sum = self.sum + (avg as i128);
        self.count = self.count + 1;
        self.latest_date = date;
        if max >= HOT_35 {
            self.high_over_35 = self.high_over_35 + 1;
        } else if max >= HOT_30 {
            self.high_over_30 = self.high_over_30 + 1;
        } else if max >= HOT_25 {
            self.high_over_25 = self.high_over_25 + 1;
        }
        if min >= HOT_25 {
            self.low_over_25 = self.low_over_25 + 1;
        }
        if max < 0 {
            self.high_below_0 = self.high_below_0 + 1;
        } else if min < 0 {
            self.low_below_0 = self.low_below_0 + 1;
        }
    }

    /// A deep copy of the record, for publication.
    pub fn snapshot(&self) -> (r: Self)
        requires
            self.wf(),
        ensures
            r.wf(),
            r.model() == self.model(),
    {
        PrefectureAggregateResult {
            id: self.id,
            name: self.name.clone(),
            prefecture_name: self.prefecture_name.clone(),
            min: self.min,
            max: self.max,
            sum: self.sum,
            count: self.count,
            latest_date: self.latest_date,
            high_over_35: self.high_over_35,
            high_over_30: self.high_over_30,
            high_over_25: self.high_over_25,
            low_over_25: self.low_over_25,
            high_below_0: self.high_below_0,
            low_below_0: self.low_below_0,
        }
    }
}

// ---------------------------------------------------------------------------
// State lookups and batch folds
// ---------------------------------------------------------------------------

/// The station's all-time statistics held in a sorted association list.
pub open spec fn point_states(s: Seq<(u32, PointAggregateResult)>, id: u32) -> Option<PointModel> {
    match assoc_get(s, id) {
        Option::Some(p) => Option::Some(p.model()),
        Option::None => Option::None,
    }
}

/// The prefecture's all-time statistics held in a sorted association list.
pub open spec fn pref_states(s: Seq<(u32, PrefectureAggregateResult)>, code: u32) -> Option<
    PrefModel,
> {
    match assoc_get(s, code) {
        Option::Some(p) => Option::Some(p.model()),
        Option::None => Option::None,
    }
}

/// A record batch folded into one station's all-time state, left to right;
/// the state is created by the station's first record.
pub open spec fn spec_apply_points(
    st: Option<PointModel>,
    date: Date,
    recs: Seq<ObservationPointData>,
    id: u32,
) -> Option<PointModel>
    decreases recs.len(),
{
    if recs.len() == 0 {
        st
    } else {
        let prev = spec_apply_points(st, date, recs.drop_last(), id);
        let r = recs.last();
        if r.id == id {
            let base = match prev {
                Option::Some(m) => m,
                Option::None => spec_point_new(),
            };
            Option::Some(spec_point_add(base, date, r.min as int, r.max as int, r.average as int))
        } else {
            prev
        }
    }
}

/// A record batch folded into one prefecture's all-time state, left to
/// right: only records of the prefecture's known center station feed it, and
/// a prefecture unknown at construction stays absent.
pub open spec fn spec_apply_prefs(
    st: Option<PrefModel>,
    date: Date,
    recs: Seq<ObservationPointData>,
    code: u32,
    metas: Seq<StationMeta>,
) -> Option<PrefModel>
    decreases recs.len(),
{
    if recs.len() == 0 {
        st
    } else {
        let prev = spec_apply_prefs(st, date, recs.drop_last(), code, metas);
        let r = recs.last();
        if spec_center_code(metas, r.id) == Option::<u32>::Some(code) {
            match prev {
                Option::Some(p) => Option::Some(
                    spec_pref_add(p, date, r.min as int, r.max as int, r.average as int),
                ),
                Option::None => Option::None,
            }
        } else {
            prev
        }
    }
}

/// The last station in the list that is a center of the prefecture with this
/// code, if any: the one whose name the prefecture's record carries.
pub open spec fn spec_last_center(s: Seq<StationMeta>, code: u32) -> Option<StationMeta>
    decreases s.len(),
{
    if s.len() == 0 {
        Option::None
    } else if s.last().is_prefecture_center && s.last().prefecture_code == code {
        Option::Some(s.last())
    } else {
        spec_last_center(s.drop_last(), code)
    }
}

/// The batch touches this station: some record of it carries the id.
pub open spec fn batch_has_station(recs: Seq<ObservationPointData>, id: u32) -> bool {
    exists|j: int| 0 <= j < recs.len() && (#[trigger] recs[j]).id == id
}

/// Tests whether a batch touches a station.
fn batch_contains(recs: &Vec<ObservationPointData>, id: u32) -> (r: bool)
    ensures
        r == batch_has_station(recs@, id),
{
    let n = recs.len();
    let mut i: usize = 0;
    while i < n
        invariant
            i <= n,
            n == recs@.len(),
            forall|j: int| 0 <= j < i ==> (#[trigger] recs@[j]).id != id,
        decreases n - i,
    {
        if recs[i].id == id {
            proof {
                assert(batch_has_station(recs@, id));
            }
            return true;
        }
        i = i + 1;
    }
    proof {
        if batch_has_station(recs@, id) {
            let j = choose|j: int| 0 <= j < recs@.len() && (#[trigger] recs@[j]).id == id;
            assert(recs@[j].id != id);
        }
    }
    false
}

/// A station's folded state exists exactly when it existed before or the
/// batch touches the station.
pub proof fn lemma_apply_points_some(
    st: Option<PointModel>,
    date: Date,
    recs: Seq<ObservationPointData>,
    id: u32,
)
    ensures
        (spec_apply_points(st, date, recs, id) is Some) <==> (st is Some || batch_has_station(
            recs,
            id,
        )),
    decreases recs.len(),
{
    if recs.len() == 0 {
        assert(!batch_has_station(recs, id)) by {
            if batch_has_station(recs, id) {
                let j = choose|j: int| 0 <= j < recs.len() && (#[trigger] recs[j]).id == id;
            }
        }
    } else {
        lemma_apply_points_some(st, date, recs.drop_last(), id);
        let r = recs.last();
        if r.id == id {
            assert(batch_has_station(recs, id));
        } else {
            assert(batch_has_station(recs, id) <==> batch_has_station(recs.drop_last(), id)) by {
                if batch_has_station(recs, id) {
                    let j = choose|j: int| 0 <= j < recs.len() && (#[trigger] recs[j]).id == id;
                    assert(recs.drop_last()[j] == recs[j]);
                }
                if batch_has_station(recs.drop_last(), id) {
                    let j = choose|j: int|
                        0 <= j < recs.drop_last().len() && (#[trigger] recs.drop_last()[j]).id
                            == id;
                    assert(recs[j].id == id);
                }
            }
        }
    }
}

/// A prefecture's folded state exists exactly when it existed before: the
/// fold never creates a prefecture.
pub proof fn lemma_apply_prefs_some(
    st: Option<PrefModel>,
    date: Date,
    recs: Seq<ObservationPointData>,
    code: u32,
    metas: Seq<StationMeta>,
)
    ensures
        (spec_apply_prefs(st, date, recs, code, metas) is Some) <==> st is Some,
    decreases recs.len(),
{
    if recs.len() > 0 {
        lemma_apply_prefs_some(st, date, recs.drop_last(), code, metas);
    }
}

/// Inserts a station's reading into the sorted per-station list, creating
/// the station's record on first sight.
fn point_put(v: &mut Vec<(u32, PointAggregateResult)>, date: Date, rec: &ObservationPointData)
    requires
        assoc_sorted(old(v)@),
        forall|i: int| 0 <= i < old(v)@.len() ==> (#[trigger] old(v)@[i]).1.wf(),
        date.wf(),
        (match assoc_get(old(v)@, rec.id) {
            Option::Some(p) => p.count < u64::MAX,
            Option::None => true,
        }),
    ensures
        assoc_sorted(final(v)@),
        forall|i: int| 0 <= i < final(v)@.len() ==> (#[trigger] final(v)@[i]).1.wf(),
        point_states(final(v)@, rec.id) == Option::Some(
            spec_point_add(
                (match point_states(old(v)@, rec.id) {
                    Option::Some(m) => m,
                    Option::None => spec_point_new(),
                }),
                date,
                rec.min as int,
                rec.max as int,
                rec.average as int,
            ),
        ),
        forall|id: u32|
            id != rec.id ==> #[trigger] point_states(final(v)@, id) == point_states(old(v)@, id),
        forall|id: u32| #[trigger] assoc_has(final(v)@, id) == (assoc_has(old(v)@, id) || id == rec.id),
{
    let ghost old_points = v@;
    let id = rec.id;
    let n = v.len();
    let mut i: usize = 0;
    let mut pos: usize = n;
    while i < n
        invariant
            i <= n,
            n == v@.len(),
            pos == n || (pos < n && pos <= i && v@[pos as int].0 >= id),
            pos == n ==> (forall|k: int| 0 <= k < i ==> (#[trigger] v@[k]).0 < id),
            pos < n ==> (forall|k: int| 0 <= k < pos ==> (#[trigger] v@[k]).0 < id),
        decreases n - i,
    {
        if pos == n && v[i].0 >= id {
            pos = i;
        }
        i = i + 1;
    }
    proof {
        if pos < n {
            assert forall|k: int| 0 <= k < n && k > pos implies (#[trigger] old_points[k]).0
                >= old_points[pos as int].0 by {
                assert((old_points[pos as int]).0 < (old_points[k]).0);
            }
        }
    }
    if pos < n && v[pos].0 == id {
        proof {
            lemma_assoc_at(old_points, pos as int);
        }
        let entry = vstd::std_specs::vec::vec_index_mut(v, pos);
        entry.1.add(date, rec.min, rec.max, rec.average);
        proof {
            assert(v@[pos as int].0 == id);
            assert(v@.len() == old_points.len());
            assert(forall|k: int|
                0 <= k < old_points.len() && k != pos ==> v@[k] == #[trigger] old_points[k]);
            assert forall|a: int, b: int| 0 <= a < b < v@.len() implies (#[trigger] v@[a]).0 < (
            #[trigger] v@[b]).0 by {
                assert((old_points[a]).0 < (old_points[b]).0);
                assert(v@[a].0 == old_points[a].0);
                assert(v@[b].0 == old_points[b].0);
            }
            lemma_assoc_at(v@, pos as int);
            assert forall|other: u32| #[trigger] assoc_has(v@, other) == (assoc_has(
                old_points,
                other,
            ) || other == id) by {
                if assoc_has(v@, other) {
                    let k = choose|k: int| 0 <= k < v@.len() && (#[trigger] v@[k]).0 == other;
                    assert(old_points[k].0 == other);
                    assert(assoc_has(old_points, other));
                }
                if assoc_has(old_points, other) {
                    let k = choose|k: int|
                        0 <= k < old_points.len() && (#[trigger] old_points[k]).0 == other;
                    assert(v@[k].0 == other);
                    assert(assoc_has(v@, other));
                }
            }
            assert forall|other: u32| other != id implies #[trigger] point_states(v@, other)
                == point_states(old_points, other) by {
                if assoc_has(old_points, other) {
                    let k = choose|k: int|
                        0 <= k < old_points.len() && (#[trigger] old_points[k]).0 == other;
                    lemma_assoc_at(old_points, k);
                    assert(k != pos);
                    assert(v@[k].0 == other);
                    lemma_assoc_at(v@, k);
                } else {
                    assert(!assoc_has(v@, other));
                }
            }
        }
    } else {
        proof {
            if pos < n {
                assert(old_points[pos as int].0 > id);
            }
        }
        let mut p = PointAggregateResult::new();
        p.add(date, rec.min, rec.max, rec.average);
        v.insert(pos, (id, p));
        proof {
            assert(v@ == old_points.insert(pos as int, (id, p)));
            assert(v@.len() == old_points.len() + 1);
            assert(forall|k: int| 0 <= k < pos ==> v@[k] == #[trigger] old_points[k]);
            assert(forall|k: int|
                pos < k < v@.len() ==> v@[k] == #[trigger] old_points[k - 1]);
            assert(v@[pos as int] == (id, p));
            assert forall|a: int, b: int| 0 <= a < b < v@.len() implies (#[trigger] v@[a]).0 < (
            #[trigger] v@[b]).0 by {
                if b < pos {
                    assert((old_points[a]).0 < (old_points[b]).0);
                } else if b == pos {
                    assert(v@[a].0 == old_points[a].0);
                    assert(old_points[a].0 < id);
                } else if a == pos {
                    assert(v@[b].0 == old_points[b - 1].0);
                    assert(old_points[b - 1].0 >= old_points[pos as int].0) by {
                        if b - 1 > pos {
                            assert((old_points[pos as int]).0 < (old_points[b - 1]).0);
                        }
                    }
                    assert(old_points[pos as int].0 > id);
                } else if a < pos {
                    assert(v@[a].0 == old_points[a].0);
                    assert(v@[b].0 == old_points[b - 1].0);
                    assert(old_points[a].0 < id);
                    assert(old_points[b - 1].0 >= old_points[pos as int].0) by {
                        if b - 1 > pos {
                            assert((old_points[pos as int]).0 < (old_points[b - 1]).0);
                        }
                    }
                    assert(old_points[pos as int].0 > id);
                } else {
                    assert(v@[a].0 == old_points[a - 1].0);
                    assert(v@[b].0 == old_points[b - 1].0);
                    assert((old_points[a - 1]).0 < (old_points[b - 1]).0);
                }
            }
            lemma_assoc_at(v@, pos as int);
            assert(!assoc_has(old_points, id)) by {
                if assoc_has(old_points, id) {
                    let k = choose|k: int|
                        0 <= k < old_points.len() && (#[trigger] old_points[k]).0 == id;
                    if k < pos {
                        assert(old_points[k].0 < id);
                    } else if k == pos {
                        assert(old_points[pos as int].0 > id);
                    } else {
                        assert((old_points[pos as int]).0 < (old_points[k]).0);
                    }
                }
            }
            assert forall|other: u32| #[trigger] assoc_has(v@, other) == (assoc_has(
                old_points,
                other,
            ) || other == id) by {
                if assoc_has(v@, other) && other != id {
                    let k = choose|k: int| 0 <= k < v@.len() && (#[trigger] v@[k]).0 == other;
                    assert(k != pos);
                    if k < pos {
                        assert(old_points[k].0 == other);
                    } else {
                        assert(old_points[k - 1].0 == other);
                    }
                    assert(assoc_has(old_points, other));
                }
                if assoc_has(old_points, other) {
                    let k = choose|k: int|
                        0 <= k < old_points.len() && (#[trigger] old_points[k]).0 == other;
                    if k < pos {
                        assert(v@[k].0 == other);
                    } else {
                        assert(v@[k + 1].0 == other);
                    }
                    assert(assoc_has(v@, other));
                }
            }
            assert forall|other: u32| other != id implies #[trigger] point_states(v@, other)
                == point_states(old_points, other) by {
                if assoc_has(old_points, other) {
                    let k = choose|k: int|
                        0 <= k < old_points.len() && (#[trigger] old_points[k]).0 == other;
                    lemma_assoc_at(old_points, k);
                    if k < pos {
                        assert(v@[k] == old_points[k]);
                        lemma_assoc_at(v@, k);
                    } else {
                        assert(v@[k + 1] == old_points[k]);
                        lemma_assoc_at(v@, k + 1);
                    }
                } else {
                    assert(!assoc_has(v@, other));
                }
            }
        }
    }
}

/// Folds a center station's reading into its prefecture's record, if that
/// prefecture was known at construction; does nothing otherwise.
fn pref_bump(
    v: &mut Vec<(u32, PrefectureAggregateResult)>,
    date: Date,
    code: u32,
    mn: i32,
    mx: i32,
    av: i32,
)
    requires
        assoc_sorted(old(v)@),
        forall|i: int| 0 <= i < old(v)@.len() ==> (#[trigger] old(v)@[i]).1.wf(),
        (match assoc_get(old(v)@, code) {
            Option::Some(p) => p.count < u64::MAX,
            Option::None => true,
        }),
    ensures
        assoc_sorted(final(v)@),
        forall|i: int| 0 <= i < final(v)@.len() ==> (#[trigger] final(v)@[i]).1.wf(),
        pref_states(final(v)@, code) == (match pref_states(old(v)@, code) {
            Option::Some(p) => Option::Some(
                spec_pref_add(p, date, mn as int, mx as int, av as int),
            ),
            Option::None => Option::<PrefModel>::None,
        }),
        forall|c: u32| c != code ==> #[trigger] pref_states(final(v)@, c) == pref_states(old(v)@, c),
        forall|c: u32| #[trigger] assoc_has(final(v)@, c) == assoc_has(old(v)@, c),
{
    let ghost old_prefs = v@;
    let n = v.len();
    let mut i: usize = 0;
    while i < n
        invariant
            i <= n,
            n == v@.len(),
            v@ == old_prefs,
            old_prefs == old(v)@,
            assoc_sorted(v@),
            forall|k: int| 0 <= k < v@.len() ==> (#[trigger] v@[k]).1.wf(),
            (match assoc_get(v@, code) {
                Option::Some(p) => p.count < u64::MAX,
                Option::None => true,
            }),
            forall|k: int| 0 <= k < i ==> (#[trigger] v@[k]).0 != code,
        decreases n - i,
    {
        if v[i].0 == code {
            proof {
                lemma_assoc_at(old_prefs, i as int);
            }
            let entry = vstd::std_specs::vec::vec_index_mut(v, i);
            entry.1.add(date, mn, mx, av);
            proof {
                let pos = i as int;
                assert(v@.len() == old_prefs.len());
                assert(forall|k: int|
                    0 <= k < old_prefs.len() && k != pos ==> v@[k] == #[trigger] old_prefs[k]);
                assert forall|a: int, b: int| 0 <= a < b < v@.len() implies (#[trigger] v@[a]).0
                    < (#[trigger] v@[b]).0 by {
                    assert((old_prefs[a]).0 < (old_prefs[b]).0);
                    assert(v@[a].0 == old_prefs[a].0);
                    assert(v@[b].0 == old_prefs[b].0);
                }
                lemma_assoc_at(v@, pos);
                assert forall|c: u32| #[trigger] assoc_has(v@, c) == assoc_has(old_prefs, c) by {
                    if assoc_has(v@, c) {
                        let k = choose|k: int| 0 <= k < v@.len() && (#[trigger] v@[k]).0 == c;
                        assert(old_prefs[k].0 == c);
                        assert(assoc_has(old_prefs, c));
                    }
                    if assoc_has(old_prefs, c) {
                        let k = choose|k: int|
                            0 <= k < old_prefs.len() && (#[trigger] old_prefs[k]).0 == c;
                        assert(v@[k].0 == c);
                        assert(assoc_has(v@, c));
                    }
                }
                assert forall|c: u32| c != code implies #[trigger] pref_states(v@, c)
                    == pref_states(old_prefs, c) by {
                    if assoc_has(old_prefs, c) {
                        let k = choose|k: int|
                            0 <= k < old_prefs.len() && (#[trigger] old_prefs[k]).0 == c;
                        lemma_assoc_at(old_prefs, k);
                        assert(k != pos);
                        assert(v@[k].0 == c);
                        lemma_assoc_at(v@, k);
                    } else {
                        assert(!assoc_has(v@, c));
                    }
                }
            }
            return ;
        }
        i = i + 1;
    }
    proof {
        if assoc_has(old_prefs, code) {
            let k = choose|k: int|
                0 <= k < old_prefs.len() && (#[trigger] old_prefs[k]).0 == code;
            assert(v@[k].0 != code);
        }
    }
}

/// Inserts or replaces a prefecture's fresh record, keyed by its code, while
/// the aggregator is being built.
fn pref_put(v: &mut Vec<(u32, PrefectureAggregateResult)>, code: u32, p: PrefectureAggregateResult)
    requires
        assoc_sorted(old(v)@),
        forall|i: int|
            0 <= i < old(v)@.len() ==> (#[trigger] old(v)@[i]).1.wf() && old(v)@[i].1.count == 0,
        p.wf(),
        p.count == 0,
    ensures
        assoc_sorted(final(v)@),
        forall|i: int|
            0 <= i < final(v)@.len() ==> (#[trigger] final(v)@[i]).1.wf() && final(v)@[i].1.count
                == 0,
        pref_states(final(v)@, code) == Option::Some(p.model()),
        forall|c: u32| c != code ==> #[trigger] pref_states(final(v)@, c) == pref_states(old(v)@, c),
        forall|c: u32| #[trigger] assoc_has(final(v)@, c) == (assoc_has(old(v)@, c) || c == code),
{
    let ghost old_prefs = v@;
    let n = v.len();
    let mut i: usize = 0;
    let mut pos: usize = n;
    while i < n
        invariant
            i <= n,
            n == v@.len(),
            v@ == old_prefs,
            pos == n || (pos < n && pos <= i && v@[pos as int].0 >= code),
            pos == n ==> (forall|k: int| 0 <= k < i ==> (#[trigger] v@[k]).0 < code),
            pos < n ==> (forall|k: int| 0 <= k < pos ==> (#[trigger] v@[k]).0 < code),
        decreases n - i,
    {
        if pos == n && v[i].0 >= code {
            pos = i;
        }
        i = i + 1;
    }
    proof {
        if pos < n {
            assert forall|k: int| 0 <= k < n && k > pos implies (#[trigger] old_prefs[k]).0
                >= old_prefs[pos as int].0 by {
                assert((old_prefs[pos as int]).0 < (old_prefs[k]).0);
            }
        }
    }
    if pos < n && v[pos].0 == code {
        proof {
            lemma_assoc_at(old_prefs, pos as int);
        }
        let entry = vstd::std_specs::vec::vec_index_mut(v, pos);
        *entry = (code, p);
        proof {
            assert(v@.len() == old_prefs.len());
            assert(forall|k: int|
                0 <= k < old_prefs.len() && k != pos ==> v@[k] == #[trigger] old_prefs[k]);
            assert forall|a: int, b: int| 0 <= a < b < v@.len() implies (#[trigger] v@[a]).0 < (
            #[trigger] v@[b]).0 by {
                assert((old_prefs[a]).0 < (old_prefs[b]).0);
                assert(v@[a].0 == old_prefs[a].0);
                assert(v@[b].0 == old_prefs[b].0);
            }
            lemma_assoc_at(v@, pos as int);
            assert forall|c: u32| #[trigger] assoc_has(v@, c) == (assoc_has(old_prefs, c) || c
                == code) by {
                if assoc_has(v@, c) {
                    let k = choose|k: int| 0 <= k < v@.len() && (#[trigger] v@[k]).0 == c;
                    assert(old_prefs[k].0 == c);
                }
                if assoc_has(old_prefs, c) {
                    let k = choose|k: int|
                        0 <= k < old_prefs.len() && (#[trigger] old_prefs[k]).0 == c;
                    assert(v@[k].0 == c);
                }
            }
            assert forall|c: u32| c != code implies #[trigger] pref_states(v@, c) == pref_states(
                old_prefs,
                c,
            ) by {
                if assoc_has(old_prefs, c) {
                    let k = choose|k: int|
                        0 <= k < old_prefs.len() && (#[trigger] old_prefs[k]).0 == c;
                    lemma_assoc_at(old_prefs, k);
                    assert(k != pos);
                    assert(v@[k].0 == c);
                    lemma_assoc_at(v@, k);
                } else {
                    assert(!assoc_has(v@, c));
                }
            }
        }
    } else {
        proof {
            if pos < n {
                assert(old_prefs[pos as int].0 > code);
            }
        }
        v.insert(pos, (code, p));
        proof {
            assert(v@ == old_prefs.insert(pos as int, (code, p)));
            assert(forall|k: int| 0 <= k < pos ==> v@[k] == #[trigger] old_prefs[k]);
            assert(forall|k: int| pos < k < v@.len() ==> v@[k] == #[trigger] old_prefs[k - 1]);
            assert(v@[pos as int] == (code, p));
            assert forall|a: int, b: int| 0 <= a < b < v@.len() implies (#[trigger] v@[a]).0 < (
            #[trigger] v@[b]).0 by {
                if b < pos {
                    assert((old_prefs[a]).0 < (old_prefs[b]).0);
                } else if b == pos {
                    assert(v@[a].0 == old_prefs[a].0);
                    assert(old_prefs[a].0 < code);
                } else if a == pos {
                    assert(v@[b].0 == old_prefs[b - 1].0);
                    assert(old_prefs[b - 1].0 >= old_prefs[pos as int].0) by {
                        if b - 1 > pos {
                            assert((old_prefs[pos as int]).0 < (old_prefs[b - 1]).0);
                        }
                    }
                    assert(old_prefs[pos as int].0 > code);
                } else if a < pos {
                    assert(v@[a].0 == old_prefs[a].0);
                    assert(v@[b].0 == old_prefs[b - 1].0);
                    assert(old_prefs[a].0 < code);
                    assert(old_prefs[b - 1].0 >= old_prefs[pos as int].0) by {
                        if b - 1 > pos {
                            assert((old_prefs[pos as int]).0 < (old_prefs[b - 1]).0);
                        }
                    }
                    assert(old_prefs[pos as int].0 > code);
                } else {
                    assert(v@[a].0 == old_prefs[a - 1].0);
                    assert(v@[b].0 == old_prefs[b - 1].0);
                    assert((old_prefs[a - 1]).0 < (old_prefs[b - 1]).0);
                }
            }
            lemma_assoc_at(v@, pos as int);
            assert(!assoc_has(old_prefs, code)) by {
                if assoc_has(old_prefs, code) {
                    let k = choose|k: int|
                        0 <= k < old_prefs.len() && (#[trigger] old_prefs[k]).0 == code;
                    if k < pos {
                        assert(old_prefs[k].0 < code);
                    } else if k == pos {
                        assert(old_prefs[pos as int].0 > code);
                    } else {
                        assert((old_prefs[pos as int]).0 < (old_prefs[k]).0);
                    }
                }
            }
            assert forall|c: u32| #[trigger] assoc_has(v@, c) == (assoc_has(old_prefs, c) || c
                == code) by {
                if assoc_has(v@, c) && c != code {
                    let k = choose|k: int| 0 <= k < v@.len() && (#[trigger] v@[k]).0 == c;
                    assert(k != pos);
                    if k < pos {
                        assert(old_prefs[k].0 == c);
                    } else {
                        assert(old_prefs[k - 1].0 == c);
                    }
                }
                if assoc_has(old_prefs, c) {
                    let k = choose|k: int|
                        0 <= k < old_prefs.len() && (#[trigger] old_prefs[k]).0 == c;
                    if k < pos {
                        assert(v@[k].0 == c);
                    } else {
                        assert(v@[k + 1].0 == c);
                    }
                }
            }
            assert forall|c: u32| c != code implies #[trigger] pref_states(v@, c) == pref_states(
                old_prefs,
                c,
            ) by {
                if assoc_has(old_prefs, c) {
                    let k = choose|k: int|
                        0 <= k < old_prefs.len() && (#[trigger] old_prefs[k]).0 == c;
                    lemma_assoc_at(old_prefs, k);
                    if k < pos {
                        assert(v@[k] == old_prefs[k]);
                        lemma_assoc_at(v@, k);
                    } else {
                        assert(v@[k + 1] == old_prefs[k]);
                        lemma_assoc_at(v@, k + 1);
                    }
                } else {
                    assert(!assoc_has(v@, c));
                }
            }
        }
    }
}

/// What one decoded batch asks the distribution layer to publish: the raw
/// frame for passthrough, the batch's calendar date, and fresh copies of the
/// per-station, per-prefecture and trailing-window aggregates.
pub struct PublishBundle {
    /// The raw encoded batch, republished unchanged.
    pub raw: Vec<u8>,
    /// The batch's calendar date.
    pub date: Date,
    /// The all-time aggregate of each station this batch touched, ascending
    /// by station id.
    pub point_snapshots: Vec<(u32, PointAggregateResult)>,
    /// Every known prefecture's aggregate, ascending by prefecture code.
    pub prefecture_snapshots: Vec<(u32, PrefectureAggregateResult)>,
    /// Every station's trailing-window summary, ascending by station id.
    pub window_snapshots: Vec<(u32, WindowAggregateResult)>,
}

/// The multi-tier running aggregator: per-station all-time and monthly
/// statistics, per-prefecture statistics fed by center stations, and the
/// per-station trailing windows, all advanced by each incoming batch.
pub struct Aggregator {
    meta: Vec<StationMeta>,
    aggregate_by_point: Vec<(u32, PointAggregateResult)>,
    aggregate_by_prefecture: Vec<(u32, PrefectureAggregateResult)>,
    window_aggregator: WindowAggregator,
    total_count: u64,
}

impl Aggregator {
    /// The station metadata the aggregator was built over.
    pub closed spec fn metas(&self) -> Seq<StationMeta> {
        self.meta@
    }

    /// Some reading of this station has been folded in.
    pub closed spec fn has_point(&self, id: u32) -> bool {
        assoc_has(self.aggregate_by_point@, id)
    }

    /// The station's all-time statistics, if it has reported.
    pub closed spec fn point_state(&self, id: u32) -> Option<PointModel> {
        point_states(self.aggregate_by_point@, id)
    }

    /// The prefecture code is known, that is, some station was its center at
    /// construction.
    pub closed spec fn has_pref(&self, code: u32) -> bool {
        assoc_has(self.aggregate_by_prefecture@, code)
    }

    /// The prefecture's all-time statistics, if its code is known.
    pub closed spec fn pref_state(&self, code: u32) -> Option<PrefModel> {
        pref_states(self.aggregate_by_prefecture@, code)
    }

    /// A station is present exactly when it has a state: the positive link
    /// that lets callers conclude membership in the published snapshots.
    pub proof fn lemma_point_state_has(&self, id: u32)
        ensures
            self.has_point(id) <==> self.point_state(id) is Some,
    {
    }

    /// A prefecture is present exactly when it has a state.
    pub proof fn lemma_pref_state_has(&self, code: u32)
        ensures
            self.has_pref(code) <==> self.pref_state(code) is Some,
    {
    }

    /// Every reading the station's trailing window has ever taken.
    pub closed spec fn window_history_of(&self, id: u32) -> Seq<crate::window::Reading> {
        self.window_aggregator.history_of(id)
    }

    /// The number of records ever folded in.
    pub closed spec fn total_spec(&self) -> int {
        self.total_count as int
    }

    /// Structural invariant over all four tiers.
    pub closed spec fn wf(&self) -> bool {
        &&& metas_sorted(self.meta@)
        &&& assoc_sorted(self.aggregate_by_point@)
        &&& assoc_sorted(self.aggregate_by_prefecture@)
        &&& (forall|i: int|
            0 <= i < self.aggregate_by_point@.len() ==> (
            #[trigger] self.aggregate_by_point@[i]).1.wf())
        &&& (forall|i: int|
            0 <= i < self.aggregate_by_point@.len() ==> (
            #[trigger] self.aggregate_by_point@[i]).1.count <= self.total_count)
        &&& (forall|i: int|
            0 <= i < self.aggregate_by_prefecture@.len() ==> (
            #[trigger] self.aggregate_by_prefecture@[i]).1.wf())
        &&& (forall|i: int|
            0 <= i < self.aggregate_by_prefecture@.len() ==> (
            #[trigger] self.aggregate_by_prefecture@[i]).1.count <= self.total_count)
        &&& self.window_aggregator.wf()
        &&& self.window_aggregator.total_spec() <= self.total_count
    }

    /// The number of records ever folded in.
    pub fn total_count(&self) -> (r: u64)
        ensures
            r == self.total_spec(),
    {
        self.total_count
    }

    /// Builds an aggregator over the given station metadata, pre-populating
    /// one prefecture record per prefecture that has a designated center; a
    /// later center of the same prefecture replaces an earlier one.
    pub fn new(points: Vec<StationMeta>) -> (r: Aggregator)
        requires
            metas_sorted(points@),
        ensures
            r.wf(),
            r.total_spec() == 0,
            r.metas() == points@,
            forall|id: u32| !(#[trigger] r.has_point(id)),
            forall|id: u32|
                #[trigger] r.window_history_of(id) == Seq::<crate::window::Reading>::empty(),
            forall|code: u32|
                #[trigger] r.pref_state(code) == (match spec_last_center(points@, code) {
                    Option::Some(m) => Option::Some(spec_pref_new(m)),
                    Option::None => Option::<PrefModel>::None,
                }),
    {
        let mut prefs: Vec<(u32, PrefectureAggregateResult)> = Vec::new();
        let n = points.len();
        let mut i: usize = 0;
        proof {
            assert forall|code: u32| #[trigger] pref_states(prefs@, code) == (
            match spec_last_center(points@.take(0), code) {
                Option::Some(m) => Option::Some(spec_pref_new(m)),
                Option::None => Option::<PrefModel>::None,
            }) by {
                assert(points@.take(0) =~= Seq::<StationMeta>::empty());
                assert(!assoc_has(prefs@, code));
            }
        }
        while i < n
            invariant
                i <= n,
                n == points@.len(),
                metas_sorted(points@),
                assoc_sorted(prefs@),
                forall|k: int|
                    0 <= k < prefs@.len() ==> (#[trigger] prefs@[k]).1.wf() && prefs@[k].1.count
                        == 0,
                forall|code: u32|
                    #[trigger] pref_states(prefs@, code) == (match spec_last_center(
                        points@.take(i as int),
                        code,
                    ) {
                        Option::Some(m) => Option::Some(spec_pref_new(m)),
                        Option::None => Option::<PrefModel>::None,
                    }),
            decreases n - i,
        {
            let m = vstd::std_specs::vec::vec_index(&points, i);
            let ghost prev = prefs@;
            if m.is_prefecture_center {
                let p = PrefectureAggregateResult::new(
                    m.id,
                    m.name.clone(),
                    m.prefecture_name.clone(),
                );
                proof {
                    assert(p.model() == spec_pref_new(points@[i as int]));
                }
                pref_put(&mut prefs, m.prefecture_code, p);
            }
            proof {
                assert(points@.take(i + 1).drop_last() =~= points@.take(i as int));
                assert(points@.take(i + 1).last() == points@[i as int]);
                let lastm = points@[i as int];
                assert forall|code: u32| #[trigger] pref_states(prefs@, code) == (
                match spec_last_center(points@.take(i + 1), code) {
                    Option::Some(mm) => Option::Some(spec_pref_new(mm)),
                    Option::None => Option::<PrefModel>::None,
                }) by {
                    if lastm.is_prefecture_center && lastm.prefecture_code == code {
                        assert(spec_last_center(points@.take(i + 1), code) == Option::Some(lastm));
                    } else {
                        assert(spec_last_center(points@.take(i + 1), code) == spec_last_center(
                            points@.take(i as int),
                            code,
                        ));
                        if lastm.is_prefecture_center {
                            assert(pref_states(prefs@, code) == pref_states(prev, code));
                        }
                    }
                }
            }
            i = i + 1;
        }
        proof {
            assert(points@.take(n as int) =~= points@);
        }
        let r = Aggregator {
            meta: points,
            aggregate_by_point: Vec::new(),
            aggregate_by_prefecture: prefs,
            window_aggregator: WindowAggregator::new(),
            total_count: 0,
        };
        proof {
            assert(forall|id: u32| !(#[trigger] assoc_has(r.aggregate_by_point@, id)));
        }
        r
    }
}

impl Aggregator {
    /// Decodes one raw batch and folds every record into all tiers: the
    /// per-station all-time and monthly statistics, the prefecture of each
    /// center station, and the trailing windows. Returns what the
    /// distribution layer should publish: the raw frame, one all-time
    /// snapshot per station this batch touched, the whole prefecture table,
    /// and every station's window summary. Fails, leaving every tier
    /// untouched, exactly when the bytes do not hold a complete frame.
    pub fn on_receive_data(&mut self, binary: &[u8]) -> (r: Result<PublishBundle, DecodeError>)
        requires
            old(self).wf(),
            old(self).total_spec() + 255 < u64::MAX,
        ensures
            (match r {
                Result::Ok(bundle) => {
                    let recs = crate::codec::spec_decoded_records(binary@);
                    &&& crate::codec::spec_frame_complete(binary@)
                    &&& final(self).wf()
                    &&& final(self).metas() == old(self).metas()
                    &&& final(self).total_spec() == old(self).total_spec() + recs.len()
                    &&& (bundle.date.year, bundle.date.month, bundle.date.day)
                        == ymd_of_day_offset(crate::codec::spec_decoded_days(binary@) as u16)
                    &&& bundle.date.wf()
                    &&& (forall|id: u32|
                        #[trigger] final(self).point_state(id) == spec_apply_points(
                            old(self).point_state(id),
                            bundle.date,
                            recs,
                            id,
                        ))
                    &&& (forall|code: u32|
                        #[trigger] final(self).pref_state(code) == spec_apply_prefs(
                            old(self).pref_state(code),
                            bundle.date,
                            recs,
                            code,
                            old(self).metas(),
                        ))
                    &&& (forall|id: u32|
                        #[trigger] final(self).window_history_of(id) == old(
                            self,
                        ).window_history_of(id) + station_records(recs, id))
                    &&& bundle.raw@ == binary@
                    &&& (forall|k1: int, k2: int|
                        0 <= k1 < k2 < bundle.point_snapshots@.len() ==> (
                        #[trigger] bundle.point_snapshots@[k1]).0 < (
                        #[trigger] bundle.point_snapshots@[k2]).0)
                    &&& (forall|k: int|
                        0 <= k < bundle.point_snapshots@.len() ==> final(self).point_state(
                            (#[trigger] bundle.point_snapshots@[k]).0,
                        ) == Option::Some(bundle.point_snapshots@[k].1.model())
                            && batch_has_station(recs, bundle.point_snapshots@[k].0))
                    &&& (forall|id: u32|
                        #[trigger] batch_has_station(recs, id) ==> exists|k: int|
                            0 <= k < bundle.point_snapshots@.len() && (
                            #[trigger] bundle.point_snapshots@[k]).0 == id)
                    &&& (forall|k1: int, k2: int|
                        0 <= k1 < k2 < bundle.prefecture_snapshots@.len() ==> (
                        #[trigger] bundle.prefecture_snapshots@[k1]).0 < (
                        #[trigger] bundle.prefecture_snapshots@[k2]).0)
                    &&& (forall|k: int|
                        0 <= k < bundle.prefecture_snapshots@.len() ==> final(self).pref_state(
                            (#[trigger] bundle.prefecture_snapshots@[k]).0,
                        ) == Option::Some(bundle.prefecture_snapshots@[k].1.model()))
                    &&& (forall|code: u32|
                        (#[trigger] final(self).pref_state(code)) is Some ==> exists|k: int|
                            0 <= k < bundle.prefecture_snapshots@.len() && (
                            #[trigger] bundle.prefecture_snapshots@[k]).0 == code)
                    &&& (forall|k1: int, k2: int|
                        0 <= k1 < k2 < bundle.window_snapshots@.len() ==> (
                        #[trigger] bundle.window_snapshots@[k1]).0 < (
                        #[trigger] bundle.window_snapshots@[k2]).0)
                    &&& (forall|k: int|
                        0 <= k < bundle.window_snapshots@.len() ==> crate::window::is_window_result(
                            (#[trigger] bundle.window_snapshots@[k]).1,
                            final(self).window_history_of(bundle.window_snapshots@[k].0),
                        ))
                    &&& (forall|id: u32|
                        #[trigger] final(self).window_history_of(id).len() > 0 ==> exists|k: int|
                            0 <= k < bundle.window_snapshots@.len() && (
                            #[trigger] bundle.window_snapshots@[k]).0 == id)
                },
                Result::Err(e) => {
                    &&& !crate::codec::spec_frame_complete(binary@)
                    &&& e == DecodeError::Truncated
                    &&& *final(self) == *old(self)
                },
            }),
    {
        let parts = crate::codec::decompress_data(binary);
        let (days, recs) = match parts {
            Result::Ok(p) => p,
            Result::Err(e) => {
                return Err(e);
            },
        };
        let ghost recs_g = recs@;
        proof {
            assert(recs_g =~= crate::codec::spec_decoded_records(binary@));
        }
        let date = date_of_day_offset(days);
        let n = recs.len();
        let old_total = self.total_count;
        let mut i: usize = 0;
        proof {
            assert(recs_g.take(0) =~= Seq::<ObservationPointData>::empty());
        }
        while i < n
            invariant
                i <= n,
                n == recs_g.len(),
                recs@ == recs_g,
                n <= 255,
                date.wf(),
                self.meta@ == old(self).meta@,
                metas_sorted(self.meta@),
                self.window_aggregator == old(self).window_aggregator,
                old_total == old(self).total_count,
                old_total + 255 < u64::MAX,
                self.total_count == old_total + i,
                assoc_sorted(self.aggregate_by_point@),
                forall|k: int|
                    0 <= k < self.aggregate_by_point@.len() ==> (
                    #[trigger] self.aggregate_by_point@[k]).1.wf(),
                forall|k: int|
                    0 <= k < self.aggregate_by_point@.len() ==> (
                    #[trigger] self.aggregate_by_point@[k]).1.count <= old_total + i,
                forall|id: u32|
                    #[trigger] point_states(self.aggregate_by_point@, id) == spec_apply_points(
                        old(self).point_state(id),
                        date,
                        recs_g.take(i as int),
                        id,
                    ),
                assoc_sorted(self.aggregate_by_prefecture@),
                forall|k: int|
                    0 <= k < self.aggregate_by_prefecture@.len() ==> (
                    #[trigger] self.aggregate_by_prefecture@[k]).1.wf(),
                forall|k: int|
                    0 <= k < self.aggregate_by_prefecture@.len() ==> (
                    #[trigger] self.aggregate_by_prefecture@[k]).1.count <= old_total + i,
                forall|code: u32|
                    #[trigger] pref_states(self.aggregate_by_prefecture@, code)
                        == spec_apply_prefs(
                        old(self).pref_state(code),
                        date,
                        recs_g.take(i as int),
                        code,
                        old(self).metas(),
                    ),
            decreases n - i,
        {
            let ghost pts_before = self.aggregate_by_point@;
            let ghost prefs_before = self.aggregate_by_prefecture@;
            let rec = vstd::std_specs::vec::vec_index(&recs, i);
            proof {
                if assoc_has(pts_before, rec.id) {
                    let k = choose|k: int|
                        0 <= k < pts_before.len() && (#[trigger] pts_before[k]).0 == rec.id;
                    assert(pts_before[k].1.count <= old_total + i);
                }
            }
            point_put(&mut self.aggregate_by_point, date, rec);
            let code_opt = center_code(&self.meta, rec.id);
            match code_opt {
                Option::Some(code) => {
                    proof {
                        if assoc_has(prefs_before, code) {
                            let k = choose|k: int|
                                0 <= k < prefs_before.len() && (#[trigger] prefs_before[k]).0
                                    == code;
                            assert(prefs_before[k].1.count <= old_total + i);
                        }
                    }
                    pref_bump(
                        &mut self.aggregate_by_prefecture,
                        date,
                        code,
                        rec.min,
                        rec.max,
                        rec.average,
                    );
                },
                Option::None => {},
            }
            self.total_count = self.total_count + 1;
            proof {
                assert(recs_g.take(i + 1).drop_last() =~= recs_g.take(i as int));
                assert(recs_g.take(i + 1).last() == recs_g[i as int]);
                // per-station fold advances by this record
                assert forall|id: u32| #[trigger] point_states(self.aggregate_by_point@, id)
                    == spec_apply_points(
                    old(self).point_state(id),
                    date,
                    recs_g.take(i + 1),
                    id,
                ) by {
                    if id == rec.id {
                    } else {
                        assert(point_states(self.aggregate_by_point@, id) == point_states(
                            pts_before,
                            id,
                        ));
                    }
                }
                // the station counts grew by at most this one record
                assert forall|k: int| 0 <= k < self.aggregate_by_point@.len() implies (
                #[trigger] self.aggregate_by_point@[k]).1.count <= old_total + i + 1 by {
                    let key = self.aggregate_by_point@[k].0;
                    lemma_assoc_at(self.aggregate_by_point@, k);
                    if key == rec.id {
                        if assoc_has(pts_before, rec.id) {
                            let j = choose|j: int|
                                0 <= j < pts_before.len() && (#[trigger] pts_before[j]).0 == rec.id;
                            lemma_assoc_at(pts_before, j);
                            assert(pts_before[j].1.count <= old_total + i);
                        }
                    } else {
                        assert(point_states(self.aggregate_by_point@, key) == point_states(
                            pts_before,
                            key,
                        ));
                        assert(assoc_has(pts_before, key));
                        let j = choose|j: int|
                            0 <= j < pts_before.len() && (#[trigger] pts_before[j]).0 == key;
                        lemma_assoc_at(pts_before, j);
                        assert(pts_before[j].1.count <= old_total + i);
                    }
                }
                // the prefecture fold advances by this record
                let fed = spec_center_code(old(self).metas(), rec.id);
                assert forall|code: u32| #[trigger] pref_states(
                    self.aggregate_by_prefecture@,
                    code,
                ) == spec_apply_prefs(
                    old(self).pref_state(code),
                    date,
                    recs_g.take(i + 1),
                    code,
                    old(self).metas(),
                ) by {
                    if fed == Option::<u32>::Some(code) {
                    } else {
                        assert(pref_states(self.aggregate_by_prefecture@, code) == pref_states(
                            prefs_before,
                            code,
                        ));
                    }
                }
                // the prefecture counts grew by at most this one record
                assert forall|k: int| 0 <= k < self.aggregate_by_prefecture@.len() implies (
                #[trigger] self.aggregate_by_prefecture@[k]).1.count <= old_total + i + 1 by {
                    let key = self.aggregate_by_prefecture@[k].0;
                    lemma_assoc_at(self.aggregate_by_prefecture@, k);
                    assert(assoc_has(prefs_before, key));
                    let j = choose|j: int|
                        0 <= j < prefs_before.len() && (#[trigger] prefs_before[j]).0 == key;
                    lemma_assoc_at(prefs_before, j);
                    assert(prefs_before[j].1.count <= old_total + i);
                    match code_opt {
                        Option::Some(code) => {
                            if key == code {
                                assert(pref_states(self.aggregate_by_prefecture@, code)
                                    == Option::Some(
                                    spec_pref_add(
                                        prefs_before[j].1.model(),
                                        date,
                                        rec.min as int,
                                        rec.max as int,
                                        rec.average as int,
                                    ),
                                ));
                            } else {
                                assert(pref_states(self.aggregate_by_prefecture@, key)
                                    == pref_states(prefs_before, key));
                            }
                        },
                        Option::None => {
                            assert(self.aggregate_by_prefecture@ == prefs_before);
                        },
                    }
                }
            }
            i = i + 1;
        }
        proof {
            assert(recs_g.take(n as int) =~= recs_g);
        }
        self.window_aggregator.add(&recs);
        // assemble what the distribution layer should publish
        let raw = vstd::slice::slice_to_vec(binary);
        let pn = self.aggregate_by_point.len();
        let mut point_snapshots: Vec<(u32, PointAggregateResult)> = Vec::new();
        let mut i: usize = 0;
        while i < pn
            invariant
                i <= pn,
                pn == self.aggregate_by_point@.len(),
                recs@ == recs_g,
                assoc_sorted(self.aggregate_by_point@),
                forall|k: int|
                    0 <= k < self.aggregate_by_point@.len() ==> (
                    #[trigger] self.aggregate_by_point@[k]).1.wf(),
                forall|k1: int, k2: int|
                    0 <= k1 < k2 < point_snapshots@.len() ==> (
                    #[trigger] point_snapshots@[k1]).0 < (#[trigger] point_snapshots@[k2]).0,
                forall|k: int|
                    0 <= k < point_snapshots@.len() ==> exists|j: int|
                        0 <= j < i && (#[trigger] point_snapshots@[k]).0 == (
                        #[trigger] self.aggregate_by_point@[j]).0,
                forall|k: int|
                    0 <= k < point_snapshots@.len() ==> point_states(
                        self.aggregate_by_point@,
                        (#[trigger] point_snapshots@[k]).0,
                    ) == Option::Some(point_snapshots@[k].1.model()) && batch_has_station(
                        recs_g,
                        point_snapshots@[k].0,
                    ),
                forall|j: int|
                    0 <= j < i && batch_has_station(
                        recs_g,
                        (#[trigger] self.aggregate_by_point@[j]).0,
                    ) ==> exists|k: int|
                        0 <= k < point_snapshots@.len() && (#[trigger] point_snapshots@[k]).0
                            == self.aggregate_by_point@[j].0,
            decreases pn - i,
        {
            let entry = vstd::std_specs::vec::vec_index(&self.aggregate_by_point, i);
            if batch_contains(&recs, entry.0) {
                let snap = entry.1.snapshot();
                let ghost snaps_old = point_snapshots@;
                point_snapshots.push((entry.0, snap));
                proof {
                    lemma_assoc_at(self.aggregate_by_point@, i as int);
                    assert(point_snapshots@[point_snapshots@.len() - 1].0
                        == self.aggregate_by_point@[i as int].0);
                    assert forall|k1: int, k2: int|
                        0 <= k1 < k2 < point_snapshots@.len() implies (
                    #[trigger] point_snapshots@[k1]).0 < (#[trigger] point_snapshots@[k2]).0 by {
                        if k2 == point_snapshots@.len() - 1 {
                            let j = choose|j: int|
                                0 <= j < i && (#[trigger] snaps_old[k1]).0 == (
                                #[trigger] self.aggregate_by_point@[j]).0;
                            assert((self.aggregate_by_point@[j]).0 < (
                            self.aggregate_by_point@[i as int]).0);
                        }
                    }
                    assert forall|j: int|
                        0 <= j < i + 1 && batch_has_station(
                            recs_g,
                            (#[trigger] self.aggregate_by_point@[j]).0,
                        ) implies exists|k: int|
                        0 <= k < point_snapshots@.len() && (#[trigger] point_snapshots@[k]).0
                            == self.aggregate_by_point@[j].0 by {
                        if j < i {
                            let k = choose|k: int|
                                0 <= k < snaps_old.len() && (#[trigger] snaps_old[k]).0
                                    == self.aggregate_by_point@[j].0;
                            assert(point_snapshots@[k].0 == self.aggregate_by_point@[j].0);
                        }
                    }
                }
            }
            i = i + 1;
        }
        let fn_ = self.aggregate_by_prefecture.len();
        let mut prefecture_snapshots: Vec<(u32, PrefectureAggregateResult)> = Vec::new();
        let mut i: usize = 0;
        while i < fn_
            invariant
                i <= fn_,
                fn_ == self.aggregate_by_prefecture@.len(),
                assoc_sorted(self.aggregate_by_prefecture@),
                forall|k: int|
                    0 <= k < self.aggregate_by_prefecture@.len() ==> (
                    #[trigger] self.aggregate_by_prefecture@[k]).1.wf(),
                prefecture_snapshots@.len() == i,
                forall|k: int|
                    0 <= k < i ==> (#[trigger] prefecture_snapshots@[k]).0
                        == self.aggregate_by_prefecture@[k].0 && prefecture_snapshots@[k].1.model()
                        == self.aggregate_by_prefecture@[k].1.model(),
            decreases fn_ - i,
        {
            let entry = vstd::std_specs::vec::vec_index(&self.aggregate_by_prefecture, i);
            let snap = entry.1.snapshot();
            prefecture_snapshots.push((entry.0, snap));
            i = i + 1;
        }
        let window_snapshots = self.window_aggregator.to_vec();
        proof {
            // feed 1 is complete for the batch: a touched station's state
            // exists after the fold, so its entry was emitted
            assert forall|id: u32| #[trigger] batch_has_station(recs_g, id) implies exists|k: int|
                0 <= k < point_snapshots@.len() && (#[trigger] point_snapshots@[k]).0 == id by {
                lemma_apply_points_some(old(self).point_state(id), date, recs_g, id);
                assert(point_states(self.aggregate_by_point@, id) is Some);
                assert(assoc_has(self.aggregate_by_point@, id));
                let j = choose|j: int|
                    0 <= j < self.aggregate_by_point@.len() && (
                    #[trigger] self.aggregate_by_point@[j]).0 == id;
                assert(batch_has_station(recs_g, self.aggregate_by_point@[j].0));
            }
            assert forall|k: int| 0 <= k < prefecture_snapshots@.len() implies pref_states(
                self.aggregate_by_prefecture@,
                (#[trigger] prefecture_snapshots@[k]).0,
            ) == Option::Some(prefecture_snapshots@[k].1.model()) by {
                lemma_assoc_at(self.aggregate_by_prefecture@, k);
            }
            assert forall|code: u32| #[trigger] assoc_has(
                self.aggregate_by_prefecture@,
                code,
            ) implies exists|k: int|
                0 <= k < prefecture_snapshots@.len() && (#[trigger] prefecture_snapshots@[k]).0
                    == code by {
                let j = choose|j: int|
                    0 <= j < self.aggregate_by_prefecture@.len() && (
                    #[trigger] self.aggregate_by_prefecture@[j]).0 == code;
                assert(prefecture_snapshots@[j].0 == code);
            }
        }
        proof {
            assert(crate::codec::spec_decoded_days(binary@) == days as int);
            assert((crate::codec::spec_decoded_days(binary@) as u16) == days);
            assert forall|k1: int, k2: int|
                0 <= k1 < k2 < prefecture_snapshots@.len() implies (
            #[trigger] prefecture_snapshots@[k1]).0 < (#[trigger] prefecture_snapshots@[k2]).0 by {
                assert((self.aggregate_by_prefecture@[k1]).0
                    < (self.aggregate_by_prefecture@[k2]).0);
            }
            assert forall|id: u32|
                #[trigger] self.window_aggregator.history_of(id).len() > 0 implies exists|k: int|
                0 <= k < window_snapshots@.len() && (#[trigger] window_snapshots@[k]).0 == id by {
                self.window_aggregator.lemma_nonempty_has(id);
            }
        }
        Ok(
            PublishBundle {
                raw,
                date,
                point_snapshots,
                prefecture_snapshots,
                window_snapshots,
            },
        )
    }
}

} // verus!
