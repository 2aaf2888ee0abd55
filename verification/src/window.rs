//! The trailing-window aggregator: per station, a circular buffer of the most
//! recent 365 average readings, two range-aggregate trees for the trailing
//! maximum and minimum, and a running sum for the trailing average.

use crate::codec::ObservationPointData;
use crate::segtree::{fold_range, BinOp, MaxI32, MinI32, SegmentTree};
use vstd::arithmetic::div_mod::{
    lemma_add_mod_noop,
    lemma_fundamental_div_mod,
    lemma_mod_bound,
    lemma_mod_multiples_vanish,
    lemma_small_mod,
};
use vstd::prelude::*;

verus! {

/// The number of trailing readings each station's window holds.
pub const WINDOW_SIZE: usize = 365;

/// A reading as the window sees it: `(min, max, average)`, in decicelsius.
pub type Reading = (i32, i32, i32);

/// Where a history's trailing window begins: the last 365 entries, or all of
/// them when fewer have been seen.
pub open spec fn window_start(len: int) -> int {
    if len <= 365 {
        0
    } else {
        len - 365
    }
}

/// The sum of the average readings over `h[lo..hi]`.
pub open spec fn spec_window_sum(h: Seq<Reading>, lo: int, hi: int) -> int
    decreases hi - lo,
{
    if lo >= hi {
        0
    } else {
        spec_window_sum(h, lo, hi - 1) + h[hi - 1].2
    }
}

proof fn lemma_window_sum_congruence(h1: Seq<Reading>, h2: Seq<Reading>, lo: int, hi: int)
    requires
        0 <= lo,
        hi <= h1.len(),
        hi <= h2.len(),
        forall|t: int| lo <= t < hi ==> h1[t] == h2[t],
    ensures
        spec_window_sum(h1, lo, hi) == spec_window_sum(h2, lo, hi),
    decreases hi - lo,
{
    if lo < hi {
        lemma_window_sum_congruence(h1, h2, lo, hi - 1);
    }
}

proof fn lemma_window_sum_left_peel(h: Seq<Reading>, lo: int, hi: int)
    requires
        lo < hi,
    ensures
        spec_window_sum(h, lo, hi) == h[lo].2 + spec_window_sum(h, lo + 1, hi),
    decreases hi - lo,
{
    if lo + 1 == hi {
        assert(spec_window_sum(h, lo, hi) == spec_window_sum(h, lo, lo) + h[lo].2);
        assert(spec_window_sum(h, lo, lo) == 0);
        assert(spec_window_sum(h, lo + 1, hi) == 0);
    } else {
        lemma_window_sum_left_peel(h, lo, hi - 1);
        assert(spec_window_sum(h, lo, hi) == spec_window_sum(h, lo, hi - 1) + h[hi - 1].2);
        assert(spec_window_sum(h, lo + 1, hi) == spec_window_sum(h, lo + 1, hi - 1) + h[hi - 1].2);
    }
}

proof fn lemma_window_sum_bounds(h: Seq<Reading>, lo: int, hi: int)
    requires
        0 <= lo <= hi <= h.len(),
    ensures
        -((hi - lo) * 0x8000_0000) <= spec_window_sum(h, lo, hi) <= (hi - lo) * 0x8000_0000,
    decreases hi - lo,
{
    if lo < hi {
        lemma_window_sum_bounds(h, lo, hi - 1);
    }
}

/// Two distinct times closer than the window size land on distinct buffer
/// positions.
proof fn lemma_mod_distinct(a: int, b: int, m: int)
    requires
        0 <= a < b,
        b - a < m,
        0 < m,
    ensures
        a % m != b % m,
{
    lemma_fundamental_div_mod(a, m);
    lemma_fundamental_div_mod(b, m);
    lemma_mod_bound(a, m);
    lemma_mod_bound(b, m);
    if a % m == b % m {
        assert(b - a == m * (b / m) - m * (a / m));
        assert(m * (b / m) - m * (a / m) == m * (b / m - a / m)) by (nonlinear_arith);
        assert(0 < m * (b / m - a / m) < m);
        assert(false) by (nonlinear_arith)
            requires
                0 < m * (b / m - a / m) < m,
                0 < m,
        ;
    }
}

/// The fold of the maximum operator bounds every element from above and is
/// attained by one of them (or is the identity).
proof fn lemma_fold_max_props(s: Seq<i32>, lo: int, hi: int)
    requires
        0 <= lo <= hi <= s.len(),
    ensures
        forall|i: int| lo <= i < hi ==> #[trigger] s[i] <= fold_range::<i32, MaxI32>(s, lo, hi),
        fold_range::<i32, MaxI32>(s, lo, hi) == i32::MIN || exists|i: int|
            lo <= i < hi && #[trigger] s[i] == fold_range::<i32, MaxI32>(s, lo, hi),
    decreases hi - lo,
{
    if lo < hi {
        lemma_fold_max_props(s, lo + 1, hi);
        let f = fold_range::<i32, MaxI32>(s, lo, hi);
        let f1 = fold_range::<i32, MaxI32>(s, lo + 1, hi);
        assert(f == MaxI32::op(s[lo], f1));
        if f == s[lo] {
            assert(exists|i: int| lo <= i < hi && #[trigger] s[i] == f);
        }
    }
}

/// The fold of the minimum operator bounds every element from below and is
/// attained by one of them (or is the identity).
proof fn lemma_fold_min_props(s: Seq<i32>, lo: int, hi: int)
    requires
        0 <= lo <= hi <= s.len(),
    ensures
        forall|i: int| lo <= i < hi ==> #[trigger] s[i] >= fold_range::<i32, MinI32>(s, lo, hi),
        fold_range::<i32, MinI32>(s, lo, hi) == i32::MAX || exists|i: int|
            lo <= i < hi && #[trigger] s[i] == fold_range::<i32, MinI32>(s, lo, hi),
    decreases hi - lo,
{
    if lo < hi {
        lemma_fold_min_props(s, lo + 1, hi);
        let f = fold_range::<i32, MinI32>(s, lo, hi);
        let f1 = fold_range::<i32, MinI32>(s, lo + 1, hi);
        assert(f == MinI32::op(s[lo], f1));
        if f == s[lo] {
            assert(exists|i: int| lo <= i < hi && #[trigger] s[i] == f);
        }
    }
}

/// `m` is the maximum of the `max` readings over the trailing window of `h`.
pub open spec fn is_window_max(m: i32, h: Seq<Reading>) -> bool {
    let lo = window_start(h.len() as int);
    &&& (forall|t: int| lo <= t < h.len() ==> (#[trigger] h[t]).1 <= m)
    &&& (exists|t: int| lo <= t < h.len() && (#[trigger] h[t]).1 == m)
}

/// `m` is the minimum of the `min` readings over the trailing window of `h`.
pub open spec fn is_window_min(m: i32, h: Seq<Reading>) -> bool {
    let lo = window_start(h.len() as int);
    &&& (forall|t: int| lo <= t < h.len() ==> (#[trigger] h[t]).0 >= m)
    &&& (exists|t: int| lo <= t < h.len() && (#[trigger] h[t]).0 == m)
}

/// One station's trailing-window state.
pub struct PointAggregator {
    records: Vec<i32>,
    count: u64,
    index: usize,
    sum: i64,
    max_seg: SegmentTree<i32, MaxI32>,
    min_seg: SegmentTree<i32, MinI32>,
    hist: Ghost<Seq<Reading>>,
}

impl PointAggregator {
    /// Every reading ever handed to `add`, oldest first; the trailing window
    /// is its last 365 entries.
    pub closed spec fn history(&self) -> Seq<Reading> {
        self.hist@
    }

    /// Structural invariant: the circular buffer, both trees and the running
    /// sum agree with the trailing window of the history.
    pub closed spec fn wf(&self) -> bool {
        let h = self.hist@;
        let len = h.len() as int;
        &&& self.count == h.len()
        &&& self.records@.len() == 365
        &&& self.max_seg.wf()
        &&& self.max_seg.values().len() == 365
        &&& self.min_seg.wf()
        &&& self.min_seg.values().len() == 365
        &&& self.index == self.count as int % 365
        &&& self.sum == spec_window_sum(h, window_start(len), len)
        &&& -(365 * 0x8000_0000) <= self.sum
        &&& self.sum <= 365 * 0x8000_0000
        &&& (forall|t: int|
            window_start(len) <= t < len ==> {
                &&& self.records@[t % 365] == (#[trigger] h[t]).2
                &&& self.max_seg.values()[t % 365] == h[t].1
                &&& self.min_seg.values()[t % 365] == h[t].0
            })
        &&& (len < 365 ==> (forall|j: int| len <= j < 365 ==> #[trigger] self.records@[j] == 0))
        &&& (len < 365 ==> (forall|j: int|
            len <= j < 365 ==> #[trigger] self.max_seg.values()[j] == i32::MIN))
        &&& (len < 365 ==> (forall|j: int|
            len <= j < 365 ==> #[trigger] self.min_seg.values()[j] == i32::MAX))
    }

    /// A fresh station with an empty history.
    pub fn new() -> (r: Self)
        ensures
            r.wf(),
            r.history() == Seq::<Reading>::empty(),
    {
        let mut records: Vec<i32> = Vec::new();
        let mut i: usize = 0;
        while i < WINDOW_SIZE
            invariant
                records@.len() == i,
                i <= 365,
                forall|k: int| 0 <= k < i ==> records@[k] == 0,
            decreases 365 - i,
        {
            records.push(0);
            i = i + 1;
        }
        let r = PointAggregator {
            records,
            count: 0,
            index: 0,
            sum: 0,
            max_seg: SegmentTree::new(WINDOW_SIZE),
            min_seg: SegmentTree::new(WINDOW_SIZE),
            hist: Ghost(Seq::empty()),
        };
        proof {
            lemma_small_mod(0, 365);
        }
        r
    }

    /// Records one reading: replaces the oldest buffered average, updates the
    /// running sum, writes max and min into the trees, and advances the
    /// cursor.
    pub fn add(&mut self, min: i32, max: i32, avg: i32)
        requires
            old(self).wf(),
            old(self).history().len() < u64::MAX,
        ensures
            final(self).wf(),
            final(self).history() == old(self).history().push((min, max, avg)),
    {
        let ghost h_old = self.hist@;
        let ghost len = h_old.len() as int;
        let ghost lo_old = window_start(len);
        let idx = self.index;
        proof {
            lemma_mod_bound(len, 365);
            if len >= 365 {
                lemma_mod_multiples_vanish(-1, len, 365);
                assert((len - 365) % 365 == len % 365);
                assert(self.records@[(len - 365) % 365] == h_old[len - 365].2);
            } else {
                lemma_small_mod(len as nat, 365);
            }
        }
        let old_val = self.records[idx];
        self.sum = self.sum - (old_val as i64) + (avg as i64);
        self.records.set(idx, avg);
        self.count = self.count + 1;
        self.max_seg.set(idx, max);
        self.min_seg.set(idx, min);
        self.index = (idx + 1) % 365;
        self.hist = Ghost(h_old.push((min, max, avg)));
        proof {
            let h = self.hist@;
            let lo = window_start(len + 1);
            // the cursor advanced by one, modulo the window size
            lemma_add_mod_noop(len, 1, 365);
            lemma_small_mod(1, 365);
            assert(self.index == (len + 1) % 365);
            // buffered values of the surviving window entries are untouched
            assert forall|t: int| lo <= t < len implies {
                &&& self.records@[t % 365] == (#[trigger] h[t]).2
                &&& self.max_seg.values()[t % 365] == h[t].1
                &&& self.min_seg.values()[t % 365] == h[t].0
            } by {
                lemma_mod_distinct(t, len, 365);
                lemma_mod_bound(t, 365);
                assert(h[t] == h_old[t]);
            }
            assert(h[len as int] == (min, max, avg));
            // the running sum tracks the new window
            if len < 365 {
                assert(old_val == 0);
                lemma_window_sum_congruence(h, h_old, 0, len);
                assert(spec_window_sum(h, 0, len + 1) == spec_window_sum(h, 0, len) + avg);
            } else {
                assert(old_val as int == h_old[len - 365].2);
                lemma_window_sum_left_peel(h_old, len - 365, len);
                lemma_window_sum_congruence(h, h_old, len - 364, len);
                assert(spec_window_sum(h, len - 364, len + 1) == spec_window_sum(h, len - 364, len)
                    + avg);
            }
            lemma_window_sum_bounds(h, lo, len + 1);
        }
    }

    /// The number of readings ever recorded.
    pub fn count(&self) -> (r: u64)
        requires
            self.wf(),
        ensures
            r == self.history().len(),
    {
        self.count
    }

    /// The greatest `max` reading in the trailing window, if any reading has
    /// been recorded.
    pub fn max(&self) -> (r: Option<i32>)
        requires
            self.wf(),
        ensures
            (match r {
                Option::None => self.history().len() == 0,
                Option::Some(m) => self.history().len() > 0 && is_window_max(m, self.history()),
            }),
    {
        if self.count == 0 {
            None
        } else {
            let f = self.max_seg.all_prod();
            proof {
                self.lemma_tree_fold_is_window_max(f);
            }
            Some(f)
        }
    }

    /// The least `min` reading in the trailing window, if any reading has
    /// been recorded.
    pub fn min(&self) -> (r: Option<i32>)
        requires
            self.wf(),
        ensures
            (match r {
                Option::None => self.history().len() == 0,
                Option::Some(m) => self.history().len() > 0 && is_window_min(m, self.history()),
            }),
    {
        if self.count == 0 {
            None
        } else {
            let f = self.min_seg.all_prod();
            proof {
                self.lemma_tree_fold_is_window_min(f);
            }
            Some(f)
        }
    }

    /// The trailing average as an exact pair: the window's sum of average
    /// readings and the window's length, if any reading has been recorded.
    pub fn average(&self) -> (r: Option<(i64, u64)>)
        requires
            self.wf(),
        ensures
            (match r {
                Option::None => self.history().len() == 0,
                Option::Some(pair) => {
                    let h = self.history();
                    &&& h.len() > 0
                    &&& pair.0 == spec_window_sum(h, window_start(h.len() as int), h.len() as int)
                    &&& pair.1 == if h.len() <= 365 {
                        h.len() as int
                    } else {
                        365int
                    }
                },
            }),
    {
        if self.count == 0 {
            None
        } else {
            let wlen: u64 = if self.count < 365 {
                self.count
            } else {
                365
            };
            Some((self.sum, wlen))
        }
    }

    proof fn lemma_tree_fold_is_window_max(&self, f: i32)
        requires
            self.wf(),
            self.history().len() > 0,
            f == fold_range::<i32, MaxI32>(self.max_seg.values(), 0, 365),
        ensures
            is_window_max(f, self.history()),
    {
        let h = self.hist@;
        let len = h.len() as int;
        let lo = window_start(len);
        let vs = self.max_seg.values();
        lemma_fold_max_props(vs, 0, 365);
        assert forall|t: int| lo <= t < len implies (#[trigger] h[t]).1 <= f by {
            lemma_mod_bound(t, 365);
            assert(vs[t % 365] == h[t].1);
        }
        if f == i32::MIN {
            assert(h[lo].1 <= f);
            assert(h[lo].1 == f);
        } else {
            let j = choose|j: int| 0 <= j < 365 && #[trigger] vs[j] == f;
            if len <= 365 {
                assert(j < len) by {
                    if j >= len {
                        assert(vs[j] == i32::MIN);
                    }
                }
                lemma_small_mod(j as nat, 365);
                assert(h[j].1 == f);
            } else {
                let t = lo + ((j - lo) % 365);
                lemma_mod_bound(j - lo, 365);
                assert(lo <= t < len);
                lemma_add_mod_noop(lo, (j - lo) % 365, 365);
                lemma_mod_bound(lo, 365);
                lemma_small_mod(((j - lo) % 365) as nat, 365);
                lemma_add_mod_noop(lo, j - lo, 365);
                lemma_small_mod(j as nat, 365);
                assert(t % 365 == j);
                assert(h[t].1 == f);
            }
        }
    }

    proof fn lemma_tree_fold_is_window_min(&self, f: i32)
        requires
            self.wf(),
            self.history().len() > 0,
            f == fold_range::<i32, MinI32>(self.min_seg.values(), 0, 365),
        ensures
            is_window_min(f, self.history()),
    {
        let h = self.hist@;
        let len = h.len() as int;
        let lo = window_start(len);
        let vs = self.min_seg.values();
        lemma_fold_min_props(vs, 0, 365);
        assert forall|t: int| lo <= t < len implies (#[trigger] h[t]).0 >= f by {
            lemma_mod_bound(t, 365);
            assert(vs[t % 365] == h[t].0);
        }
        if f == i32::MAX {
            assert(h[lo].0 >= f);
            assert(h[lo].0 == f);
        } else {
            let j = choose|j: int| 0 <= j < 365 && #[trigger] vs[j] == f;
            if len <= 365 {
                assert(j < len) by {
                    if j >= len {
                        assert(vs[j] == i32::MAX);
                    }
                }
                lemma_small_mod(j as nat, 365);
                assert(h[j].0 == f);
            } else {
                let t = lo + ((j - lo) % 365);
                lemma_mod_bound(j - lo, 365);
                assert(lo <= t < len);
                lemma_add_mod_noop(lo, (j - lo) % 365, 365);
                lemma_mod_bound(lo, 365);
                lemma_small_mod(((j - lo) % 365) as nat, 365);
                lemma_add_mod_noop(lo, j - lo, 365);
                lemma_small_mod(j as nat, 365);
                assert(t % 365 == j);
                assert(h[t].0 == f);
            }
        }
    }
}

/// The trailing-window summary of one station: trailing maximum and minimum,
/// and the trailing average as an exact sum-and-count pair.
#[derive(Clone, Copy, Debug, PartialEq, Eq, Structural)]
pub struct WindowAggregateResult {
    /// Greatest `max` reading in the window, decicelsius.
    pub max: i32,
    /// Least `min` reading in the window, decicelsius.
    pub min: i32,
    /// Sum of the window's average readings, decicelsius.
    pub sum: i64,
    /// Number of readings in the window.
    pub count: u64,
}

/// `w` summarizes the trailing window of the history `h`.
pub open spec fn is_window_result(w: WindowAggregateResult, h: Seq<Reading>) -> bool {
    &&& h.len() > 0
    &&& is_window_max(w.max, h)
    &&& is_window_min(w.min, h)
    &&& w.sum == spec_window_sum(h, window_start(h.len() as int), h.len() as int)
    &&& w.count == if h.len() <= 365 {
        h.len() as int
    } else {
        365int
    }
}

impl WindowAggregateResult {
    /// Summarizes a station's window; fails exactly when the station has no
    /// reading yet.
    pub fn try_from(value: &PointAggregator) -> (r: Result<WindowAggregateResult, ()>)
        requires
            value.wf(),
        ensures
            (match r {
                Result::Ok(w) => is_window_result(w, value.history()),
                Result::Err(_) => value.history().len() == 0,
            }),
    {
        if value.count() == 0 {
            Err(())
        } else {
            let max = value.max().unwrap();
            let min = value.min().unwrap();
            let (sum, count) = value.average().unwrap();
            Ok(WindowAggregateResult { max, min, sum, count })
        }
    }
}

/// The readings a record sequence holds for one station, oldest first.
pub open spec fn station_records(data: Seq<ObservationPointData>, id: u32) -> Seq<Reading>
    decreases data.len(),
{
    if data.len() == 0 {
        Seq::empty()
    } else {
        let prefix = station_records(data.drop_last(), id);
        let r = data.last();
        if r.id == id {
            prefix.push((r.min, r.max, r.average))
        } else {
            prefix
        }
    }
}

/// All stations' trailing windows, keyed by station id in ascending order;
/// a station's state is created the first time it is observed.
pub struct WindowAggregator {
    points: Vec<(u32, PointAggregator)>,
    total: u64,
}

impl WindowAggregator {
    /// Some reading of this station has been recorded.
    pub closed spec fn has_station(&self, id: u32) -> bool {
        exists|i: int| 0 <= i < self.points@.len() && (#[trigger] self.points@[i]).0 == id
    }

    /// Every reading recorded for this station, oldest first; empty when the
    /// station has never been observed.
    pub closed spec fn history_of(&self, id: u32) -> Seq<Reading> {
        if self.has_station(id) {
            let i = choose|i: int|
                0 <= i < self.points@.len() && (#[trigger] self.points@[i]).0 == id;
            self.points@[i].1.history()
        } else {
            Seq::empty()
        }
    }

    /// The number of readings ever recorded, over all stations.
    pub closed spec fn total_spec(&self) -> int {
        self.total as int
    }

    /// Structural invariant: keys strictly ascending, every per-station state
    /// well formed, and no station's history longer than the overall count.
    pub closed spec fn wf(&self) -> bool {
        &&& (forall|i: int, j: int|
            0 <= i < j < self.points@.len() ==> (#[trigger] self.points@[i]).0 < (
            #[trigger] self.points@[j]).0)
        &&& (forall|i: int| 0 <= i < self.points@.len() ==> (#[trigger] self.points@[i]).1.wf())
        &&& (forall|i: int|
            0 <= i < self.points@.len() ==> (#[trigger] self.points@[i]).1.history().len()
                <= self.total)
    }

    /// A station with any recorded reading is present.
    pub proof fn lemma_nonempty_has(&self, id: u32)
        ensures
            self.history_of(id).len() > 0 ==> self.has_station(id),
    {
        if !self.has_station(id) {
            assert(self.history_of(id) == Seq::<Reading>::empty());
        }
    }

    /// Sorted keys are unique: an entry holding `id` is the one `history_of`
    /// reads.
    proof fn lemma_entry_is_station(&self, i: int)
        requires
            self.wf(),
            0 <= i < self.points@.len(),
        ensures
            self.has_station(self.points@[i].0),
            self.history_of(self.points@[i].0) == self.points@[i].1.history(),
    {
        let id = self.points@[i].0;
        assert(self.has_station(id));
        let j = choose|j: int| 0 <= j < self.points@.len() && (#[trigger] self.points@[j]).0 == id;
        if i < j {
            assert((self.points@[i]).0 < (self.points@[j]).0);
        }
        if j < i {
            assert((self.points@[j]).0 < (self.points@[i]).0);
        }
    }

    /// An empty aggregator with no station state.
    pub fn new() -> (r: WindowAggregator)
        ensures
            r.wf(),
            r.total_spec() == 0,
            forall|id: u32| !(#[trigger] r.has_station(id)),
            forall|id: u32| #[trigger] r.history_of(id) == Seq::<Reading>::empty(),
    {
        WindowAggregator { points: Vec::new(), total: 0 }
    }

    /// The number of readings ever recorded, over all stations.
    pub fn total(&self) -> (r: u64)
        ensures
            r == self.total_spec(),
    {
        self.total
    }

    /// Records one station's reading, creating the station's window state on
    /// first sight.
    fn add_one(&mut self, rec: &ObservationPointData)
        requires
            old(self).wf(),
            old(self).total_spec() < u64::MAX,
        ensures
            final(self).wf(),
            final(self).total_spec() == old(self).total_spec() + 1,
            final(self).history_of(rec.id) == old(self).history_of(rec.id).push(
                (rec.min, rec.max, rec.average),
            ),
            forall|id: u32|
                id != rec.id ==> #[trigger] final(self).history_of(id) == old(self).history_of(id),
            forall|id: u32|
                #[trigger] final(self).has_station(id) == (old(self).has_station(id) || id
                    == rec.id),
    {
        let ghost old_points = self.points@;
        let id = rec.id;
        let n = self.points.len();
        let mut i: usize = 0;
        let mut pos: usize = n;
        while i < n
            invariant
                i <= n,
                n == self.points@.len(),
                pos == n || (pos < n && pos <= i && self.points@[pos as int].0 >= id),
                pos == n ==> (forall|k: int| 0 <= k < i ==> (#[trigger] self.points@[k]).0 < id),
                pos < n ==> (forall|k: int| 0 <= k < pos ==> (#[trigger] self.points@[k]).0 < id),
            decreases n - i,
        {
            if pos == n && self.points[i].0 >= id {
                pos = i;
            }
            i = i + 1;
        }
        proof {
            if pos == n {
                assert forall|k: int| 0 <= k < n && k != pos implies (#[trigger] old_points[k]).0
                    != id by {}
            } else {
                assert forall|k: int| 0 <= k < n && k > pos implies (#[trigger] old_points[k]).0
                    >= old_points[pos as int].0 by {
                    assert((old_points[pos as int]).0 < (old_points[k]).0);
                }
            }
        }
        if pos < n && self.points[pos].0 == id {
            proof {
                self.lemma_entry_is_station(pos as int);
            }
            let entry = vstd::std_specs::vec::vec_index_mut(&mut self.points, pos);
            entry.1.add(rec.min, rec.max, rec.average);
            self.total = self.total + 1;
            proof {
                assert(self.points@[pos as int].0 == id);
                assert(self.points@.len() == old_points.len());
                assert(forall|k: int|
                    0 <= k < old_points.len() && k != pos ==> self.points@[k] == #[trigger] old_points[k]);
                assert forall|a: int, b: int|
                    0 <= a < b < self.points@.len() implies (#[trigger] self.points@[a]).0 < (
                #[trigger] self.points@[b]).0 by {
                    assert((old_points[a]).0 < (old_points[b]).0);
                    assert(self.points@[a].0 == old_points[a].0);
                    assert(self.points@[b].0 == old_points[b].0);
                }
                assert(self.wf());
                self.lemma_entry_is_station(pos as int);
                assert(final(self).history_of(id) == old(self).history_of(id).push(
                    (rec.min, rec.max, rec.average),
                ));
                assert forall|other: u32| #[trigger] self.has_station(other) == (old(
                    self,
                ).has_station(other) || other == id) by {
                    if self.has_station(other) {
                        let k = choose|k: int|
                            0 <= k < self.points@.len() && (#[trigger] self.points@[k]).0 == other;
                        assert(old_points[k].0 == other);
                        assert(old(self).has_station(other));
                    }
                    if old(self).has_station(other) {
                        let k = choose|k: int|
                            0 <= k < old_points.len() && (#[trigger] old_points[k]).0 == other;
                        assert(self.points@[k].0 == other);
                        assert(self.has_station(other));
                    }
                }
                assert forall|other: u32| other != id implies #[trigger] self.history_of(other)
                    == old(self).history_of(other) by {
                    if old(self).has_station(other) {
                        let k = choose|k: int|
                            0 <= k < old_points.len() && (#[trigger] old_points[k]).0 == other;
                        old(self).lemma_entry_is_station(k);
                        assert(k != pos);
                        assert(self.points@[k].0 == other);
                        self.lemma_entry_is_station(k);
                    } else {
                        assert(!self.has_station(other));
                    }
                }
            }
        } else {
            proof {
                if pos < n {
                    assert(old_points[pos as int].0 > id);
                }
            }
            let mut p = PointAggregator::new();
            p.add(rec.min, rec.max, rec.average);
            self.points.insert(pos, (id, p));
            self.total = self.total + 1;
            proof {
                assert(self.points@ == old_points.insert(pos as int, (id, p)));
                assert(self.points@.len() == old_points.len() + 1);
                assert(forall|k: int| 0 <= k < pos ==> self.points@[k] == #[trigger] old_points[k]);
                assert(forall|k: int|
                    pos < k < self.points@.len() ==> self.points@[k] == #[trigger] old_points[k
                        - 1]);
                assert(self.points@[pos as int] == (id, p));
                assert forall|a: int, b: int|
                    0 <= a < b < self.points@.len() implies (#[trigger] self.points@[a]).0 < (
                #[trigger] self.points@[b]).0 by {
                    if b < pos {
                        assert((old_points[a]).0 < (old_points[b]).0);
                    } else if b == pos {
                        assert(self.points@[a].0 == old_points[a].0);
                        assert(old_points[a].0 < id);
                    } else if a == pos {
                        assert(self.points@[b].0 == old_points[b - 1].0);
                        assert(old_points[b - 1].0 >= old_points[pos as int].0) by {
                            if b - 1 > pos {
                                assert((old_points[pos as int]).0 < (old_points[b - 1]).0);
                            }
                        }
                        assert(old_points[pos as int].0 > id);
                    } else if a < pos {
                        assert(self.points@[a].0 == old_points[a].0);
                        assert(self.points@[b].0 == old_points[b - 1].0);
                        assert(old_points[a].0 < id);
                        assert(old_points[b - 1].0 >= old_points[pos as int].0) by {
                            if b - 1 > pos {
                                assert((old_points[pos as int]).0 < (old_points[b - 1]).0);
                            }
                        }
                        assert(old_points[pos as int].0 > id);
                    } else {
                        assert(self.points@[a].0 == old_points[a - 1].0);
                        assert(self.points@[b].0 == old_points[b - 1].0);
                        assert((old_points[a - 1]).0 < (old_points[b - 1]).0);
                    }
                }
                assert(self.wf());
                self.lemma_entry_is_station(pos as int);
                assert(self.history_of(id) == p.history());
                assert(p.history() =~= Seq::<Reading>::empty().push(
                    (rec.min, rec.max, rec.average),
                ));
                assert(!old(self).has_station(id)) by {
                    if old(self).has_station(id) {
                        let k = choose|k: int|
                            0 <= k < old_points.len() && (#[trigger] old_points[k]).0 == id;
                        if k < pos {
                            assert(old_points[k].0 < id);
                        } else if k == pos {
                            assert(old_points[pos as int].0 > id);
                        } else {
                            assert((old_points[pos as int]).0 < (old_points[k]).0);
                        }
                    }
                }
                assert(old(self).history_of(id) =~= Seq::<Reading>::empty());
                assert forall|other: u32| #[trigger] self.has_station(other) == (old(
                    self,
                ).has_station(other) || other == id) by {
                    if self.has_station(other) && other != id {
                        let k = choose|k: int|
                            0 <= k < self.points@.len() && (#[trigger] self.points@[k]).0 == other;
                        assert(k != pos);
                        if k < pos {
                            assert(old_points[k].0 == other);
                        } else {
                            assert(old_points[k - 1].0 == other);
                        }
                        assert(old(self).has_station(other));
                    }
                    if old(self).has_station(other) {
                        let k = choose|k: int|
                            0 <= k < old_points.len() && (#[trigger] old_points[k]).0 == other;
                        if k < pos {
                            assert(self.points@[k].0 == other);
                        } else {
                            assert(self.points@[k + 1].0 == other);
                        }
                        assert(self.has_station(other));
                    }
                }
                assert forall|other: u32| other != id implies #[trigger] self.history_of(other)
                    == old(self).history_of(other) by {
                    if old(self).has_station(other) {
                        let k = choose|k: int|
                            0 <= k < old_points.len() && (#[trigger] old_points[k]).0 == other;
                        old(self).lemma_entry_is_station(k);
                        if k < pos {
                            assert(self.points@[k] == old_points[k]);
                            self.lemma_entry_is_station(k);
                        } else {
                            assert(self.points@[k + 1] == old_points[k]);
                            self.lemma_entry_is_station(k + 1);
                        }
                    } else {
                        assert(!self.has_station(other));
                    }
                }
            }
        }
    }

    /// Folds a whole batch into the per-station windows, creating state for
    /// stations seen for the first time.
    pub fn add(&mut self, data: &Vec<ObservationPointData>)
        requires
            old(self).wf(),
            old(self).total_spec() + data@.len() <= u64::MAX,
        ensures
            final(self).wf(),
            final(self).total_spec() == old(self).total_spec() + data@.len(),
            forall|id: u32|
                #[trigger] final(self).history_of(id) == old(self).history_of(id)
                    + station_records(data@, id),
            forall|id: u32|
                #[trigger] final(self).has_station(id) == (old(self).has_station(id) || exists|
                    k: int,
                |
                    0 <= k < data@.len() && (#[trigger] data@[k]).id == id),
    {
        let ghost pre = *old(self);
        let mut i: usize = 0;
        proof {
            assert forall|id: u32| #[trigger] station_records(data@.take(0), id)
                =~= Seq::<Reading>::empty() by {}
        }
        while i < data.len()
            invariant
                i <= data@.len(),
                self.wf(),
                self.total_spec() == pre.total_spec() + i,
                pre.total_spec() + data@.len() <= u64::MAX,
                forall|id: u32|
                    #[trigger] self.history_of(id) == pre.history_of(id) + station_records(
                        data@.take(i as int),
                        id,
                    ),
                forall|id: u32|
                    #[trigger] self.has_station(id) == (pre.has_station(id) || exists|k: int|
                        0 <= k < i && (#[trigger] data@[k]).id == id),
            decreases data@.len() - i,
        {
            let ghost mid = *self;
            let rec = &data[i];
            self.add_one(rec);
            proof {
                assert(data@.take(i + 1).drop_last() =~= data@.take(i as int));
                assert(data@.take(i + 1).last() == data@[i as int]);
                assert forall|id: u32| #[trigger] self.history_of(id) == pre.history_of(id)
                    + station_records(data@.take(i + 1), id) by {
                    if id == rec.id {
                        assert(self.history_of(id) == mid.history_of(id).push(
                            (rec.min, rec.max, rec.average),
                        ));
                        assert(station_records(data@.take(i + 1), id) == station_records(
                            data@.take(i as int),
                            id,
                        ).push((rec.min, rec.max, rec.average)));
                        assert(self.history_of(id) =~= pre.history_of(id) + station_records(
                            data@.take(i + 1),
                            id,
                        ));
                    } else {
                        assert(self.history_of(id) == mid.history_of(id));
                        assert(station_records(data@.take(i + 1), id) == station_records(
                            data@.take(i as int),
                            id,
                        ));
                    }
                }
                assert forall|id: u32| #[trigger] self.has_station(id) == (pre.has_station(id)
                    || exists|k: int| 0 <= k < i + 1 && (#[trigger] data@[k]).id == id) by {
                    if self.has_station(id) {
                        if mid.has_station(id) {
                        } else {
                            assert(id == rec.id);
                            assert(data@[i as int].id == id);
                        }
                    }
                    if exists|k: int| 0 <= k < i + 1 && (#[trigger] data@[k]).id == id {
                        let k = choose|k: int| 0 <= k < i + 1 && (#[trigger] data@[k]).id == id;
                        if k < i {
                            assert(mid.has_station(id));
                        } else {
                            assert(id == rec.id);
                        }
                    }
                }
            }
            i = i + 1;
        }
        proof {
            assert(data@.take(data@.len() as int) =~= data@);
        }
    }

    /// The per-station window summaries, in ascending station id order, for
    /// every station with at least one reading.
    pub fn to_vec(&self) -> (r: Vec<(u32, WindowAggregateResult)>)
        requires
            self.wf(),
        ensures
            forall|k1: int, k2: int|
                0 <= k1 < k2 < r@.len() ==> (#[trigger] r@[k1]).0 < (#[trigger] r@[k2]).0,
            forall|k: int|
                0 <= k < r@.len() ==> self.has_station((#[trigger] r@[k]).0) && is_window_result(
                    r@[k].1,
                    self.history_of(r@[k].0),
                ),
            forall|id: u32|
                self.has_station(id) && #[trigger] self.history_of(id).len() > 0 ==> exists|k: int|
                    0 <= k < r@.len() && (#[trigger] r@[k]).0 == id,
    {
        let mut r: Vec<(u32, WindowAggregateResult)> = Vec::new();
        let n = self.points.len();
        let mut i: usize = 0;
        while i < n
            invariant
                i <= n,
                n == self.points@.len(),
                self.wf(),
                forall|k1: int, k2: int|
                    0 <= k1 < k2 < r@.len() ==> (#[trigger] r@[k1]).0 < (#[trigger] r@[k2]).0,
                forall|k: int|
                    0 <= k < r@.len() ==> self.has_station((#[trigger] r@[k]).0)
                        && is_window_result(r@[k].1, self.history_of(r@[k].0)),
                forall|k: int|
                    0 <= k < r@.len() ==> exists|j: int|
                        0 <= j < i && (#[trigger] r@[k]).0 == (#[trigger] self.points@[j]).0,
                forall|j: int|
                    0 <= j < i && (#[trigger] self.points@[j]).1.history().len() > 0 ==> exists|
                        k: int,
                    |
                        0 <= k < r@.len() && (#[trigger] r@[k]).0 == self.points@[j].0,
            decreases n - i,
        {
            let entry = vstd::std_specs::vec::vec_index(&self.points, i);
            proof {
                self.lemma_entry_is_station(i as int);
            }
            match WindowAggregateResult::try_from(&entry.1) {
                Ok(w) => {
                    let ghost r_old = r@;
                    r.push((entry.0, w));
                    proof {
                        assert(r@[r@.len() - 1].0 == self.points@[i as int].0);
                        assert forall|j: int|
                            0 <= j < i && (#[trigger] self.points@[j]).1.history().len()
                                > 0 implies exists|k: int|
                            0 <= k < r@.len() && (#[trigger] r@[k]).0 == self.points@[j].0 by {
                            let k = choose|k: int|
                                0 <= k < r_old.len() && (#[trigger] r_old[k]).0
                                    == self.points@[j].0;
                            assert(r@[k].0 == self.points@[j].0);
                        }
                        assert forall|k1: int, k2: int|
                            0 <= k1 < k2 < r@.len() implies (#[trigger] r@[k1]).0 < (
                        #[trigger] r@[k2]).0 by {
                            if k2 == r@.len() - 1 {
                                let j = choose|j: int|
                                    0 <= j < i && (#[trigger] r_old[k1]).0 == (
                                    #[trigger] self.points@[j]).0;
                                assert((self.points@[j]).0 < (self.points@[i as int]).0);
                            }
                        }
                    }
                },
                Err(_) => {
                    proof {
                        assert(self.points@[i as int].1.history().len() == 0);
                    }
                },
            }
            i = i + 1;
        }
        proof {
            assert forall|id: u32|
                self.has_station(id) && #[trigger] self.history_of(id).len() > 0 implies exists|
                k: int,
            |
                0 <= k < r@.len() && (#[trigger] r@[k]).0 == id by {
                let j = choose|j: int|
                    0 <= j < self.points@.len() && (#[trigger] self.points@[j]).0 == id;
                self.lemma_entry_is_station(j);
                assert(self.points@[j].1.history().len() > 0);
            }
        }
        r
    }
}

} // verus!
