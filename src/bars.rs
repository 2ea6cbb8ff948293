//! Ticks, bars, and the resampling of ticks into five-minute bars.

use vstd::prelude::*;

use crate::strategy::NiftyStrategy;
use crate::time::{bucket_of, on_grid, ts_le, Timestamp};

verus! {

/// Prices are fixed-point numbers with four decimal places: 1 stands for 0.0001.
pub const PRICE_SCALE: i64 = 10000;

/// Largest magnitude of a price, in fixed-point units (a billion in real terms).
pub const MAX_PRICE: i64 = 10_000_000_000_000;

/// Whether `p` is a price within the supported range.
pub open spec fn price_ok(p: i64) -> bool {
    -MAX_PRICE <= p <= MAX_PRICE
}

/// One raw price record.
#[derive(Clone, Copy, Debug, PartialEq)]
pub struct Tick {
    pub time: Timestamp,
    pub open: i64,
    pub high: i64,
    pub low: i64,
    pub close: i64,
    pub volume: u64,
}

impl Tick {
    pub open spec fn wf(self) -> bool {
        &&& self.time.wf()
        &&& price_ok(self.open)
        &&& price_ok(self.high)
        &&& price_ok(self.low)
        &&& price_ok(self.close)
    }
}

/// How the day's signal candle closed.
#[derive(Clone, Copy, Debug, PartialEq, Eq, Structural)]
pub enum CandleKind {
    Bullish,
    Bearish,
}

/// The classification of a day and its reference price.
#[derive(Clone, Copy, Debug, PartialEq, Eq, Structural)]
pub struct SignalCandle {
    pub kind: CandleKind,
    pub value: i64,
}

/// A bar: prices over an interval, the classification of its day once known,
/// and its trading signal in {-1, 0, 1}.
#[derive(Clone, Copy, Debug, PartialEq)]
pub struct Bar {
    pub time: Timestamp,
    pub open: i64,
    pub high: i64,
    pub low: i64,
    pub close: i64,
    pub volume: u128,
    pub candle: Option<SignalCandle>,
    pub signal: i8,
}

impl Bar {
    pub open spec fn wf(self) -> bool {
        &&& self.time.wf()
        &&& price_ok(self.open)
        &&& price_ok(self.high)
        &&& price_ok(self.low)
        &&& price_ok(self.close)
        &&& match self.candle {
            Some(c) => price_ok(c.value),
            None => true,
        }
        &&& -1 <= self.signal <= 1
    }
}

pub open spec fn ticks_wf(s: Seq<Tick>) -> bool {
    forall|k: int| 0 <= k < s.len() ==> #[trigger] s[k].wf()
}

pub open spec fn bars_wf(s: Seq<Bar>) -> bool {
    forall|k: int| 0 <= k < s.len() ==> #[trigger] s[k].wf()
}

/// Ticks in chronological order.
pub open spec fn ticks_sorted(s: Seq<Tick>) -> bool {
    forall|j: int, k: int| 0 <= j < k < s.len() ==> ts_le(#[trigger] s[j].time, #[trigger] s[k].time)
}

/// Bars in chronological order.
pub open spec fn bars_sorted(s: Seq<Bar>) -> bool {
    forall|j: int, k: int| 0 <= j < k < s.len() ==> ts_le(#[trigger] s[j].time, #[trigger] s[k].time)
}

/// The largest high of a nonempty group.
pub open spec fn max_high(g: Seq<Tick>) -> i64
    decreases g.len(),
{
    if g.len() <= 1 {
        g[0].high
    } else {
        let m = max_high(g.drop_last());
        if g.last().high > m { g.last().high } else { m }
    }
}

/// The smallest low of a nonempty group.
pub open spec fn min_low(g: Seq<Tick>) -> i64
    decreases g.len(),
{
    if g.len() <= 1 {
        g[0].low
    } else {
        let m = min_low(g.drop_last());
        if g.last().low < m { g.last().low } else { m }
    }
}

/// The total volume of a group.
pub open spec fn sum_volume(g: Seq<Tick>) -> int
    decreases g.len(),
{
    if g.len() == 0 {
        0
    } else {
        sum_volume(g.drop_last()) + g.last().volume
    }
}

/// The bar that a nonempty group of ticks makes.
pub open spec fn aggregate(g: Seq<Tick>) -> Bar {
    Bar {
        time: bucket_of(g[0].time),
        open: g[0].open,
        high: max_high(g),
        low: min_low(g),
        close: g.last().close,
        volume: sum_volume(g) as u128,
        candle: None,
        signal: 0,
    }
}

/// Ticks split into maximal runs of consecutive ticks in the same bar interval.
pub open spec fn runs(s: Seq<Tick>) -> Seq<Seq<Tick>>
    decreases s.len(),
{
    if s.len() == 0 {
        seq![]
    } else {
        let r = runs(s.drop_last());
        let t = s.last();
        if r.len() > 0 && bucket_of(r.last().last().time) == bucket_of(t.time) {
            r.drop_last().push(r.last().push(t))
        } else {
            r.push(seq![t])
        }
    }
}

/// The five-minute bars of a tick sequence: one per run.
pub open spec fn bars_of(s: Seq<Tick>) -> Seq<Bar> {
    runs(s).map_values(|g: Seq<Tick>| aggregate(g))
}

/// The extremes of a group are attained by a member and bound every member.
pub proof fn lemma_extremes(g: Seq<Tick>)
    requires
        g.len() > 0,
    ensures
        forall|j: int| 0 <= j < g.len() ==> max_high(g) >= #[trigger] g[j].high && min_low(g) <= g[j].low,
        exists|j: int| 0 <= j < g.len() && max_high(g) == #[trigger] g[j].high,
        exists|j: int| 0 <= j < g.len() && min_low(g) == #[trigger] g[j].low,
    decreases g.len(),
{
    if g.len() > 1 {
        let h = g.drop_last();
        lemma_extremes(h);
        assert forall|j: int| 0 <= j < g.len() implies max_high(g) >= #[trigger] g[j].high && min_low(g) <= g[j].low by {
            if j < g.len() - 1 {
                assert(g[j] == h[j]);
            }
        }
        let a = choose|j: int| 0 <= j < h.len() && max_high(h) == #[trigger] h[j].high;
        let b = choose|j: int| 0 <= j < h.len() && min_low(h) == #[trigger] h[j].low;
        assert(g[a] == h[a] && g[b] == h[b]);
        assert(g[g.len() - 1] == g.last());
    } else {
        assert(g[0].high == max_high(g));
        assert(g[0].low == min_low(g));
    }
}

/// The volume of a group is at most its length times the largest tick volume.
pub proof fn lemma_sum_volume_bound(g: Seq<Tick>)
    ensures
        0 <= sum_volume(g) <= g.len() * u64::MAX,
    decreases g.len(),
{
    if g.len() > 0 {
        lemma_sum_volume_bound(g.drop_last());
        assert(sum_volume(g) <= (g.len() - 1) * u64::MAX + u64::MAX);
        assert((g.len() - 1) * u64::MAX + u64::MAX == g.len() * u64::MAX) by (nonlinear_arith);
    }
}

/// Flooring to the bar grid keeps chronological order.
pub proof fn lemma_bucket_monotone(a: Timestamp, b: Timestamp)
    requires
        ts_le(a, b),
    ensures
        ts_le(bucket_of(a), bucket_of(b)),
{
    if a.day == b.day {
        let x = a.second as int;
        let y = b.second as int;
        assert(x - x % 300 <= y - y % 300) by (nonlinear_arith)
            requires x <= y, x >= 0;
    }
}

/// Every run is a nonempty group of at most as many ticks as the whole sequence,
/// and each of its members is a tick of the sequence.
pub proof fn lemma_runs_shape(s: Seq<Tick>)
    ensures
        forall|k: int| 0 <= k < runs(s).len() ==> 0 < #[trigger] runs(s)[k].len() <= s.len(),
        forall|k: int, j: int| 0 <= k < runs(s).len() && 0 <= j < runs(s)[k].len() ==>
            s.contains(#[trigger] runs(s)[k][j]),
    decreases s.len(),
{
    if s.len() > 0 {
        let h = s.drop_last();
        lemma_runs_shape(h);
        let r = runs(h);
        let t = s.last();
        assert(s[s.len() - 1] == t);
        assert forall|k: int, j: int| 0 <= k < runs(s).len() && 0 <= j < runs(s)[k].len() implies
            s.contains(#[trigger] runs(s)[k][j]) by {
            if r.len() > 0 && bucket_of(r.last().last().time) == bucket_of(t.time) {
                if k < r.len() - 1 || j < r.last().len() {
                    let x = runs(s)[k][j];
                    assert(x == r[k][j]);
                    let w = choose|w: int| 0 <= w < h.len() && h[w] == x;
                    assert(s[w] == x);
                }
            } else {
                if k < r.len() {
                    let x = runs(s)[k][j];
                    assert(x == r[k][j]);
                    let w = choose|w: int| 0 <= w < h.len() && h[w] == x;
                    assert(s[w] == x);
                }
            }
        }
    }
}

/// A five-minute bar is the order-preserving aggregate of its ticks: its high
/// is at least the high of every tick in it, its low at most every tick's low,
/// and its volume is the sum of the ticks' volumes.
pub proof fn lemma_bar_bounds(s: Seq<Tick>, k: int, j: int)
    requires
        s.len() <= usize::MAX,
        0 <= k < runs(s).len(),
        0 <= j < runs(s)[k].len(),
    ensures
        bars_of(s).len() == runs(s).len(),
        bars_of(s)[k].high >= runs(s)[k][j].high,
        bars_of(s)[k].low <= runs(s)[k][j].low,
        bars_of(s)[k].volume == sum_volume(runs(s)[k]),
{
    let g = runs(s)[k];
    assert(bars_of(s)[k] == aggregate(g));
    lemma_runs_shape(s);
    lemma_extremes(g);
    lemma_sum_volume_bound(g);
    assert(g.len() * u64::MAX <= usize::MAX * u64::MAX) by (nonlinear_arith)
        requires g.len() <= usize::MAX;
    assert(usize::MAX * u64::MAX <= u128::MAX) by (nonlinear_arith)
        requires usize::MAX <= u64::MAX;
}

impl NiftyStrategy {
    /// Aggregates a nonempty group of ticks into one bar stamped with the start
    /// of the first tick's interval.
    pub fn aggregate_bars(bars: &[Tick]) -> (r: Bar)
        requires
            bars@.len() > 0,
            ticks_wf(bars@),
        ensures
            r == aggregate(bars@),
            r.wf(),
            on_grid(r.time),
    {
        let n = bars.len();
        let first = &bars[0];
        let last = &bars[n - 1];
        let mut high: i64 = first.high;
        let mut low: i64 = first.low;
        let mut volume: u128 = first.volume as u128;
        let mut i: usize = 1;
        proof {
            assert(bars@.take(1).drop_last() =~= Seq::<Tick>::empty());
            assert(bars@.take(1).last() == bars@[0]);
            assert(sum_volume(bars@.take(1).drop_last()) == 0);
            assert(bars@[0].wf());
        }
        while i < n
            invariant
                1 <= i <= n,
                n == bars@.len(),
                ticks_wf(bars@),
                high == max_high(bars@.take(i as int)),
                low == min_low(bars@.take(i as int)),
                volume == sum_volume(bars@.take(i as int)),
                volume <= i * u64::MAX,
            decreases n - i,
        {
            let ghost pre = bars@.take(i as int);
            assert(bars@.take(i + 1).drop_last() =~= pre);
            let t = &bars[i];
            if t.high > high {
                high = t.high;
            }
            if t.low < low {
                low = t.low;
            }
            assert(volume + t.volume <= (i + 1) * u64::MAX) by (nonlinear_arith)
                requires volume <= i * u64::MAX, t.volume <= u64::MAX;
            assert((i + 1) * u64::MAX <= u128::MAX) by (nonlinear_arith)
                requires i < n, n <= usize::MAX, usize::MAX <= u64::MAX;
            volume = volume + t.volume as u128;
            i = i + 1;
        }
        assert(bars@.take(n as int) =~= bars@);
        proof {
            lemma_extremes(bars@);
            let a = choose|j: int| 0 <= j < bars@.len() && max_high(bars@) == #[trigger] bars@[j].high;
            let b = choose|j: int| 0 <= j < bars@.len() && min_low(bars@) == #[trigger] bars@[j].low;
            assert(bars@[a].wf() && bars@[b].wf());
            assert(bars@[n - 1] == bars@.last());
            assert(bars@[n - 1].wf());
        }
        Bar {
            time: NiftyStrategy::round_to_5min(first.time),
            open: first.open,
            high,
            low,
            close: last.close,
            volume,
            candle: None,
            signal: 0,
        }
    }
}

/// Adding the next tick to the runs of a prefix either extends the last run or
/// opens a new one, as the tick's interval decides.
proof fn lemma_runs_step(s: Seq<Tick>, start: int, i: int)
    requires
        0 <= start < i < s.len(),
        runs(s.take(i)) == runs(s.take(start)).push(s.subrange(start, i)),
    ensures
        bucket_of(s[i].time) == bucket_of(s[i - 1].time) ==> runs(s.take(i + 1)) == runs(
            s.take(start),
        ).push(s.subrange(start, i + 1)),
        bucket_of(s[i].time) != bucket_of(s[i - 1].time) ==> runs(s.take(i + 1)) == runs(
            s.take(i),
        ).push(s.subrange(i, i + 1)),
{
    let p = s.take(i + 1);
    assert(p.drop_last() =~= s.take(i));
    assert(p.last() == s[i]);
    let r = runs(s.take(i));
    assert(r.last() == s.subrange(start, i));
    assert(r.last().last() == s[i - 1]);
    assert(r.drop_last() =~= runs(s.take(start)));
    assert(s.subrange(start, i).push(s[i]) =~= s.subrange(start, i + 1));
    assert(seq![s[i]] =~= s.subrange(i, i + 1));
}

impl NiftyStrategy {
    /// Resamples ticks into five-minute bars: consecutive ticks in the same
    /// interval form one bar, intervals without ticks produce none.
    pub fn create_5min_bars(data: Vec<Tick>) -> (r: Vec<Bar>)
        requires
            ticks_wf(data@),
        ensures
            r@ == bars_of(data@),
            bars_wf(r@),
            forall|k: int| 0 <= k < r@.len() ==> on_grid(#[trigger] r@[k].time),
            ticks_sorted(data@) ==> bars_sorted(r@),
    {
        let n = data.len();
        let ghost s = data@;
        let mut out: Vec<Bar> = Vec::new();
        let mut start: usize = 0;
        let mut i: usize = 0;
        while i < n
            invariant
                n == s.len(),
                s == data@,
                ticks_wf(s),
                start <= i <= n,
                i == 0 ==> start == 0,
                i > 0 ==> start < i,
                i > 0 ==> runs(s.take(i as int)) == runs(s.take(start as int)).push(
                    s.subrange(start as int, i as int),
                ),
                forall|k: int| start <= k < i ==> bucket_of(#[trigger] s[k].time) == bucket_of(s[start as int].time),
                out@ == bars_of(s.take(start as int)),
                bars_wf(out@),
                forall|k: int| 0 <= k < out@.len() ==> on_grid(#[trigger] out@[k].time),
                ticks_sorted(s) ==> bars_sorted(out@),
                ticks_sorted(s) && out@.len() > 0 && start < n ==> ts_le(
                    out@.last().time,
                    bucket_of(s[start as int].time),
                ),
            decreases n - i,
        {
            if i == 0 {
                proof {
                    assert(s.take(1).drop_last() =~= Seq::<Tick>::empty());
                    assert(s.take(1).last() == s[0]);
                    assert(seq![s[0]] =~= s.subrange(0, 1));
                    assert(s.take(0) =~= s.take(1).drop_last());
                    assert(runs(s.take(1)) == runs(s.take(0)).push(s.subrange(0, 1)));
                }
            } else {
                proof {
                    assert(s[i as int].wf() && s[start as int].wf());
                    assert(bucket_of(s[i - 1].time) == bucket_of(s[start as int].time));
                }
                let bi = NiftyStrategy::round_to_5min(data[i].time);
                let bs = NiftyStrategy::round_to_5min(data[start].time);
                proof {
                    lemma_runs_step(s, start as int, i as int);
                }
                if bi != bs {
                    let group = vstd::slice::slice_subrange(data.as_slice(), start, i);
                    proof {
                        assert forall|k: int| 0 <= k < group@.len() implies #[trigger] group@[k].wf() by {
                            assert(group@[k] == s[start + k]);
                        }
                    }
                    let bar = NiftyStrategy::aggregate_bars(group);
                    proof {
                        let pre = out@;
                        assert(runs(s.take(i as int)).map_values(|g: Seq<Tick>| aggregate(g))
                            =~= pre.push(bar));
                        if ticks_sorted(s) {
                            assert(ts_le(s[start as int].time, s[i as int].time));
                            lemma_bucket_monotone(s[start as int].time, s[i as int].time);
                        }
                    }
                    out.push(bar);
                    start = i;
                }
            }
            i = i + 1;
        }
        if n > 0 {
            let group = vstd::slice::slice_subrange(data.as_slice(), start, n);
            proof {
                assert forall|k: int| 0 <= k < group@.len() implies #[trigger] group@[k].wf() by {
                    assert(group@[k] == s[start + k]);
                }
            }
            let bar = NiftyStrategy::aggregate_bars(group);
            proof {
                assert(s.take(n as int) =~= s);
                assert(runs(s).map_values(|g: Seq<Tick>| aggregate(g)) =~= out@.push(bar));
            }
            out.push(bar);
        } else {
            assert(s.take(0) =~= s);
        }
        out
    }
}

} // verus!
