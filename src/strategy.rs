//! The strategy: the bars of a run and the trades made on them.

use vstd::prelude::*;

use crate::bars::{bars_of, bars_sorted, bars_wf, price_ok, ticks_sorted, ticks_wf, Bar, Tick};
use crate::time::{date_time_formats, first_parse, ts_le, Timestamp};
use crate::trades::{trades_wf, Trade};

verus! {

/// The bars of a run and the trades made on them.
pub struct NiftyStrategy {
    pub data: Vec<Bar>,
    pub trades: Vec<Trade>,
}

impl NiftyStrategy {
    /// Bars are well formed and in chronological order; trades are well formed.
    pub open spec fn wf(&self) -> bool {
        &&& bars_wf(self.data@)
        &&& bars_sorted(self.data@)
        &&& trades_wf(self.trades@)
    }

    /// A strategy with no bars and no trades.
    pub fn new() -> (r: Self)
        ensures
            r.data@.len() == 0,
            r.trades@.len() == 0,
            r.wf(),
    {
        NiftyStrategy { data: Vec::new(), trades: Vec::new() }
    }
}

/// One input record: the date and time as text, and fixed-point prices.
#[derive(Debug, PartialEq)]
pub struct RawRow {
    pub date: String,
    pub open: i64,
    pub high: i64,
    pub low: i64,
    pub close: i64,
    pub volume: u64,
}

/// Whether a record's prices are within the supported range.
pub open spec fn row_ok(r: RawRow) -> bool {
    price_ok(r.open) && price_ok(r.high) && price_ok(r.low) && price_ok(r.close)
}

/// The ticks of the records whose date and time can be read, in input order;
/// the others are left out.
pub open spec fn parsed_ticks(rows: Seq<RawRow>) -> Seq<Tick>
    decreases rows.len(),
{
    if rows.len() == 0 {
        seq![]
    } else {
        let pre = parsed_ticks(rows.drop_last());
        let r = rows.last();
        match first_parse(r.date@, date_time_formats()) {
            Some((day, second)) => pre.push(
                Tick {
                    time: Timestamp { day, second },
                    open: r.open,
                    high: r.high,
                    low: r.low,
                    close: r.close,
                    volume: r.volume,
                },
            ),
            None => pre,
        }
    }
}

/// `t` placed into `s`, which is in chronological order, after every tick
/// that is not later than `t`.
pub open spec fn insert_by_time(s: Seq<Tick>, t: Tick) -> Seq<Tick>
    decreases s.len(),
{
    if s.len() == 0 {
        seq![t]
    } else if ts_le(s.last().time, t.time) {
        s.push(t)
    } else {
        insert_by_time(s.drop_last(), t).push(s.last())
    }
}

/// The ticks of `v` in chronological order, ticks with equal timestamps in
/// their order in `v`: the one result of any stable sort by timestamp.
pub open spec fn stable_sort_by_time(v: Seq<Tick>) -> Seq<Tick>
    decreases v.len(),
{
    if v.len() == 0 {
        seq![]
    } else {
        insert_by_time(stable_sort_by_time(v.drop_last()), v.last())
    }
}

/// Relies on `slice::sort_by_key`, documented as a stable sort: the result
/// holds the same ticks in chronological order, and ticks with equal
/// timestamps keep their order. A stable sort has one possible result, which
/// `stable_sort_by_time` describes.
#[verifier::external_body]
fn sort_by_time(v: &mut Vec<Tick>)
    ensures
        final(v)@ == stable_sort_by_time(old(v)@),
        final(v)@.to_multiset() == old(v)@.to_multiset(),
        ticks_sorted(final(v)@),
{
    v.sort_by_key(|t| (t.time.day, t.time.second));
}

impl NiftyStrategy {
    /// Reads the records into ticks, dropping those whose date and time cannot
    /// be read, puts them in chronological order with a stable sort and resamples them into
    /// five-minute bars, which become the strategy's bars.
    pub fn prepare_data(&mut self, rows: &Vec<RawRow>)
        requires
            old(self).wf(),
            forall|k: int| 0 <= k < rows@.len() ==> row_ok(#[trigger] rows@[k]),
        ensures
            final(self).wf(),
            final(self).trades == old(self).trades,
            final(self).data@ == bars_of(stable_sort_by_time(parsed_ticks(rows@))),
    {
        let n = rows.len();
        let mut ticks: Vec<Tick> = Vec::new();
        let mut i: usize = 0;
        while i < n
            invariant
                n == rows@.len(),
                i <= n,
                forall|k: int| 0 <= k < rows@.len() ==> row_ok(#[trigger] rows@[k]),
                ticks@ == parsed_ticks(rows@.take(i as int)),
                ticks_wf(ticks@),
            decreases n - i,
        {
            proof {
                assert(rows@.take(i + 1).drop_last() =~= rows@.take(i as int));
                assert(rows@.take(i + 1).last() == rows@[i as int]);
                assert(row_ok(rows@[i as int]));
            }
            let row = &rows[i];
            match NiftyStrategy::parse_datetime(row.date.as_str()) {
                Some(time) => {
                    ticks.push(Tick {
                        time,
                        open: row.open,
                        high: row.high,
                        low: row.low,
                        close: row.close,
                        volume: row.volume,
                    });
                },
                None => {},
            }
            i = i + 1;
        }
        proof {
            assert(rows@.take(n as int) =~= rows@);
        }
        let ghost parsed = ticks@;
        sort_by_time(&mut ticks);
        proof {
            assert forall|k: int| 0 <= k < ticks@.len() implies #[trigger] ticks@[k].wf() by {
                let x = ticks@[k];
                ticks@.to_multiset_ensures();
                assert(ticks@.contains(x));
                assert(ticks@.to_multiset().count(x) > 0);
                assert(parsed.to_multiset().count(x) > 0);
                parsed.to_multiset_ensures();
                let w = choose|w: int| 0 <= w < parsed.len() && parsed[w] == x;
            }
        }
        let ghost sorted = ticks@;
        self.data = NiftyStrategy::create_5min_bars(ticks);
        proof {
            assert(bars_of(sorted) == self.data@);
        }
    }
}

/// The index just past the run of bars that share the day of bar `a`.
pub fn day_end(s: &Vec<Bar>, a: usize) -> (b: usize)
    requires
        a < s@.len(),
    ensures
        a < b <= s@.len(),
        forall|k: int| a <= k < b ==> (#[trigger] s@[k]).time.day == s@[a as int].time.day,
        b < s@.len() ==> s@[b as int].time.day != s@[a as int].time.day,
{
    let n = s.len();
    let d = s[a].time.day;
    let mut b: usize = a + 1;
    while b < n && s[b].time.day == d
        invariant
            a < b <= s@.len(),
            n == s@.len(),
            d == s@[a as int].time.day,
            forall|k: int| a <= k < b ==> (#[trigger] s@[k]).time.day == d,
        decreases s@.len() - b,
    {
        b = b + 1;
    }
    b
}

} // verus!
