//! Trades: at most one per day, entered on the first signal of the trading
//! window and left at 15:15 or on the window's last bar.

use vstd::prelude::*;

use crate::bars::{bars_sorted, bars_wf, price_ok, Bar};
use crate::strategy::{day_end, NiftyStrategy};
use crate::time::{ts_le, Timestamp};

verus! {

/// Start of the trading window, 09:30, in seconds past midnight.
pub const WINDOW_START: u32 = 34200;

/// End of the trading window and time of exit, 15:15, in seconds past midnight.
pub const EXIT_SECOND: u32 = 54900;

/// The transaction cost is `COST_NUM / COST_SCALE` of the absolute price move.
pub const COST_NUM: i64 = 12;

/// Net profit is kept exactly, in units of one `COST_SCALE`-th of a price unit.
pub const COST_SCALE: i64 = 10000;

/// Largest magnitude of a net profit, in its units.
pub const MAX_NET_PNL: i64 = 200_240_000_000_000_000;

/// One day's trade.
///
/// Prices and `gross_pnl` are in price units; `net_pnl` is in units of one
/// `COST_SCALE`-th of a price unit, so that the cost is kept exactly.
#[derive(Clone, Copy, Debug, PartialEq)]
pub struct Trade {
    pub date: i32,
    pub entry_time: Timestamp,
    pub entry_price: i64,
    pub exit_time: Timestamp,
    pub exit_price: i64,
    pub signal: i8,
    pub gross_pnl: i64,
    pub net_pnl: i64,
}

/// Gross profit of a position of direction `signal` from `entry` to `exit`.
pub open spec fn gross_of(signal: i8, entry: int, exit: int) -> int {
    if signal == -1 { entry - exit } else { exit - entry }
}

/// The cost of a move from `entry` to `exit`, in units of net profit.
pub open spec fn cost_of(entry: int, exit: int) -> int {
    let d = exit - entry;
    (if d < 0 { -d } else { d }) * COST_NUM
}

/// Net profit, in its units: gross profit less the cost.
pub open spec fn net_of(signal: i8, entry: int, exit: int) -> int {
    gross_of(signal, entry, exit) * COST_SCALE - cost_of(entry, exit)
}

impl Trade {
    pub open spec fn wf(self) -> bool {
        &&& price_ok(self.entry_price)
        &&& price_ok(self.exit_price)
        &&& (self.signal == 1 || self.signal == -1)
        &&& self.gross_pnl == gross_of(self.signal, self.entry_price as int, self.exit_price as int)
        &&& self.net_pnl == net_of(self.signal, self.entry_price as int, self.exit_price as int)
    }
}

pub open spec fn trades_wf(s: Seq<Trade>) -> bool {
    forall|k: int| 0 <= k < s.len() ==> #[trigger] s[k].wf()
}

/// A well-formed trade's net profit is bounded.
pub proof fn lemma_net_bound(t: Trade)
    requires
        t.wf(),
    ensures
        -MAX_NET_PNL <= t.net_pnl <= MAX_NET_PNL,
{
}

/// Whether `b` is a bar of `day` inside the trading window.
pub open spec fn in_window(b: Bar, day: i32) -> bool {
    b.time.day == day && WINDOW_START <= b.time.second <= EXIT_SECOND
}

/// Bar `e` is the first bar of `day` in the window with a nonzero signal.
pub open spec fn is_entry(s: Seq<Bar>, day: i32, e: int) -> bool {
    &&& 0 <= e < s.len()
    &&& in_window(s[e], day)
    &&& s[e].signal != 0
    &&& forall|k: int| 0 <= k < e && in_window(#[trigger] s[k], day) ==> s[k].signal == 0
}

/// Whether `day` has a bar in the window with a nonzero signal.
pub open spec fn has_entry(s: Seq<Bar>, day: i32) -> bool {
    exists|e: int| 0 <= e < s.len() && in_window(#[trigger] s[e], day) && s[e].signal != 0
}

/// Bar `x` is the exit of `day`: its first bar at 15:15, or, if it has none,
/// its last bar in the window.
pub open spec fn is_exit(s: Seq<Bar>, day: i32, x: int) -> bool {
    &&& 0 <= x < s.len()
    &&& in_window(s[x], day)
    &&& if s[x].time.second == EXIT_SECOND {
        forall|k: int| 0 <= k < x && in_window(#[trigger] s[k], day) ==> s[k].time.second != EXIT_SECOND
    } else {
        &&& forall|k: int| 0 <= k < s.len() && in_window(#[trigger] s[k], day) ==> s[k].time.second != EXIT_SECOND
        &&& forall|k: int| x < k < s.len() ==> !in_window(#[trigger] s[k], day)
    }
}

/// The trade entered at the close of `entry` and left at the open of `exit`.
pub open spec fn trade_from(entry: Bar, exit: Bar) -> Trade {
    Trade {
        date: entry.time.day,
        entry_time: entry.time,
        entry_price: entry.close,
        exit_time: exit.time,
        exit_price: exit.open,
        signal: entry.signal,
        gross_pnl: gross_of(entry.signal, entry.close as int, exit.open as int) as i64,
        net_pnl: net_of(entry.signal, entry.close as int, exit.open as int) as i64,
    }
}

/// `t` is the trade of its date in `s`.
pub open spec fn is_day_trade(s: Seq<Bar>, t: Trade) -> bool {
    exists|e: int, x: int| is_entry(s, t.date, e) && is_exit(s, t.date, x) && t == #[trigger] trade_from(s[e], s[x])
}

/// Builds the trade entered at `entry` and left at `exit`.
fn make_trade(entry: &Bar, exit: &Bar) -> (r: Trade)
    requires
        entry.wf(),
        exit.wf(),
        entry.signal != 0,
    ensures
        r == trade_from(*entry, *exit),
        r.wf(),
{
    let gross: i64 = if entry.signal == -1 {
        entry.close - exit.open
    } else {
        exit.open - entry.close
    };
    let moved: i64 = if exit.open >= entry.close {
        exit.open - entry.close
    } else {
        entry.close - exit.open
    };
    let net: i64 = gross * COST_SCALE - moved * COST_NUM;
    Trade {
        date: entry.time.day,
        entry_time: entry.time,
        entry_price: entry.close,
        exit_time: exit.time,
        exit_price: exit.open,
        signal: entry.signal,
        gross_pnl: gross,
        net_pnl: net,
    }
}

/// The trade of the day of the bars `a..b`, which are all the bars of that day.
fn trade_for_day(s: &Vec<Bar>, a: usize, b: usize) -> (r: Option<Trade>)
    requires
        a < b <= s@.len(),
        bars_wf(s@),
        bars_sorted(s@),
        forall|k: int| 0 <= k < s@.len() ==> (a <= k < b <==> (#[trigger] s@[k]).time.day == s@[a as int].time.day),
    ensures
        r.is_some() == has_entry(s@, s@[a as int].time.day),
        match r {
            Some(t) => {
                &&& t.date == s@[a as int].time.day
                &&& is_day_trade(s@, t)
                &&& t.wf()
                &&& ts_le(t.entry_time, t.exit_time)
            },
            None => true,
        },
{
    let ghost q = s@;
    let d = s[a].time.day;
    let mut entry: Option<usize> = None;
    let mut at_exit: Option<usize> = None;
    let mut last: Option<usize> = None;
    let mut k: usize = a;
    while k < b
        invariant
            a <= k <= b <= q.len(),
            q == s@,
            d == q[a as int].time.day,
            forall|m: int| 0 <= m < q.len() ==> (a <= m < b <==> (#[trigger] q[m]).time.day == d),
            match entry {
                Some(e) => e < k && is_entry(q, d, e as int),
                None => forall|m: int| 0 <= m < k && in_window(#[trigger] q[m], d) ==> q[m].signal == 0,
            },
            match at_exit {
                Some(x) => x < k && in_window(q[x as int], d) && q[x as int].time.second == EXIT_SECOND
                    && forall|m: int| 0 <= m < x && in_window(#[trigger] q[m], d) ==> q[m].time.second != EXIT_SECOND,
                None => forall|m: int| 0 <= m < k && in_window(#[trigger] q[m], d) ==> q[m].time.second != EXIT_SECOND,
            },
            match last {
                Some(l) => l < k && in_window(q[l as int], d) && forall|m: int| l < m < k ==> !in_window(#[trigger] q[m], d),
                None => forall|m: int| 0 <= m < k ==> !in_window(#[trigger] q[m], d),
            },
        decreases b - k,
    {
        let bar = &s[k];
        if bar.time.second >= WINDOW_START && bar.time.second <= EXIT_SECOND {
            if entry.is_none() && bar.signal != 0 {
                entry = Some(k);
            }
            if at_exit.is_none() && bar.time.second == EXIT_SECOND {
                at_exit = Some(k);
            }
            last = Some(k);
        }
        k = k + 1;
    }
    proof {
        assert forall|m: int| b <= m < q.len() implies !in_window(#[trigger] q[m], d) by {}
    }
    match entry {
        None => {
            proof {
                assert forall|m: int| 0 <= m < q.len() && in_window(#[trigger] q[m], d) implies q[m].signal == 0 by {}
            }
            None
        },
        Some(e) => {
            let x: usize = match at_exit {
                Some(x) => x,
                None => match last {
                    Some(l) => l,
                    None => e,
                },
            };
            proof {
                assert(q[e as int].wf());
                assert(q[x as int].wf());
                assert(is_exit(q, d, x as int));
                if at_exit.is_some() {
                    assert(ts_le(q[e as int].time, q[x as int].time));
                } else {
                    assert(e <= x);
                    if e < x {
                        assert(ts_le(q[e as int].time, q[x as int].time));
                    }
                }
            }
            let t = make_trade(&s[e], &s[x]);
            proof {
                assert(is_entry(q, t.date, e as int) && is_exit(q, t.date, x as int) && t == trade_from(q[e as int], q[x as int]));
            }
            Some(t)
        },
    }
}

/// Trades with strictly increasing dates.
pub open spec fn dates_increasing(t: Seq<Trade>) -> bool {
    forall|i: int, j: int| 0 <= i < j < t.len() ==> (#[trigger] t[i]).date < (#[trigger] t[j]).date
}

impl NiftyStrategy {
    /// Builds the day's trade for every day with a signal in the trading window,
    /// in order of date, and keeps them as the strategy's trades.
    pub fn identify_trades(&mut self)
        requires
            old(self).wf(),
        ensures
            final(self).wf(),
            final(self).data == old(self).data,
            dates_increasing(final(self).trades@),
            forall|i: int| 0 <= i < final(self).trades@.len() ==> is_day_trade(old(self).data@, #[trigger] final(self).trades@[i]),
            forall|d: i32| has_entry(old(self).data@, d) ==> exists|i: int| 0 <= i < final(self).trades@.len()
                && (#[trigger] final(self).trades@[i]).date == d,
            forall|i: int| 0 <= i < final(self).trades@.len() ==> ts_le((#[trigger] final(self).trades@[i]).entry_time, final(self).trades@[i].exit_time),
    {
        let ghost q = self.data@;
        let n = self.data.len();
        let mut out: Vec<Trade> = Vec::new();
        let mut i: usize = 0;
        while i < n
            invariant
                q == self.data@,
                n == q.len(),
                bars_wf(q),
                bars_sorted(q),
                i <= n,
                i < n ==> forall|m: int| 0 <= m < i ==> (#[trigger] q[m]).time.day < q[i as int].time.day,
                trades_wf(out@),
                dates_increasing(out@),
                i < n ==> forall|t: int| 0 <= t < out@.len() ==> (#[trigger] out@[t]).date < q[i as int].time.day,
                forall|t: int| 0 <= t < out@.len() ==> is_day_trade(q, #[trigger] out@[t]),
                forall|t: int| 0 <= t < out@.len() ==> ts_le((#[trigger] out@[t]).entry_time, out@[t].exit_time),
                forall|d: i32| has_entry(q, d) && (i == n || d < q[i as int].time.day) ==> exists|t: int|
                    0 <= t < out@.len() && (#[trigger] out@[t]).date == d,
            decreases n - i,
        {
            let j = day_end(&self.data, i);
            let ghost d = q[i as int].time.day;
            proof {
                assert forall|k: int| 0 <= k < q.len() implies (i <= k < j <==> (#[trigger] q[k]).time.day == d) by {
                    if k < i {
                        assert(q[k].time.day < d);
                    } else if k >= j {
                        assert(ts_le(q[j as int].time, q[k]. time) || k == j);
                        assert(ts_le(q[i as int].time, q[j as int].time));
                    }
                }
            }
            let r = trade_for_day(&self.data, i, j);
            let ghost before = out@;
            match r {
                Some(t) => {
                    out.push(t);
                    proof {
                        assert(out@[before.len() as int] == t);
                    }
                },
                None => {},
            }
            proof {
                assert forall|t: int| 0 <= t < out@.len() implies is_day_trade(q, #[trigger] out@[t]) && ts_le(out@[t].entry_time, out@[t].exit_time) && out@[t].wf() by {
                    if t < before.len() {
                        assert(out@[t] == before[t]);
                    }
                }
                if j < n {
                    assert(q[j - 1].time.day == d);
                    assert(ts_le(q[j - 1].time, q[j as int].time));
                    assert forall|m: int| 0 <= m < j implies (#[trigger] q[m]).time.day < q[j as int].time.day by {
                        if m < i {
                            assert(q[m].time.day < d);
                        }
                    }
                }
                assert forall|d2: i32| has_entry(q, d2) && (j == n || d2 < q[j as int].time.day) implies exists|t: int|
                    0 <= t < out@.len() && (#[trigger] out@[t]).date == d2 by {
                    if i < n && d2 < d {
                        let t = choose|t: int| 0 <= t < before.len() && (#[trigger] before[t]).date == d2;
                        assert(out@[t] == before[t]);
                    } else if d2 == d {
                        assert(out@[before.len() as int].date == d2);
                    } else {
                        let e = choose|e: int| 0 <= e < q.len() && in_window(#[trigger] q[e], d2) && q[e].signal != 0;
                        if e < j {
                            if e < i {
                                assert(q[e].time.day < d);
                            } else {
                                assert(q[e].time.day == d);
                            }
                        } else if j < n {
                            assert(ts_le(q[j as int].time, q[e].time) || e == j);
                        }
                    }
                }
            }
            i = j;
        }
        self.trades = out;
    }
}

} // verus!
