//! The signal candle of each day and the per-bar trading signal.

use vstd::prelude::*;

use crate::bars::{bars_sorted, bars_wf, Bar, CandleKind, SignalCandle};
use crate::strategy::{day_end, NiftyStrategy};
use crate::time::ts_le;

verus! {

/// The time of day of the signal candle, 09:25, in seconds past midnight.
pub const SIGNAL_SECOND: u32 = 33900;

/// A bar classifies its day as bullish, with its high as reference, when it
/// closes above its open; otherwise as bearish, with its low.
pub open spec fn classify(b: Bar) -> SignalCandle {
    if b.close > b.open {
        SignalCandle { kind: CandleKind::Bullish, value: b.high }
    } else {
        SignalCandle { kind: CandleKind::Bearish, value: b.low }
    }
}

/// Whether `b` is a signal candle of day `day`.
pub open spec fn is_signal_bar(b: Bar, day: i32) -> bool {
    b.time.day == day && b.time.second == SIGNAL_SECOND
}

/// The classification of `day`: that of its last signal candle, if it has one.
pub open spec fn day_candle(s: Seq<Bar>, day: i32) -> Option<SignalCandle>
    decreases s.len(),
{
    if s.len() == 0 {
        None
    } else if is_signal_bar(s.last(), day) {
        Some(classify(s.last()))
    } else {
        day_candle(s.drop_last(), day)
    }
}

/// `b` with the classification of its day in `s`; a bar of a day without a
/// signal candle keeps the classification it had.
pub open spec fn with_candle(s: Seq<Bar>, b: Bar) -> Bar {
    match day_candle(s, b.time.day) {
        Some(c) => Bar { candle: Some(c), ..b },
        None => b,
    }
}

/// The signal of a bar: -1 for a bearish day and a close below the reference,
/// 1 for a bullish day and a close above it, otherwise 0; a bar of a day with
/// no classification keeps its signal.
pub open spec fn signal_of(b: Bar) -> i8 {
    match b.candle {
        Some(c) => if c.kind == CandleKind::Bearish && b.close < c.value {
            -1i8
        } else if c.kind == CandleKind::Bullish && b.close > c.value {
            1i8
        } else {
            0i8
        },
        None => b.signal,
    }
}

/// Bars past `m` do not belong to `day`, so only the first `m` bars decide its classification.
pub proof fn lemma_day_candle_prefix(s: Seq<Bar>, m: int, day: i32)
    requires
        0 <= m <= s.len(),
        forall|k: int| m <= k < s.len() ==> (#[trigger] s[k]).time.day != day,
    ensures
        day_candle(s, day) == day_candle(s.take(m), day),
    decreases s.len(),
{
    if s.len() == m {
        assert(s.take(m) =~= s);
    } else {
        assert(s[s.len() - 1] == s.last());
        assert(s.drop_last().take(m) =~= s.take(m));
        lemma_day_candle_prefix(s.drop_last(), m, day);
    }
}

/// A classification is a price of a well-formed bar.
proof fn lemma_day_candle_ok(s: Seq<Bar>, day: i32)
    requires
        bars_wf(s),
    ensures
        match day_candle(s, day) {
            Some(c) => crate::bars::price_ok(c.value),
            None => true,
        },
    decreases s.len(),
{
    if s.len() > 0 {
        assert(s[s.len() - 1] == s.last());
        assert(s.last().wf());
        lemma_day_candle_ok(s.drop_last(), day);
    }
}

impl NiftyStrategy {
    /// Classifies each day by its 09:25 bar and hands the classification to
    /// every bar of that day, earlier bars included. Bars of days without such
    /// a bar are left as they are.
    pub fn identify_signal_candles(&mut self)
        requires
            old(self).wf(),
        ensures
            final(self).wf(),
            final(self).trades == old(self).trades,
            final(self).data@.len() == old(self).data@.len(),
            forall|k: int| 0 <= k < old(self).data@.len() ==> #[trigger] final(self).data@[k]
                == with_candle(old(self).data@, old(self).data@[k]),
            forall|j: int, k: int|
                0 <= j < final(self).data@.len() && 0 <= k < final(self).data@.len()
                && (#[trigger] final(self).data@[j]).time.day == (#[trigger] final(self).data@[k]).time.day
                && day_candle(old(self).data@, final(self).data@[j].time.day).is_some()
                ==> final(self).data@[j].candle == final(self).data@[k].candle,
    {
        let ghost s = self.data@;
        let n = self.data.len();
        let mut i: usize = 0;
        while i < n
            invariant
                n == s.len(),
                self.data@.len() == n,
                bars_wf(s),
                bars_sorted(s),
                self.trades == old(self).trades,
                s == old(self).data@,
                i <= n,
                0 < i < n ==> s[i - 1].time.day < s[i as int].time.day,
                forall|k: int| 0 <= k < i ==> #[trigger] self.data@[k] == with_candle(s, s[k]),
                forall|k: int| i <= k < n ==> #[trigger] self.data@[k] == s[k],
            decreases n - i,
        {
            let d = self.data[i].time.day;
            let j = day_end(&self.data, i);
            proof {
                assert forall|k: int| 0 <= k < i implies (#[trigger] s[k]).time.day != d by {
                    assert(ts_le(s[k].time, s[i - 1].time) || k == i - 1);
                }
                assert forall|k: int| j <= k < n implies (#[trigger] s[k]).time.day != d by {
                    assert(ts_le(s[j as int].time, s[k].time) || k == j);
                    assert(ts_le(s[i as int].time, s[j as int].time));
                }
                assert forall|m: int| i <= m < j implies (#[trigger] s[m]).time.day == d by {
                    assert(self.data@[m] == s[m]);
                }
                assert(s.take(i as int).take(0) =~= Seq::<Bar>::empty());
                lemma_day_candle_prefix(s.take(i as int), 0, d);
            }
            let mut cand: Option<SignalCandle> = None;
            let mut k: usize = i;
            while k < j
                invariant
                    i <= k <= j <= n,
                    n == s.len(),
                    self.data@.len() == n,
                    self.trades == old(self).trades,
                    forall|m: int| i <= m < n ==> #[trigger] self.data@[m] == s[m],
                    forall|m: int| i <= m < j ==> (#[trigger] s[m]).time.day == d,
                    cand == day_candle(s.take(k as int), d),
                decreases j - k,
            {
                let b = self.data[k];
                proof {
                    assert(s.take(k + 1).drop_last() =~= s.take(k as int));
                    assert(s.take(k + 1).last() == s[k as int]);
                }
                if b.time.second == SIGNAL_SECOND {
                    if b.close > b.open {
                        cand = Some(SignalCandle { kind: CandleKind::Bullish, value: b.high });
                    } else {
                        cand = Some(SignalCandle { kind: CandleKind::Bearish, value: b.low });
                    }
                }
                k = k + 1;
            }
            proof {
                lemma_day_candle_prefix(s, j as int, d);
            }
            let mut k: usize = i;
            while k < j
                invariant
                    i <= k <= j <= n,
                    n == s.len(),
                    self.data@.len() == n,
                    self.trades == old(self).trades,
                    forall|m: int| 0 <= m < k ==> #[trigger] self.data@[m] == with_candle(s, s[m]),
                    forall|m: int| k <= m < n ==> #[trigger] self.data@[m] == s[m],
                    forall|m: int| i <= m < j ==> (#[trigger] s[m]).time.day == d,
                    cand == day_candle(s, d),
                decreases j - k,
            {
                if cand.is_some() {
                    let mut b = self.data[k];
                    b.candle = cand;
                    self.data.set(k, b);
                }
                k = k + 1;
            }
            proof {
                if j < n {
                    assert(ts_le(s[j - 1].time, s[j as int].time));
                    assert(s[j - 1].time.day == d);
                }
            }
            i = j;
        }
        proof {
            assert forall|k: int| 0 <= k < n implies #[trigger] self.data@[k].wf() by {
                assert(s[k].wf());
                lemma_day_candle_ok(s, s[k].time.day);
            }
            assert forall|j: int, k: int| 0 <= j < k < n implies ts_le(
                #[trigger] self.data@[j].time,
                #[trigger] self.data@[k].time,
            ) by {
                assert(ts_le(s[j].time, s[k].time));
            }
        }
    }

    /// Sets the signal of every classified bar from its close and its day's
    /// classification.
    pub fn generate_trading_signals(&mut self)
        requires
            old(self).wf(),
        ensures
            final(self).wf(),
            final(self).trades == old(self).trades,
            final(self).data@.len() == old(self).data@.len(),
            forall|k: int| 0 <= k < old(self).data@.len() ==> #[trigger] final(self).data@[k]
                == (Bar { signal: signal_of(old(self).data@[k]), ..old(self).data@[k] }),
    {
        let ghost s = self.data@;
        let n = self.data.len();
        let mut i: usize = 0;
        while i < n
            invariant
                n == s.len(),
                self.data@.len() == n,
                bars_wf(s),
                bars_sorted(s),
                s == old(self).data@,
                self.trades == old(self).trades,
                i <= n,
                forall|k: int| 0 <= k < i ==> #[trigger] self.data@[k] == (Bar { signal: signal_of(s[k]), ..s[k] }),
                forall|k: int| i <= k < n ==> #[trigger] self.data@[k] == s[k],
            decreases n - i,
        {
            let mut b = self.data[i];
            match b.candle {
                Some(c) => {
                    if c.kind == CandleKind::Bearish && b.close < c.value {
                        b.signal = -1;
                    } else if c.kind == CandleKind::Bullish && b.close > c.value {
                        b.signal = 1;
                    } else {
                        b.signal = 0;
                    }
                },
                None => {},
            }
            self.data.set(i, b);
            i = i + 1;
        }
        proof {
            assert forall|k: int| 0 <= k < n implies #[trigger] self.data@[k].wf() by {
                assert(s[k].wf());
            }
            assert forall|j: int, k: int| 0 <= j < k < n implies ts_le(
                #[trigger] self.data@[j].time,
                #[trigger] self.data@[k].time,
            ) by {
                assert(ts_le(s[j].time, s[k].time));
            }
        }
    }
}

/// Number of bars with a nonzero signal.
pub open spec fn signal_bars_of(s: Seq<Bar>) -> int
    decreases s.len(),
{
    if s.len() == 0 { 0 } else { signal_bars_of(s.drop_last()) + if s.last().signal != 0 { 1int } else { 0int } }
}

/// Number of classified days: classified bars that open a run of their day.
pub open spec fn signal_days_of(s: Seq<Bar>) -> int
    decreases s.len(),
{
    if s.len() == 0 {
        0
    } else {
        let k = s.len() - 1;
        signal_days_of(s.drop_last()) + if s[k].candle.is_some() && (k == 0 || s[k - 1].time.day != s[k].time.day) {
            1int
        } else {
            0int
        }
    }
}

impl NiftyStrategy {
    /// How many bars carry a nonzero trading signal.
    pub fn signal_bar_count(&self) -> (r: usize)
        ensures
            r == signal_bars_of(self.data@),
    {
        let n = self.data.len();
        let mut c: usize = 0;
        let mut i: usize = 0;
        while i < n
            invariant
                n == self.data@.len(),
                i <= n,
                c == signal_bars_of(self.data@.take(i as int)),
                c <= i,
            decreases n - i,
        {
            proof {
                assert(self.data@.take(i + 1).drop_last() =~= self.data@.take(i as int));
                assert(self.data@.take(i + 1).last() == self.data@[i as int]);
            }
            if self.data[i].signal != 0 {
                c = c + 1;
            }
            i = i + 1;
        }
        assert(self.data@.take(n as int) =~= self.data@);
        c
    }

    /// How many days received a classification, for bars in chronological order.
    pub fn signal_day_count(&self) -> (r: usize)
        ensures
            r == signal_days_of(self.data@),
    {
        let n = self.data.len();
        let mut c: usize = 0;
        let mut i: usize = 0;
        while i < n
            invariant
                n == self.data@.len(),
                i <= n,
                c == signal_days_of(self.data@.take(i as int)),
                c <= i,
            decreases n - i,
        {
            proof {
                let p = self.data@.take(i + 1);
                assert(p.drop_last() =~= self.data@.take(i as int));
                assert(p[i as int] == self.data@[i as int]);
                if i > 0 {
                    assert(p[i - 1] == self.data@[i - 1]);
                }
            }
            if self.data[i].candle.is_some() && (i == 0 || self.data[i - 1].time.day != self.data[i].time.day) {
                c = c + 1;
            }
            i = i + 1;
        }
        assert(self.data@.take(n as int) =~= self.data@);
        c
    }
}

} // verus!
