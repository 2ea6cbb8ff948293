//! Summary statistics of a sequence of trades, in exact integer form.

use vstd::prelude::*;

use crate::strategy::NiftyStrategy;
use crate::trades::{lemma_net_bound, trades_wf, Trade, MAX_NET_PNL};

verus! {

/// The exact statistics of a sequence of trades. Profits are in the units of
/// `Trade::net_pnl`. Ratios that need a division or a square root are derived
/// from these by the caller.
#[derive(Clone, Copy, Debug, PartialEq)]
pub struct PerformanceMetrics {
    /// Sum of net profits.
    pub total_pnl: i128,
    /// The most negative drop of cumulative profit below its running maximum, or 0.
    pub max_drawdown: i128,
    /// Number of trades with a positive net profit.
    pub win_count: usize,
    /// Number of trades with a negative net profit.
    pub loss_count: usize,
    /// Sum of the positive net profits.
    pub win_total: i128,
    /// Sum of the negative net profits.
    pub loss_total: i128,
    /// Number of trades.
    pub total_trades: usize,
}

/// Every net profit is within the bound that well-formed trades keep.
pub open spec fn nets_bounded(s: Seq<Trade>) -> bool {
    forall|k: int| 0 <= k < s.len() ==> -MAX_NET_PNL <= #[trigger] s[k].net_pnl <= MAX_NET_PNL
}

/// The trades that `identify_trades` builds meet the bound.
pub proof fn lemma_wf_nets_bounded(s: Seq<Trade>)
    requires
        trades_wf(s),
    ensures
        nets_bounded(s),
{
    assert forall|k: int| 0 <= k < s.len() implies -MAX_NET_PNL <= #[trigger] s[k].net_pnl <= MAX_NET_PNL by {
        lemma_net_bound(s[k]);
    }
}

/// Sum of net profits.
pub open spec fn total_of(s: Seq<Trade>) -> int
    decreases s.len(),
{
    if s.len() == 0 { 0 } else { total_of(s.drop_last()) + s.last().net_pnl }
}

/// After walking the trades in order: cumulative profit, its running maximum
/// (which starts at 0) and the most negative drawdown seen (which starts at 0).
pub open spec fn drawdown_walk(s: Seq<Trade>) -> (int, int, int)
    decreases s.len(),
{
    if s.len() == 0 {
        (0, 0, 0)
    } else {
        let (cum, peak, worst) = drawdown_walk(s.drop_last());
        let c = cum + s.last().net_pnl;
        let p = if c > peak { c } else { peak };
        let w = if c - p < worst { c - p } else { worst };
        (c, p, w)
    }
}

/// Number of trades whose net profit is positive.
pub open spec fn win_count_of(s: Seq<Trade>) -> int
    decreases s.len(),
{
    if s.len() == 0 { 0 } else { win_count_of(s.drop_last()) + if s.last().net_pnl > 0 { 1int } else { 0int } }
}

/// Number of trades whose net profit is negative.
pub open spec fn loss_count_of(s: Seq<Trade>) -> int
    decreases s.len(),
{
    if s.len() == 0 { 0 } else { loss_count_of(s.drop_last()) + if s.last().net_pnl < 0 { 1int } else { 0int } }
}

/// Sum of the positive net profits.
pub open spec fn win_total_of(s: Seq<Trade>) -> int
    decreases s.len(),
{
    if s.len() == 0 { 0 } else { win_total_of(s.drop_last()) + if s.last().net_pnl > 0 { s.last().net_pnl as int } else { 0int } }
}

/// Sum of the negative net profits.
pub open spec fn loss_total_of(s: Seq<Trade>) -> int
    decreases s.len(),
{
    if s.len() == 0 { 0 } else { loss_total_of(s.drop_last()) + if s.last().net_pnl < 0 { s.last().net_pnl as int } else { 0int } }
}

/// The statistics of `s`.
pub open spec fn metrics_of(s: Seq<Trade>) -> PerformanceMetrics {
    PerformanceMetrics {
        total_pnl: total_of(s) as i128,
        max_drawdown: drawdown_walk(s).2 as i128,
        win_count: win_count_of(s) as usize,
        loss_count: loss_count_of(s) as usize,
        win_total: win_total_of(s) as i128,
        loss_total: loss_total_of(s) as i128,
        total_trades: s.len() as usize,
    }
}

/// The statistics of no trades.
pub open spec fn zero_metrics() -> PerformanceMetrics {
    PerformanceMetrics {
        total_pnl: 0,
        max_drawdown: 0,
        win_count: 0,
        loss_count: 0,
        win_total: 0,
        loss_total: 0,
        total_trades: 0,
    }
}

/// Bounds of the walk: every running sum stays within `n` times the largest profit.
proof fn lemma_walk_bounds(s: Seq<Trade>)
    requires
        nets_bounded(s),
    ensures
        -s.len() * MAX_NET_PNL <= total_of(s) <= s.len() * MAX_NET_PNL,
        drawdown_walk(s).0 == total_of(s),
        0 <= drawdown_walk(s).1 <= s.len() * MAX_NET_PNL,
        -2 * s.len() * MAX_NET_PNL <= drawdown_walk(s).2 <= 0,
        0 <= win_count_of(s) <= s.len(),
        0 <= loss_count_of(s) <= s.len(),
        win_count_of(s) + loss_count_of(s) <= s.len(),
        0 <= win_total_of(s) <= s.len() * MAX_NET_PNL,
        -s.len() * MAX_NET_PNL <= loss_total_of(s) <= 0,
    decreases s.len(),
{
    if s.len() > 0 {
        let h = s.drop_last();
        assert(s[s.len() - 1] == s.last());
        assert(nets_bounded(h)) by {
            assert forall|k: int| 0 <= k < h.len() implies -MAX_NET_PNL <= #[trigger] h[k].net_pnl <= MAX_NET_PNL by {
                assert(h[k] == s[k]);
            }
        }
        lemma_walk_bounds(h);
        assert(s.len() * MAX_NET_PNL == h.len() * MAX_NET_PNL + MAX_NET_PNL) by (nonlinear_arith)
            requires s.len() == h.len() + 1;
    }
}

/// No trade can lose more than the peak already reached, so the largest drawdown
/// of any trade sequence is at most 0, and the share of winning trades lies
/// between none and all of them.
pub proof fn lemma_drawdown_and_win_rate(s: Seq<Trade>)
    requires
        nets_bounded(s),
    ensures
        drawdown_walk(s).2 <= 0,
        0 <= win_count_of(s) <= s.len(),
        0 <= 100 * win_count_of(s) <= 100 * s.len(),
{
    lemma_walk_bounds(s);
}

/// The statistics of no trades are all zero.
pub proof fn lemma_empty_metrics(s: Seq<Trade>)
    requires
        s.len() == 0,
    ensures
        metrics_of(s) == zero_metrics(),
{
}

impl NiftyStrategy {
    /// The statistics of the strategy's trades; all zero when there are none.
    pub fn calculate_performance_metrics(&self) -> (r: PerformanceMetrics)
        requires
            nets_bounded(self.trades@),
        ensures
            r == metrics_of(self.trades@),
            self.trades@.len() == 0 ==> r == zero_metrics(),
            r.max_drawdown <= 0,
            r.win_count <= r.total_trades,
            r.total_trades == self.trades@.len(),
    {
        let n = self.trades.len();
        let ghost s = self.trades@;
        if n == 0 {
            return PerformanceMetrics {
                total_pnl: 0,
                max_drawdown: 0,
                win_count: 0,
                loss_count: 0,
                win_total: 0,
                loss_total: 0,
                total_trades: 0,
            };
        }
        proof {
            assert(n * MAX_NET_PNL <= u64::MAX * MAX_NET_PNL) by (nonlinear_arith)
                requires n <= u64::MAX;
        }
        let mut total: i128 = 0;
        let mut peak: i128 = 0;
        let mut worst: i128 = 0;
        let mut wins: usize = 0;
        let mut losses: usize = 0;
        let mut win_total: i128 = 0;
        let mut loss_total: i128 = 0;
        let mut i: usize = 0;
        while i < n
            invariant
                n == s.len(),
                s == self.trades@,
                nets_bounded(s),
                n * MAX_NET_PNL <= u64::MAX * MAX_NET_PNL,
                i <= n,
                total == total_of(s.take(i as int)),
                drawdown_walk(s.take(i as int)) == (total as int, peak as int, worst as int),
                wins == win_count_of(s.take(i as int)),
                losses == loss_count_of(s.take(i as int)),
                win_total == win_total_of(s.take(i as int)),
                loss_total == loss_total_of(s.take(i as int)),
            decreases n - i,
        {
            let ghost p = s.take(i + 1);
            proof {
                assert(p.drop_last() =~= s.take(i as int));
                assert(p.last() == s[i as int]);
                lemma_walk_bounds(p);
                assert(p.len() * MAX_NET_PNL <= n * MAX_NET_PNL) by (nonlinear_arith)
                    requires p.len() <= n;
            }
            let x = self.trades[i].net_pnl;
            total = total + x as i128;
            if total > peak {
                peak = total;
            }
            if total - peak < worst {
                worst = total - peak;
            }
            if x > 0 {
                wins = wins + 1;
                win_total = win_total + x as i128;
            }
            if x < 0 {
                losses = losses + 1;
                loss_total = loss_total + x as i128;
            }
            i = i + 1;
        }
        proof {
            assert(s.take(n as int) =~= s);
            lemma_drawdown_and_win_rate(s);
        }
        PerformanceMetrics {
            total_pnl: total,
            max_drawdown: worst,
            win_count: wins,
            loss_count: losses,
            win_total,
            loss_total,
            total_trades: n,
        }
    }
}

} // verus!
