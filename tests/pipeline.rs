use nifty_strategy::bars::{Bar, CandleKind, SignalCandle, Tick};
use nifty_strategy::metrics::PerformanceMetrics;
use nifty_strategy::strategy::{NiftyStrategy, RawRow};
use nifty_strategy::time::Timestamp;
use nifty_strategy::trades::Trade;

fn px(x: f64) -> i64 {
    (x * 10000.0).round() as i64
}

fn at(day: i32, h: u32, m: u32, s: u32) -> Timestamp {
    Timestamp { day, second: h * 3600 + m * 60 + s }
}

fn tick(time: Timestamp, o: f64, h: f64, l: f64, c: f64, v: u64) -> Tick {
    Tick { time, open: px(o), high: px(h), low: px(l), close: px(c), volume: v }
}

fn bar(time: Timestamp, o: f64, h: f64, l: f64, c: f64) -> Bar {
    Bar { time, open: px(o), high: px(h), low: px(l), close: px(c), volume: 0, candle: None, signal: 0 }
}

fn row(date: &str, o: f64, h: f64, l: f64, c: f64) -> RawRow {
    RawRow { date: date.to_string(), open: px(o), high: px(h), low: px(l), close: px(c), volume: 10 }
}

fn run(rows: &Vec<RawRow>) -> NiftyStrategy {
    let mut s = NiftyStrategy::new();
    s.prepare_data(rows);
    s.identify_signal_candles();
    s.generate_trading_signals();
    s.identify_trades();
    s
}

fn trade(date: i32, net_pnl: i64) -> Trade {
    Trade {
        date,
        entry_time: at(date, 9, 30, 0),
        entry_price: 0,
        exit_time: at(date, 15, 15, 0),
        exit_price: 0,
        signal: 1,
        gross_pnl: 0,
        net_pnl,
    }
}

#[test]
fn test_strategy_initialization() {
    let strategy = NiftyStrategy::new();
    assert_eq!(strategy.trades.len(), 0);
    assert_eq!(strategy.data.len(), 0);
}

#[test]
fn test_performance_metrics_empty() {
    let strategy = NiftyStrategy::new();
    let metrics = strategy.calculate_performance_metrics();
    assert_eq!(metrics.total_trades, 0);
    assert_eq!(metrics.total_pnl, 0);
}

#[test]
fn test_datetime_parsing() {
    let test_cases = ["2024-01-15 09:30:00", "15-01-2024 09:30:00", "2024/01/15 09:30:00"];

    for case in &test_cases {
        assert!(NiftyStrategy::parse_datetime(case).is_some());
    }
}

#[test]
fn test_5min_rounding() {
    let datetime = NiftyStrategy::parse_datetime("2024-01-15 09:37:23").unwrap();
    let rounded = NiftyStrategy::round_to_5min(datetime);

    assert_eq!(rounded.minute(), 35);
    assert_eq!(rounded.second(), 0);
}

#[test]
fn parse_reads_day_number_and_seconds() {
    let t = NiftyStrategy::parse_datetime("2024-01-15 09:30:00").unwrap();
    let day = chrono::NaiveDate::from_ymd_opt(2024, 1, 15).unwrap();
    assert_eq!(t.day, chrono::Datelike::num_days_from_ce(&day));
    assert_eq!(t.second, 9 * 3600 + 30 * 60);
    assert_eq!(t.hour(), 9);
    assert_eq!(t.minute(), 30);
}

#[test]
fn parse_accepts_every_format_alike() {
    let a = NiftyStrategy::parse_datetime("2024-01-15 09:30:00").unwrap();
    for text in [
        "15-01-2024 09:30:00",
        "2024/01/15 09:30:00",
        "15/01/2024 09:30:00",
        "2024-01-15 09:30",
        "15-01-2024 09:30",
    ] {
        assert_eq!(NiftyStrategy::parse_datetime(text), Some(a));
    }
}

#[test]
fn parse_rejects_unknown_text() {
    assert_eq!(NiftyStrategy::parse_datetime("Jan 15 2024"), None);
    assert_eq!(NiftyStrategy::parse_datetime(""), None);
    assert_eq!(NiftyStrategy::parse_datetime("2024-13-45 09:30:00"), None);
}

#[test]
fn rounding_keeps_grid_points_and_day() {
    let t = at(5, 9, 35, 0);
    assert_eq!(NiftyStrategy::round_to_5min(t), t);
    let late = at(5, 23, 59, 59);
    assert_eq!(NiftyStrategy::round_to_5min(late), at(5, 23, 55, 0));
}

#[test]
fn aggregate_takes_first_open_last_close_and_extremes() {
    let ticks = vec![
        tick(at(1, 9, 16, 10), 10.0, 11.0, 9.5, 10.5, 3),
        tick(at(1, 9, 17, 0), 10.5, 12.25, 10.0, 11.0, 4),
        tick(at(1, 9, 19, 59), 11.0, 11.5, 9.0, 10.75, 5),
    ];
    let b = NiftyStrategy::aggregate_bars(&ticks);
    assert_eq!(b.time, at(1, 9, 15, 0));
    assert_eq!(b.open, px(10.0));
    assert_eq!(b.close, px(10.75));
    assert_eq!(b.high, px(12.25));
    assert_eq!(b.low, px(9.0));
    assert_eq!(b.volume, 12);
    assert_eq!(b.candle, None);
    assert_eq!(b.signal, 0);
}

#[test]
fn aggregate_of_negative_highs_is_their_maximum() {
    let ticks = vec![tick(at(1, 9, 15, 0), -2.0, -1.5, -3.0, -2.5, 1), tick(at(1, 9, 16, 0), -2.5, -1.0, -2.75, -2.0, 1)];
    let b = NiftyStrategy::aggregate_bars(&ticks);
    assert_eq!(b.high, px(-1.0));
    assert_eq!(b.low, px(-3.0));
}

#[test]
fn resampling_groups_by_interval_and_skips_gaps() {
    let ticks = vec![
        tick(at(1, 9, 15, 0), 1.0, 2.0, 0.5, 1.5, 1),
        tick(at(1, 9, 19, 30), 1.5, 3.0, 1.0, 2.5, 2),
        tick(at(1, 9, 31, 5), 2.5, 2.75, 2.0, 2.25, 7),
        tick(at(2, 9, 31, 5), 4.0, 4.5, 3.5, 4.25, 9),
    ];
    let bars = NiftyStrategy::create_5min_bars(ticks.clone());
    assert_eq!(bars.len(), 3);
    assert_eq!(bars[0].time, at(1, 9, 15, 0));
    assert_eq!(bars[0].open, px(1.0));
    assert_eq!(bars[0].close, px(2.5));
    assert_eq!(bars[0].high, px(3.0));
    assert_eq!(bars[0].low, px(0.5));
    assert_eq!(bars[0].volume, 3);
    assert_eq!(bars[1].time, at(1, 9, 30, 0));
    assert_eq!(bars[2].time, at(2, 9, 30, 0));
    for b in &bars {
        assert_eq!(b.time.minute() % 5, 0);
        assert_eq!(b.time.second(), 0);
    }
    for (b, t) in bars.iter().zip([0usize, 2, 3]) {
        assert!(b.high >= ticks[t].high);
        assert!(b.low <= ticks[t].low);
    }
}

#[test]
fn resampling_no_ticks_gives_no_bars() {
    assert!(NiftyStrategy::create_5min_bars(Vec::new()).is_empty());
}

#[test]
fn resampling_volume_is_exact_sum_at_large_values() {
    let ticks = vec![tick(at(1, 9, 15, 0), 1.0, 1.0, 1.0, 1.0, u64::MAX), tick(at(1, 9, 16, 0), 1.0, 1.0, 1.0, 1.0, u64::MAX)];
    let bars = NiftyStrategy::create_5min_bars(ticks);
    assert_eq!(bars[0].volume, 2 * (u64::MAX as u128));
}

#[test]
fn signal_candle_classifies_and_broadcasts_to_whole_day() {
    let mut s = NiftyStrategy::new();
    s.data = vec![
        bar(at(1, 9, 15, 0), 100.0, 101.0, 99.0, 100.5),
        bar(at(1, 9, 25, 0), 100.0, 102.0, 99.5, 101.0),
        bar(at(1, 9, 30, 0), 101.0, 101.5, 100.5, 101.0),
        bar(at(2, 9, 25, 0), 100.0, 100.5, 98.0, 100.0),
        bar(at(3, 9, 30, 0), 100.0, 100.5, 98.0, 99.0),
    ];
    s.identify_signal_candles();
    let bull = Some(SignalCandle { kind: CandleKind::Bullish, value: px(102.0) });
    assert_eq!(s.data[0].candle, bull);
    assert_eq!(s.data[1].candle, bull);
    assert_eq!(s.data[2].candle, bull);
    // equal open and close counts as bearish, with the low as reference
    assert_eq!(s.data[3].candle, Some(SignalCandle { kind: CandleKind::Bearish, value: px(98.0) }));
    assert_eq!(s.data[4].candle, None);
    assert_eq!(s.signal_day_count(), 2);
}

#[test]
fn signals_follow_close_against_reference() {
    let mut s = NiftyStrategy::new();
    let mut a = bar(at(1, 9, 30, 0), 0.0, 0.0, 0.0, 103.0);
    a.candle = Some(SignalCandle { kind: CandleKind::Bullish, value: px(102.0) });
    let mut b = bar(at(1, 9, 35, 0), 0.0, 0.0, 0.0, 102.0);
    b.candle = a.candle;
    let mut c = bar(at(2, 9, 30, 0), 0.0, 0.0, 0.0, 97.0);
    c.candle = Some(SignalCandle { kind: CandleKind::Bearish, value: px(98.0) });
    let mut d = bar(at(2, 9, 35, 0), 0.0, 0.0, 0.0, 99.0);
    d.candle = c.candle;
    let e = bar(at(3, 9, 30, 0), 0.0, 0.0, 0.0, 99.0);
    s.data = vec![a, b, c, d, e];
    s.generate_trading_signals();
    let signals: Vec<i8> = s.data.iter().map(|b| b.signal).collect();
    assert_eq!(signals, vec![1, 0, -1, 0, 0]);
    assert_eq!(s.signal_bar_count(), 2);
}

#[test]
fn scenario_bullish_day_makes_one_long_trade() {
    let rows = vec![
        row("2024-01-15 09:15:00", 100.0, 101.0, 99.0, 100.5),
        row("2024-01-15 09:20:00", 100.5, 101.5, 100.0, 101.0),
        row("2024-01-15 09:25:00", 101.0, 102.0, 100.5, 101.8),
        row("2024-01-15 09:30:00", 101.8, 103.0, 101.5, 102.5),
        row("2024-01-15 15:15:00", 105.0, 105.5, 104.5, 105.2),
    ];
    let s = run(&rows);
    assert_eq!(s.data.len(), 5);
    assert_eq!(s.trades.len(), 1);
    let t = &s.trades[0];
    assert_eq!(t.entry_price, px(102.5));
    assert_eq!(t.exit_price, px(105.0));
    assert_eq!(t.signal, 1);
    assert_eq!(t.gross_pnl, px(105.0) - px(102.5));
    let gross = 105.0 - 102.5;
    let net = gross - (105.0f64 - 102.5).abs() * 0.0012;
    assert!((t.net_pnl as f64 / 1e8 - net).abs() < 1e-9);
    assert_eq!(t.net_pnl, 249_700_000);
    assert_eq!(t.entry_time.second, 9 * 3600 + 30 * 60);
    assert_eq!(t.exit_time.second, 15 * 3600 + 15 * 60);
}

#[test]
fn scenario_bearish_day_without_break_makes_no_trade() {
    let rows = vec![
        row("2024-01-16 09:20:00", 100.0, 100.5, 99.0, 99.5),
        row("2024-01-16 09:25:00", 99.5, 100.0, 98.0, 98.5),
        row("2024-01-16 09:30:00", 98.5, 99.5, 98.0, 99.0),
        row("2024-01-16 12:00:00", 99.0, 99.5, 98.2, 98.0),
        row("2024-01-16 15:15:00", 98.5, 99.0, 98.1, 98.6),
    ];
    let s = run(&rows);
    assert_eq!(s.data[1].candle, Some(SignalCandle { kind: CandleKind::Bearish, value: px(98.0) }));
    assert!(s.trades.is_empty());
}

#[test]
fn short_trade_exits_on_last_window_bar_without_1515() {
    let rows = vec![
        row("16/01/2024 09:25:00", 100.0, 100.5, 99.0, 99.5),
        row("16/01/2024 09:40:00", 99.0, 99.2, 98.0, 98.5),
        row("16/01/2024 11:00:00", 97.0, 97.5, 96.0, 96.5),
        row("16/01/2024 15:20:00", 90.0, 90.5, 89.0, 89.5),
    ];
    let s = run(&rows);
    assert_eq!(s.trades.len(), 1);
    let t = &s.trades[0];
    assert_eq!(t.signal, -1);
    assert_eq!(t.entry_price, px(98.5));
    assert_eq!(t.exit_price, px(97.0));
    assert_eq!(t.gross_pnl, px(1.5));
    assert_eq!(t.net_pnl, px(1.5) * 10000 - px(1.5) * 12);
    assert!(t.exit_time.second >= t.entry_time.second);
}

#[test]
fn signals_before_window_do_not_enter() {
    let rows = vec![
        row("2024-01-17 09:25:00", 100.0, 101.0, 99.0, 100.5),
        row("2024-01-17 09:20:00", 100.5, 102.0, 100.0, 101.5),
        row("2024-01-17 15:15:00", 101.0, 101.0, 100.0, 100.5),
    ];
    let s = run(&rows);
    assert!(s.trades.is_empty());
}

#[test]
fn one_trade_per_date_in_date_order() {
    let rows = vec![
        row("2024-01-18 09:25:00", 100.0, 101.0, 99.0, 100.5),
        row("2024-01-18 09:30:00", 100.5, 102.0, 100.0, 101.5),
        row("2024-01-18 09:35:00", 101.5, 102.5, 101.0, 102.0),
        row("2024-01-18 15:15:00", 103.0, 103.5, 102.5, 103.2),
        row("2024-01-17 09:25:00", 100.0, 101.0, 99.0, 100.5),
        row("2024-01-17 10:00:00", 100.5, 102.0, 100.0, 101.5),
        row("2024-01-17 15:10:00", 99.0, 99.5, 98.5, 99.0),
        row("not a date", 1.0, 1.0, 1.0, 1.0),
    ];
    let s = run(&rows);
    assert_eq!(s.data.len(), 7);
    assert_eq!(s.trades.len(), 2);
    assert!(s.trades[0].date < s.trades[1].date);
    assert_eq!(s.trades[0].entry_price, px(101.5));
    assert_eq!(s.trades[0].exit_price, px(99.0));
    assert_eq!(s.trades[0].gross_pnl, px(-2.5));
    assert_eq!(s.trades[1].entry_price, px(101.5));
    assert_eq!(s.trades[1].exit_price, px(103.0));
    for t in &s.trades {
        assert!((t.entry_time.day, t.entry_time.second) <= (t.exit_time.day, t.exit_time.second));
    }
}

#[test]
fn metrics_of_known_trades() {
    let mut s = NiftyStrategy::new();
    s.trades = vec![trade(1, 100), trade(2, -300), trade(3, 0), trade(4, 50), trade(5, -20)];
    let m = s.calculate_performance_metrics();
    assert_eq!(
        m,
        PerformanceMetrics {
            total_pnl: -170,
            max_drawdown: -300,
            win_count: 2,
            loss_count: 2,
            win_total: 150,
            loss_total: -320,
            total_trades: 5,
        }
    );
    assert!(m.max_drawdown <= 0);
    assert!(m.win_count <= m.total_trades);
}

#[test]
fn metrics_of_only_winners_have_no_drawdown() {
    let mut s = NiftyStrategy::new();
    s.trades = vec![trade(1, 10), trade(2, 20)];
    let m = s.calculate_performance_metrics();
    assert_eq!(m.max_drawdown, 0);
    assert_eq!(m.win_count, 2);
    assert_eq!(m.total_pnl, 30);
}

#[test]
fn metrics_drawdown_counts_from_running_peak() {
    let mut s = NiftyStrategy::new();
    s.trades = vec![trade(1, -5), trade(2, 100), trade(3, -40), trade(4, -30), trade(5, 80)];
    let m = s.calculate_performance_metrics();
    assert_eq!(m.max_drawdown, -70);
}

#[test]
fn prepare_data_sorts_and_drops_unreadable_rows() {
    let rows = vec![
        row("2024-01-15 09:31:00", 2.0, 2.5, 1.5, 2.25),
        row("garbage", 9.0, 9.0, 9.0, 9.0),
        row("2024-01-15 09:30:00", 1.0, 3.0, 0.5, 1.75),
    ];
    let mut s = NiftyStrategy::new();
    s.prepare_data(&rows);
    assert_eq!(s.data.len(), 1);
    assert_eq!(s.data[0].open, px(1.0));
    assert_eq!(s.data[0].close, px(2.25));
    assert_eq!(s.data[0].high, px(3.0));
    assert_eq!(s.data[0].low, px(0.5));
    assert_eq!(s.data[0].volume, 20);
}

#[test]
fn day_without_signal_candle_keeps_its_classification() {
    let mut s = NiftyStrategy::new();
    let kept = Some(SignalCandle { kind: CandleKind::Bearish, value: px(50.0) });
    let mut a = bar(at(1, 9, 30, 0), 100.0, 101.0, 99.0, 100.5);
    a.candle = kept;
    let mut b = bar(at(2, 9, 25, 0), 100.0, 102.0, 99.5, 101.0);
    b.candle = kept;
    s.data = vec![a, b];
    s.identify_signal_candles();
    assert_eq!(s.data[0].candle, kept);
    assert_eq!(s.data[1].candle, Some(SignalCandle { kind: CandleKind::Bullish, value: px(102.0) }));
}

#[test]
fn equal_timestamps_keep_input_order() {
    let rows = vec![
        row("2024-01-15 09:31:00", 5.0, 6.0, 4.0, 5.5),
        row("2024-01-15 09:30:00", 1.0, 2.0, 0.5, 1.5),
        row("2024-01-15 09:31:00", 7.0, 8.0, 6.0, 7.5),
        row("2024-01-15 09:30:00", 3.0, 4.0, 2.5, 3.5),
    ];
    let mut s = NiftyStrategy::new();
    s.prepare_data(&rows);
    assert_eq!(s.data.len(), 1);
    assert_eq!(s.data[0].open, px(1.0));
    assert_eq!(s.data[0].close, px(7.5));
}
