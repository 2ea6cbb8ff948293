//! Intraday backtesting of an opening-range strategy on a single instrument.
//!
//! Prices are fixed-point integers with four decimal places, timestamps are a
//! day number with the seconds past midnight. The pipeline resamples ticks into
//! five-minute bars, classifies the 09:25 bar of each day, derives a signal per
//! bar, builds at most one trade per day and reduces the trades to statistics.

pub mod time;
pub mod bars;
pub mod signals;
pub mod trades;
pub mod metrics;
pub mod codec;
pub mod strategy;
