//! Seasonal analysis of daily OHLC price observations.
//!
//! The library turns raw spreadsheet-like rows into chronologically ordered
//! rows carrying close-to-close change, calendar month, a per-year normalized
//! change score, a running per-month average of that score and a per-year
//! normalization of the average. Prices are fixed-point integers in
//! millionths of a unit, and a missing ("not a number") derived value is
//! `None`.

pub mod date;
pub mod numeric;
pub mod stats;
pub mod processor;
pub mod commands;
pub mod db;
pub mod laws;
pub mod export;
