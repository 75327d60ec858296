//! Verified core of a candlestick backfill pipeline: a market catalog
//! filter, an idempotent instrument/candle store model, and the paginated
//! backward walk that decides how far back to request next and when an
//! instrument's history is fully covered.
pub mod catalog;
pub mod klines;
pub mod market;
pub mod orchestrate;
pub mod store;
pub mod walk;
