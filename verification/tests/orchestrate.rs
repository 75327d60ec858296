use backfill::catalog::CatalogEntry;
use backfill::orchestrate::{pass_entry, run_pass};
use backfill::store::{Coverage, Store};

fn entry(symbol: &str, status: &str) -> CatalogEntry {
    CatalogEntry { symbol: symbol.to_string(), status: status.to_string() }
}

#[test]
fn a_pass_registers_and_walks_only_trading_entries() {
    let mut s = Store::new();
    let entries = vec![entry("BTCUSDT", "TRADING"), entry("ETHUSDT", "BREAK")];
    let histories = vec![vec![60000, 120000], vec![777]];
    run_pass(&mut s, &entries, &histories, 1000);
    // only BTCUSDT becomes an instrument, and only its history is stored
    assert_eq!(s.instrument_count(), 1);
    let id = s.register("BTCUSDT");
    assert_eq!(id, 1);
    assert_eq!(s.candle_count(), 2);
    assert_eq!(s.coverage(id), Coverage::Range { min: 60000, max: 120000 });
}

#[test]
fn repeated_passes_are_idempotent() {
    let mut s = Store::new();
    let entries = vec![entry("BTCUSDT", "TRADING"), entry("XRPUSDT", "TRADING")];
    let histories = vec![vec![10, 20], vec![5]];
    run_pass(&mut s, &entries, &histories, 1000);
    run_pass(&mut s, &entries, &histories, 1000);
    assert_eq!(s.instrument_count(), 2);
    assert_eq!(s.candle_count(), 3);
}

#[test]
fn a_pass_picks_up_new_candles() {
    let mut s = Store::new();
    let entries = vec![entry("BTCUSDT", "TRADING")];
    run_pass(&mut s, &entries, &vec![vec![10, 20]], 1000);
    assert_eq!(s.candle_count(), 2);
    // the next pass sees a longer history: newly produced candles
    run_pass(&mut s, &entries, &vec![vec![10, 20, 30, 40]], 1000);
    assert_eq!(s.candle_count(), 4);
    let id = s.register("BTCUSDT");
    assert_eq!(s.coverage(id), Coverage::Range { min: 10, max: 40 });
}

#[test]
fn a_skipped_entry_changes_nothing() {
    let mut s = Store::new();
    pass_entry(&mut s, &entry("ETHUSDT", "BREAK"), &vec![1, 2, 3], 1000);
    assert_eq!(s.instrument_count(), 0);
    assert_eq!(s.candle_count(), 0);
}
