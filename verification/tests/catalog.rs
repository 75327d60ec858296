use backfill::catalog::{parse_catalog, trading_symbols, CatalogEntry};
use backfill::store::Store;

fn entry(symbol: &str, status: &str) -> CatalogEntry {
    CatalogEntry { symbol: symbol.to_string(), status: status.to_string() }
}

#[test]
fn only_trading_entries_are_selected() {
    let entries = vec![
        entry("BTCUSDT", "TRADING"),
        entry("ETHUSDT", "BREAK"),
        entry("XRPUSDT", "TRADING"),
        entry("DOGEUSDT", "HALT"),
    ];
    let symbols = trading_symbols(&entries);
    assert_eq!(symbols, vec!["BTCUSDT".to_string(), "XRPUSDT".to_string()]);
}

#[test]
fn non_trading_entry_is_never_registered() {
    let entries = vec![entry("BTCUSDT", "TRADING"), entry("ETHUSDT", "BREAK")];
    let mut s = Store::new();
    for sym in trading_symbols(&entries) {
        s.register(sym.as_str());
    }
    assert_eq!(s.instrument_count(), 1);
    let mut again = Store::new();
    let id = again.register("BTCUSDT");
    assert_eq!(id, 1);
}

#[test]
fn parse_catalog_reads_symbols_and_statuses() {
    let body = r#"{"timezone":"UTC","symbols":[
        {"symbol":"BTCUSDT","status":"TRADING","baseAsset":"BTC"},
        {"symbol":"ETHUSDT","status":"BREAK","baseAsset":"ETH"}
    ]}"#;
    let entries = parse_catalog(body).expect("well-formed catalog");
    assert_eq!(entries.len(), 2);
    assert_eq!(entries[0].symbol, "BTCUSDT");
    assert_eq!(entries[0].status, "TRADING");
    assert_eq!(entries[1].symbol, "ETHUSDT");
    assert_eq!(entries[1].status, "BREAK");
    let symbols = trading_symbols(&entries);
    assert_eq!(symbols, vec!["BTCUSDT".to_string()]);
}

#[test]
fn parse_catalog_rejects_malformed_bodies() {
    assert!(parse_catalog("not json at all").is_none());
    assert!(parse_catalog("{\"other\":1}").is_none());
    assert!(parse_catalog("{\"symbols\":42}").is_none());
    assert!(parse_catalog("{\"symbols\":[{\"symbol\":\"BTCUSDT\"}]}").is_none());
}
