use backfill::store::{Candle, Coverage, Store};

fn candle(t: i64, open: &str) -> Candle {
    Candle {
        open_time: t,
        open: open.to_string(),
        high: "2".to_string(),
        low: "0.5".to_string(),
        close: "1.5".to_string(),
        volume: "10".to_string(),
        close_time: t + 59_999,
        quote_volume: "15".to_string(),
        trade_count: 3,
        taker_buy_base: "4".to_string(),
        taker_buy_quote: "6".to_string(),
    }
}

#[test]
fn candle_insert_is_idempotent() {
    let mut s = Store::new();
    let id = s.register("BTCUSDT");
    assert!(s.insert_candle(id, candle(100, "1.0")));
    assert!(!s.insert_candle(id, candle(100, "9.9")));
    assert_eq!(s.candle_count(), 1);
    let kept = s.get_candle(id, 100).expect("row must exist");
    assert_eq!(kept.open, "1.0");
    assert_eq!(kept.trade_count, 3);
}

#[test]
fn register_is_idempotent() {
    let mut s = Store::new();
    let a = s.register("BTCUSDT");
    let b = s.register("BTCUSDT");
    let c = s.register("BTCUSDT");
    assert_eq!(a, 1);
    assert_eq!(b, 1);
    assert_eq!(c, 1);
    assert_eq!(s.instrument_count(), 1);
    let d = s.register("ETHUSDT");
    assert_eq!(d, 2);
    assert_eq!(s.instrument_count(), 2);
}

#[test]
fn ingest_reports_page_minimum_and_skips_duplicates() {
    let mut s = Store::new();
    let id = s.register("BTCUSDT");
    assert!(s.insert_candle(id, candle(20, "first")));
    let pm = s.ingest_page(id, vec![candle(30, "x"), candle(10, "y"), candle(20, "z")]);
    assert_eq!(pm, Some(10));
    assert_eq!(s.candle_count(), 3);
    assert_eq!(s.get_candle(id, 20).expect("row").open, "first");
    assert_eq!(s.ingest_page(id, Vec::new()), None);
}

#[test]
fn coverage_tracks_min_and_max() {
    let mut s = Store::new();
    let id = s.register("BTCUSDT");
    assert_eq!(s.coverage(id), Coverage::Empty);
    s.insert_candle(id, candle(50, "a"));
    assert_eq!(s.coverage(id), Coverage::Range { min: 50, max: 50 });
    s.insert_candle(id, candle(5, "b"));
    s.insert_candle(id, candle(70, "c"));
    assert_eq!(s.coverage(id), Coverage::Range { min: 5, max: 70 });
    let other = s.register("ETHUSDT");
    assert_eq!(s.coverage(other), Coverage::Empty);
}
