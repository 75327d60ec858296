use backfill::market::BinanceType;

#[test]
fn future_urls() {
    let bt = BinanceType::Future;
    assert_eq!(bt.url(), "https://fapi.binance.com/fapi/v1");
    assert_eq!(bt.exchange_info(), "https://fapi.binance.com/fapi/v1/exchangeInfo");
    assert_eq!(bt.klines(), "https://fapi.binance.com/fapi/v1/klines");
    assert_eq!(bt.db_path("/data"), "/data/future.db");
}

#[test]
fn spot_urls() {
    let bt = BinanceType::Spot;
    assert_eq!(bt.url(), "https://api.binance.com/api/v3");
    assert_eq!(bt.exchange_info(), "https://api.binance.com/api/v3/exchangeInfo");
    assert_eq!(bt.klines(), "https://api.binance.com/api/v3/klines");
    assert_eq!(bt.db_path("/tmp/db"), "/tmp/db/v2.db");
}
