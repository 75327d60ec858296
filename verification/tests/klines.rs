use backfill::klines::{page_min, parse_kline_page};

const ONE_ROW: &str = r#"[[1499040000000,"0.01634790","0.80000000","0.01575800","0.01577100","148976.11427815",1499644799999,"2434.19055334",308,"1756.87402397","28.46694368","17928899.62484339"]]"#;

#[test]
fn parse_kline_page_reads_positional_fields() {
    let (rows, skipped) = parse_kline_page(ONE_ROW).expect("well-formed page");
    assert_eq!(skipped, 0);
    assert_eq!(rows.len(), 1);
    let c = &rows[0];
    assert_eq!(c.open_time, 1499040000000);
    assert_eq!(c.open, "0.01634790");
    assert_eq!(c.high, "0.80000000");
    assert_eq!(c.low, "0.01575800");
    assert_eq!(c.close, "0.01577100");
    assert_eq!(c.volume, "148976.11427815");
    assert_eq!(c.close_time, 1499644799999);
    assert_eq!(c.quote_volume, "2434.19055334");
    assert_eq!(c.trade_count, 308);
    assert_eq!(c.taker_buy_base, "1756.87402397");
    assert_eq!(c.taker_buy_quote, "28.46694368");
}

#[test]
fn malformed_rows_are_skipped_not_fatal() {
    let body = r#"[[1,2],[60000,"1","1","1","1","1",119999,"1",7,"1","1","0"]]"#;
    let (rows, skipped) = parse_kline_page(body).expect("array body");
    assert_eq!(skipped, 1);
    assert_eq!(rows.len(), 1);
    assert_eq!(rows[0].open_time, 60000);
    assert_eq!(rows[0].trade_count, 7);
}

#[test]
fn ill_typed_rows_are_skipped_not_fatal() {
    // one row that is not an array, one with a string where a number
    // belongs, one well-formed
    let body = r#"[5,["x","1","1","1","1","1",119999,"1",7,"1","1","0"],[60000,"1","1","1","1","1",119999,"1",7,"1","1","0"]]"#;
    let (rows, skipped) = parse_kline_page(body).expect("array body");
    assert_eq!(skipped, 2);
    assert_eq!(rows.len(), 1);
    assert_eq!(rows[0].open_time, 60000);
}

#[test]
fn non_array_bodies_fail() {
    assert!(parse_kline_page("{\"code\":-1121}").is_none());
    assert!(parse_kline_page("garbage").is_none());
}

#[test]
fn empty_page_parses_with_no_rows() {
    let (rows, skipped) = parse_kline_page("[]").expect("empty array");
    assert_eq!(skipped, 0);
    assert!(rows.is_empty());
    assert_eq!(page_min(&rows), None);
}

#[test]
fn page_min_is_the_smallest_open_time() {
    let body = r#"[
        [180000,"1","1","1","1","1",239999,"1",1,"1","1","0"],
        [60000,"1","1","1","1","1",119999,"1",1,"1","1","0"],
        [120000,"1","1","1","1","1",179999,"1",1,"1","1","0"]
    ]"#;
    let (rows, _) = parse_kline_page(body).expect("array body");
    assert_eq!(page_min(&rows), Some(60000));
}
