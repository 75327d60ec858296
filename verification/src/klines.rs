//! Kline page parsing: turning the candle endpoint's JSON rows into
//! `Candle` values, skipping malformed rows, and reporting a page's
//! minimum open time.
use vstd::prelude::*;
use crate::store::{Candle, CandleData};

verus! {

#[verifier::external_type_specification]
#[verifier::external_body]
pub struct ExValue(serde_json::Value);

/// What a kline endpoint body parses to: one entry per row of its array,
/// the row's content when the row is well-formed and nothing when the row's
/// positional fields are missing or ill-typed; or nothing at all when the
/// body is not a JSON array. The value depends on the body text alone.
pub uninterp spec fn kline_rows_of(body: Seq<char>) -> Option<Seq<Option<CandleData>>>;

/// The content of one parsed row, nothing for a malformed one.
pub open spec fn row_data(c: Option<Candle>) -> Option<CandleData> {
    match c {
        Some(c) => Some(c.data()),
        None => None,
    }
}

/// The well-formed rows of a parsed page, in order.
pub open spec fn well_formed_rows(rs: Seq<Option<CandleData>>) -> Seq<CandleData>
    decreases rs.len(),
{
    if rs.len() == 0 {
        Seq::empty()
    } else {
        let rest = well_formed_rows(rs.drop_last());
        match rs.last() {
            Some(c) => rest.push(c),
            None => rest,
        }
    }
}

/// How many rows of a parsed page are malformed.
pub open spec fn malformed_count(rs: Seq<Option<CandleData>>) -> int
    decreases rs.len(),
{
    if rs.len() == 0 {
        0
    } else {
        malformed_count(rs.drop_last()) + if rs.last() is None {
            1int
        } else {
            0int
        }
    }
}

/// Relies on serde_json (from_str::<Value>, Value::as_array, Value::as_i64,
/// Value::as_str): reads a kline document, an array of rows, each itself an
/// array of positional fields (open time, five decimal texts, close time,
/// quote volume, trade count, two taker volumes). A row whose fields are
/// missing or ill-typed becomes None; a body that is not an array fails as
/// a whole. The result is a function of the body text alone, named
/// `kline_rows_of`.
#[verifier::external_body]
fn kline_raw_rows(body: &str) -> (r: Option<Vec<Option<Candle>>>)
    ensures
        (r matches Some(v) ==> (kline_rows_of(body@) matches Some(rs)
            && v@.map_values(|c: Option<Candle>| row_data(c)) == rs)),
        r is None <==> kline_rows_of(body@) is None,
{
    let doc: serde_json::Value = serde_json::from_str(body).ok()?;
    Some(doc.as_array()?.iter().map(row_candle).collect())
}

/// Relies on serde_json (Value::as_array, Value::as_i64, Value::as_str):
/// extracts one row's positional fields, None when any is missing or
/// ill-typed.
#[verifier::external_body]
fn row_candle(r: &serde_json::Value) -> (c: Option<Candle>) {
    match r.as_array()?.as_slice() {
        [t, o, h, l, c, w, u, q, n, a, b, ..] => Some(Candle {
            open_time: t.as_i64()?, open: o.as_str()?.into(),
            high: h.as_str()?.into(), low: l.as_str()?.into(),
            close: c.as_str()?.into(), volume: w.as_str()?.into(),
            close_time: u.as_i64()?, quote_volume: q.as_str()?.into(),
            trade_count: n.as_i64()?, taker_buy_base: a.as_str()?.into(),
            taker_buy_quote: b.as_str()?.into(),
        }),
        _ => None,
    }
}

/// Parses a kline endpoint response body: a JSON array of rows. The
/// returned candles are exactly the body's well-formed rows, in order, and
/// the second component counts exactly its malformed rows, which are
/// skipped rather than failing the page; the parse fails exactly when the
/// body is not a JSON array.
#[verifier::loop_isolation(false)]
pub fn parse_kline_page(body: &str) -> (r: Option<(Vec<Candle>, usize)>)
    ensures
        r is Some <==> kline_rows_of(body@) is Some,
        (r matches Some(p) ==> (kline_rows_of(body@) matches Some(rs) && {
            &&& p.0@.map_values(|c: Candle| c.data()) == well_formed_rows(rs)
            &&& p.1 as int == malformed_count(rs)
        })),
{
    let parsed = match kline_raw_rows(body) {
        Some(v) => v,
        None => {
            return None;
        },
    };
    let ghost all = parsed@;
    let ghost rs = all.map_values(|c: Option<Candle>| row_data(c));
    let mut parsed = parsed;
    let mut rows: Vec<Candle> = Vec::new();
    let mut skipped: usize = 0;
    let mut i: usize = 0;
    let n = parsed.len();
    while i < n
        invariant
            n == all.len(),
            i <= n,
            skipped <= i,
            parsed@ == all.skip(i as int),
            rs == all.map_values(|c: Option<Candle>| row_data(c)),
            rows@.map_values(|c: Candle| c.data()) =~= well_formed_rows(rs.take(i as int)),
            skipped as int == malformed_count(rs.take(i as int)),
        decreases n - i,
    {
        let c = parsed.remove(0);
        proof {
            assert(c == all[i as int]);
            assert(parsed@ =~= all.skip(i as int + 1));
            assert(rs.take(i as int + 1).drop_last() =~= rs.take(i as int));
            assert(rs.take(i as int + 1).last() == rs[i as int]);
            assert(rs[i as int] == row_data(all[i as int]));
        }
        let ghost before = rows@;
        match c {
            Some(cand) => {
                rows.push(cand);
                proof {
                    assert(rows@.map_values(|c2: Candle| c2.data()) =~= before.map_values(
                        |c2: Candle| c2.data(),
                    ).push(cand.data()));
                }
            },
            None => {
                skipped = skipped + 1;
            },
        }
        i += 1;
    }
    proof {
        assert(rs.take(n as int) =~= rs);
    }
    Some((rows, skipped))
}

/// The minimum open time observed in a parsed page, None for an empty
/// page.
#[verifier::loop_isolation(false)]
pub fn page_min(rows: &Vec<Candle>) -> (r: Option<i64>)
    ensures
        r is Some <==> rows@.len() > 0,
        (r matches Some(m) ==> (exists|i: int|
            0 <= i < rows@.len() && (#[trigger] rows@[i]).open_time == m) && (forall|i: int|
            0 <= i < rows@.len() ==> m <= (#[trigger] rows@[i]).open_time)),
{
    let mut r: Option<i64> = None;
    let mut i: usize = 0;
    while i < rows.len()
        invariant
            i <= rows@.len(),
            r is Some <==> i > 0,
            (r matches Some(m) ==> (exists|j: int|
                0 <= j < i && (#[trigger] rows@[j]).open_time == m) && (forall|j: int|
                0 <= j < i ==> m <= (#[trigger] rows@[j]).open_time)),
        decreases rows@.len() - i,
    {
        let t = rows[i].open_time;
        r = match r {
            None => Some(t),
            Some(m) => if t < m {
                Some(t)
            } else {
                Some(m)
            },
        };
        i += 1;
    }
    r
}

} // verus!
