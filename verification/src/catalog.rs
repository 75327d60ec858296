//! The market catalog: parsing the exchange's instrument list and
//! filtering it to the instruments that are actively trading.
use vstd::prelude::*;

verus! {

/// One catalog entry: an instrument symbol and its trading status.
pub struct CatalogEntry {
    pub symbol: String,
    pub status: String,
}

/// What a catalog endpoint body parses to: the (symbol, status) pairs of
/// its `symbols` array, in order, or nothing when the body is not
/// well-formed in that shape. The value depends on the body text alone.
pub uninterp spec fn catalog_pairs_of(body: Seq<char>) -> Option<Seq<(Seq<char>, Seq<char>)>>;

/// Relies on serde_json (from_str::<Value>, Value::get, Value::as_array,
/// Value::as_str): reads the catalog document's `symbols` array into its
/// (symbol, status) pairs, None when the body is not in that shape. The
/// result is a function of the body text alone, named `catalog_pairs_of`.
#[verifier::external_body]
fn catalog_pairs(body: &str) -> (r: Option<Vec<(String, String)>>)
    ensures
        (r matches Some(v) ==> (catalog_pairs_of(body@) matches Some(ps)
            && v@.map_values(|p: (String, String)| (p.0@, p.1@)) == ps)),
        r is None <==> catalog_pairs_of(body@) is None,
{
    let doc: serde_json::Value = serde_json::from_str(body).ok()?;
    let arr = doc.get("symbols")?.as_array()?;
    arr.iter().map(
        |e| Some((e.get("symbol")?.as_str()?.to_owned(), e.get("status")?.as_str()?.to_owned())),
    ).collect()
}

/// Parses the catalog endpoint's response body: a JSON object whose
/// `symbols` array holds entries with `symbol` and `status` fields. The
/// returned entries are exactly the body's (symbol, status) pairs, in
/// order; the parse fails exactly when the body is not in that shape.
#[verifier::loop_isolation(false)]
pub fn parse_catalog(body: &str) -> (r: Option<Vec<CatalogEntry>>)
    ensures
        r is Some <==> catalog_pairs_of(body@) is Some,
        (r matches Some(es) ==> (catalog_pairs_of(body@) matches Some(ps)
            && es@.map_values(|e: CatalogEntry| (e.symbol@, e.status@)) == ps)),
{
    let pairs = match catalog_pairs(body) {
        Some(p) => p,
        None => {
            return None;
        },
    };
    let mut out: Vec<CatalogEntry> = Vec::new();
    let mut i: usize = 0;
    while i < pairs.len()
        invariant
            i <= pairs@.len(),
            out@.map_values(|e: CatalogEntry| (e.symbol@, e.status@)) =~= pairs@.map_values(
                |p: (String, String)| (p.0@, p.1@),
            ).take(i as int),
        decreases pairs@.len() - i,
    {
        let ghost before = out@;
        out.push(CatalogEntry { symbol: pairs[i].0.clone(), status: pairs[i].1.clone() });
        proof {
            assert(out@.map_values(|e: CatalogEntry| (e.symbol@, e.status@)) =~= before.map_values(
                |e: CatalogEntry| (e.symbol@, e.status@),
            ).push((pairs@[i as int].0@, pairs@[i as int].1@)));
        }
        i += 1;
    }
    proof {
        assert(pairs@.map_values(|p: (String, String)| (p.0@, p.1@)).take(pairs@.len() as int)
            =~= pairs@.map_values(|p: (String, String)| (p.0@, p.1@)));
    }
    Some(out)
}

/// The symbols of the entries whose status is exactly "TRADING", in
/// catalog order.
pub open spec fn trading_of(entries: Seq<CatalogEntry>) -> Seq<Seq<char>>
    decreases entries.len(),
{
    if entries.len() == 0 {
        Seq::empty()
    } else {
        let rest = trading_of(entries.drop_last());
        if entries.last().status@ == "TRADING"@ {
            rest.push(entries.last().symbol@)
        } else {
            rest
        }
    }
}

/// Some entry carries symbol `s` with status exactly "TRADING".
pub open spec fn from_trading_entry(entries: Seq<CatalogEntry>, s: Seq<char>) -> bool {
    exists|j: int|
        0 <= j < entries.len() && (#[trigger] entries[j]).status@ == "TRADING"@
            && entries[j].symbol@ == s
}

/// Status filtering law: every symbol the filter yields comes from an
/// entry whose status is exactly "TRADING"; an entry with any other status
/// contributes nothing.
pub proof fn lemma_trading_only(entries: Seq<CatalogEntry>)
    ensures
        forall|k: int|
            0 <= k < trading_of(entries).len() ==> from_trading_entry(
                entries,
                #[trigger] trading_of(entries)[k],
            ),
    decreases entries.len(),
{
    if entries.len() == 0 {
    } else {
        let d = entries.drop_last();
        lemma_trading_only(d);
        assert forall|k: int| 0 <= k < trading_of(entries).len() implies from_trading_entry(
            entries,
            #[trigger] trading_of(entries)[k],
        ) by {
            if k < trading_of(d).len() {
                assert(from_trading_entry(d, trading_of(d)[k]));
                let j = choose|j: int|
                    0 <= j < d.len() && (#[trigger] d[j]).status@ == "TRADING"@ && d[j].symbol@
                        == trading_of(d)[k];
                assert(entries[j].status@ == "TRADING"@);
                assert(entries[j].symbol@ == trading_of(entries)[k]);
            } else {
                let j = entries.len() - 1;
                assert(entries[j].status@ == "TRADING"@);
                assert(entries[j].symbol@ == trading_of(entries)[k]);
            }
        }
    }
}

/// The symbols to register this pass: the catalog filtered to status
/// "TRADING", in catalog order.
#[verifier::loop_isolation(false)]
pub fn trading_symbols(entries: &Vec<CatalogEntry>) -> (r: Vec<String>)
    ensures
        r@.map_values(|s: String| s@) == trading_of(entries@),
{
    let trading: String = "TRADING".to_owned();
    let mut r: Vec<String> = Vec::new();
    let mut i: usize = 0;
    while i < entries.len()
        invariant
            i <= entries@.len(),
            trading@ == "TRADING"@,
            r@.map_values(|s: String| s@) =~= trading_of(entries@.take(i as int)),
        decreases entries@.len() - i,
    {
        proof {
            assert(entries@.take(i as int + 1).drop_last() =~= entries@.take(i as int));
            assert(entries@.take(i as int + 1).last() == entries@[i as int]);
        }
        let ghost before = r@;
        if entries[i].status == trading {
            r.push(entries[i].symbol.clone());
            proof {
                assert(r@.map_values(|s: String| s@) =~= before.map_values(
                    |s: String| s@,
                ).push(entries@[i as int].symbol@));
            }
        }
        i += 1;
    }
    proof {
        assert(entries@.take(entries@.len() as int) =~= entries@);
    }
    r
}

} // verus!
