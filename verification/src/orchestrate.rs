//! The orchestrator's verified core: one pass over a refreshed catalog,
//! registering every actively-trading instrument and walking each one to
//! convergence against its history.
use vstd::prelude::*;
use crate::catalog::CatalogEntry;
use crate::store::Store;
use crate::walk::{contains_time, run_walk, strictly_increasing};

verus! {

/// Entry `i` of the catalog is actively trading.
pub open spec fn is_trading(entries: Seq<CatalogEntry>, i: int) -> bool {
    entries[i].status@ == "TRADING"@
}

/// Handles one catalog entry: an entry that is not trading is skipped
/// entirely; a trading entry is registered (idempotently) and its backfill
/// walk is run to convergence against `history`. Candles stored under any
/// other symbol are untouched, and rows stored before the call keep their
/// first-written values.
pub fn pass_entry(store: &mut Store, entry: &CatalogEntry, history: &Vec<i64>, page_size: usize)
    requires
        old(store).wf(),
        old(store).instruments@.len() < u64::MAX,
        2 <= page_size,
        strictly_increasing(history@),
        forall|j: int| 0 <= j < history@.len() ==> history@[j] >= 0,
        forall|t: i64|
            entry.status@ == "TRADING"@ && #[trigger] old(store).stored_sym(entry.symbol@, t)
                ==> contains_time(history@, t),
        forall|j: int|
            0 <= j < history@.len() && entry.status@ == "TRADING"@ && old(store).covered_sym(
                entry.symbol@,
                #[trigger] history@[j],
            ) ==> old(store).stored_sym(entry.symbol@, history@[j]),
    ensures
        final(store).wf(),
        final(store).instruments@.len() >= old(store).instruments@.len(),
        final(store).instruments@.len() <= old(store).instruments@.len() + 1,
        forall|k: int|
            0 <= k < old(store).instruments@.len() ==> final(store).instruments@[k] == old(
                store,
            ).instruments@[k],
        forall|s: Seq<char>|
            final(store).has_symbol(s) <==> old(store).has_symbol(s) || (entry.status@
                == "TRADING"@ && s == entry.symbol@),
        entry.status@ == "TRADING"@ ==> (forall|t: i64|
            #[trigger] final(store).stored_sym(entry.symbol@, t) <==> contains_time(history@, t)),
        forall|s: Seq<char>, t: i64|
            (entry.status@ != "TRADING"@ || s != entry.symbol@) ==> (#[trigger] final(store).stored_sym(s, t) <==> old(store).stored_sym(s, t)),
        forall|id2: u64, t: i64|
            old(store).lookup(id2, t) is Some ==> final(store).lookup(id2, t) == old(store).lookup(
                id2,
                t,
            ),
        final(store).candles@.len() >= old(store).candles@.len(),
{
    let trading: String = "TRADING".to_owned();
    if !(entry.status == trading) {
        return;
    }
    let ghost pre = *store;
    let id = store.register(entry.symbol.as_str());
    let ghost mid = *store;
    let ghost k_id = id as int - 1;
    proof {
        assert(mid.instruments@[k_id].symbol@ == entry.symbol@);
        if pre.has_symbol(entry.symbol@) {
            assert(mid == pre);
        } else {
            // a freshly assigned id has no candles: every stored row
            // references a previously assigned id
            assert forall|t: i64| !mid.stored_time(id, t) by {
                if mid.stored_time(id, t) {
                    let w = choose|w: int|
                        0 <= w < mid.candles@.len() && (#[trigger] mid.candles@[w]).0 == id
                            && mid.candles@[w].1.open_time == t;
                    assert(pre.candles@[w].0 as int <= pre.instruments@.len());
                    assert(false);
                }
            }
        }
        mid.lemma_sym_unique(entry.symbol@, k_id);
        // the walk's source-consistency requirement
        assert forall|t: i64| mid.stored_time(id, t) implies contains_time(history@, t) by {
            assert(mid.stored_sym(entry.symbol@, t));
            if pre.has_symbol(entry.symbol@) {
                assert(pre.stored_sym(entry.symbol@, t));
            }
        }
        // the walk's coverage-contiguity requirement
        assert forall|j: int|
            0 <= j < history@.len() && mid.covered(id, history@[j]) implies mid.stored_time(
            id,
            history@[j],
        ) by {
            if pre.has_symbol(entry.symbol@) {
                assert(mid.covered_sym(entry.symbol@, history@[j]));
                assert(pre.stored_sym(entry.symbol@, history@[j]));
                assert(mid.stored_sym(entry.symbol@, history@[j]));
            } else {
                let (t1, t2) = choose|t1: i64, t2: i64|
                    #[trigger] mid.stored_time(id, t1) && #[trigger] mid.stored_time(id, t2) && t1
                        <= history@[j] && history@[j] <= t2;
                assert(false);
            }
        }
    }
    let _requests: u64 = run_walk(store, id, history, page_size);
    proof {
        store.lemma_sym_unique(entry.symbol@, k_id);
        // completeness at symbol level
        assert forall|t: i64|
            #[trigger] store.stored_sym(entry.symbol@, t) <==> contains_time(history@, t) by {}
        // candles under any other symbol are untouched
        assert forall|s: Seq<char>, t: i64|
            (entry.status@ != "TRADING"@ || s != entry.symbol@) implies (
        #[trigger] store.stored_sym(s, t) <==> pre.stored_sym(s, t)) by {
            if store.stored_sym(s, t) {
                let k = choose|k: int|
                    0 <= k < store.instruments@.len() && (#[trigger] store.instruments@[k]).symbol@
                        == s && store.stored_time((k + 1) as u64, t);
                assert(k != k_id);
                assert(k < pre.instruments@.len());
                assert(pre.instruments@[k].symbol@ == s);
                assert((k + 1) as u64 != id);
                assert(mid.stored_time((k + 1) as u64, t));
                assert(pre.stored_time((k + 1) as u64, t));
                assert(pre.stored_sym(s, t));
            }
            if pre.stored_sym(s, t) {
                let k = choose|k: int|
                    0 <= k < pre.instruments@.len() && (#[trigger] pre.instruments@[k]).symbol@
                        == s && pre.stored_time((k + 1) as u64, t);
                assert(store.instruments@[k].symbol@ == s);
                assert(k != k_id);
                assert((k + 1) as u64 != id);
                assert(store.stored_time((k + 1) as u64, t));
                assert(store.stored_sym(s, t));
            }
        }
    }
}

/// One orchestrator pass for a market type, against fixed inputs: for each
/// catalog entry in order, register it if it is trading and walk its
/// history (`histories[i]` belongs to `entries[i]`). Afterward exactly the
/// trading symbols have been added to the registry, each trading entry's
/// instrument stores exactly its history's times, and every row stored
/// before the pass keeps its first-written values.
#[verifier::loop_isolation(false)]
pub fn run_pass(
    store: &mut Store,
    entries: &Vec<CatalogEntry>,
    histories: &Vec<Vec<i64>>,
    page_size: usize,
)
    requires
        old(store).wf(),
        2 <= page_size,
        histories@.len() == entries@.len(),
        old(store).instruments@.len() + entries@.len() < u64::MAX,
        forall|i: int| 0 <= i < entries@.len() ==> strictly_increasing(#[trigger] histories@[i]@),
        forall|i: int, j: int|
            0 <= i < entries@.len() && 0 <= j < histories@[i]@.len() ==> #[trigger] histories@[i]@[j]
                >= 0,
        // trading symbols are pairwise distinct in the catalog
        forall|i: int, j: int|
            0 <= i < j < entries@.len() && is_trading(entries@, i) && is_trading(entries@, j)
                ==> (#[trigger] entries@[i]).symbol@ != (#[trigger] entries@[j]).symbol@,
        // whatever is already stored under a trading symbol came from its history
        forall|i: int, t: i64|
            0 <= i < entries@.len() && is_trading(entries@, i) && #[trigger] old(store).stored_sym(
                entries@[i].symbol@,
                t,
            ) ==> contains_time(histories@[i]@, t),
        // and the known coverage has no gaps against that history
        forall|i: int, j: int|
            0 <= i < entries@.len() && is_trading(entries@, i) && 0 <= j < histories@[i]@.len()
                && old(store).covered_sym(
                (#[trigger] entries@[i]).symbol@,
                #[trigger] histories@[i]@[j],
            ) ==> old(store).stored_sym(entries@[i].symbol@, histories@[i]@[j]),
    ensures
        final(store).wf(),
        // registration is exact: the trading symbols and nothing else join
        forall|s: Seq<char>|
            final(store).has_symbol(s) <==> old(store).has_symbol(s) || (exists|i: int|
                0 <= i < entries@.len() && is_trading(entries@, i) && (#[trigger] entries@[i]).symbol@
                    == s),
        // ids are stable across passes
        final(store).instruments@.len() >= old(store).instruments@.len(),
        forall|k: int|
            0 <= k < old(store).instruments@.len() ==> final(store).instruments@[k] == old(
                store,
            ).instruments@[k],
        // each trading entry converged against its history
        forall|i: int, t: i64|
            0 <= i < entries@.len() && is_trading(entries@, i) ==> (#[trigger] final(store).stored_sym(entries@[i].symbol@, t) <==> contains_time(histories@[i]@, t)),
        // idempotence across the pass
        forall|id2: u64, t: i64|
            old(store).lookup(id2, t) is Some ==> final(store).lookup(id2, t) == old(store).lookup(
                id2,
                t,
            ),
        final(store).candles@.len() >= old(store).candles@.len(),
{
    let mut i: usize = 0;
    while i < entries.len()
        invariant
            i <= entries@.len(),
            store.wf(),
            store.instruments@.len() >= old(store).instruments@.len(),
            store.instruments@.len() <= old(store).instruments@.len() + i,
            forall|k: int|
                0 <= k < old(store).instruments@.len() ==> store.instruments@[k] == old(
                    store,
                ).instruments@[k],
            forall|s: Seq<char>|
                store.has_symbol(s) <==> old(store).has_symbol(s) || (exists|j: int|
                    0 <= j < i && is_trading(entries@, j) && (#[trigger] entries@[j]).symbol@ == s),
            forall|j: int, t: i64|
                0 <= j < i && is_trading(entries@, j) ==> (#[trigger] store.stored_sym(
                    entries@[j].symbol@,
                    t,
                ) <==> contains_time(histories@[j]@, t)),
            forall|j: int, t: i64|
                i <= j < entries@.len() && is_trading(entries@, j) ==> (#[trigger] store.stored_sym(
                    entries@[j].symbol@,
                    t,
                ) <==> old(store).stored_sym(entries@[j].symbol@, t)),
            forall|id2: u64, t: i64|
                old(store).lookup(id2, t) is Some ==> store.lookup(id2, t) == old(store).lookup(
                    id2,
                    t,
                ),
            store.candles@.len() >= old(store).candles@.len(),
        decreases entries@.len() - i,
    {
        let ghost at_head = *store;
        proof {
            if is_trading(entries@, i as int) {
                // the per-entry requirements still hold at this point
                assert forall|t: i64|
                    #[trigger] store.stored_sym(entries@[i as int].symbol@, t) implies contains_time(
                    histories@[i as int]@,
                    t,
                ) by {}
                at_head.lemma_covered_sym_eq(*old(store), entries@[i as int].symbol@);
            }
        }
        pass_entry(store, &entries[i], &histories[i], page_size);
        proof {
            let sym = entries@[i as int].symbol@;
            let tr = is_trading(entries@, i as int);
            // registration bookkeeping
            assert forall|s: Seq<char>|
                store.has_symbol(s) <==> old(store).has_symbol(s) || (exists|j: int|
                    0 <= j < i + 1 && is_trading(entries@, j) && (#[trigger] entries@[j]).symbol@
                        == s) by {
                if store.has_symbol(s) {
                    if !at_head.has_symbol(s) {
                        assert(tr && s == sym);
                        assert(entries@[i as int].symbol@ == s);
                    }
                }
                if exists|j: int|
                    0 <= j < i + 1 && is_trading(entries@, j) && (#[trigger] entries@[j]).symbol@
                        == s {
                    let j = choose|j: int|
                        0 <= j < i + 1 && is_trading(entries@, j) && (#[trigger] entries@[j]).symbol@
                            == s;
                    if j < i {
                        assert(at_head.has_symbol(s));
                    } else {
                        assert(tr && s == sym);
                    }
                }
            }
            // completeness survives for earlier trading entries, and later
            // trading entries stay untouched
            assert forall|j: int, t: i64|
                0 <= j < i + 1 && is_trading(entries@, j) implies (#[trigger] store.stored_sym(
                    entries@[j].symbol@,
                    t,
                ) <==> contains_time(histories@[j]@, t)) by {
                if j < i {
                    assert(entries@[j].symbol@ != sym || !tr);
                    if tr {
                        assert(store.stored_sym(entries@[j].symbol@, t) <==> at_head.stored_sym(
                            entries@[j].symbol@,
                            t,
                        ));
                    } else {
                        assert(store.stored_sym(entries@[j].symbol@, t) <==> at_head.stored_sym(
                            entries@[j].symbol@,
                            t,
                        ));
                    }
                } else {
                    assert(tr);
                }
            }
            assert forall|j: int, t: i64|
                i + 1 <= j < entries@.len() && is_trading(entries@, j) implies (
            #[trigger] store.stored_sym(entries@[j].symbol@, t) <==> old(store).stored_sym(
                entries@[j].symbol@,
                t,
            )) by {
                if tr {
                    assert(entries@[j].symbol@ != sym);
                }
                assert(store.stored_sym(entries@[j].symbol@, t) <==> at_head.stored_sym(
                    entries@[j].symbol@,
                    t,
                ));
            }
        }
        i += 1;
    }
}

} // verus!
