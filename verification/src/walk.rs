//! The backfill walker: repeated paginated requests backward in time for
//! one instrument, until convergence. `walk_step` is the decision rule a
//! driver applies to each page outcome; `run_walk` runs the whole walk
//! against a finite history served page by page, and proves that a
//! converged walk has stored every candle of that history.
use vstd::prelude::*;
use crate::store::{Candle, Coverage, Store};

verus! {

/// The times of a history are strictly ascending (oldest first, no
/// duplicates).
pub open spec fn strictly_increasing(s: Seq<i64>) -> bool {
    forall|i: int, j: int| 0 <= i < j < s.len() ==> s[i] < s[j]
}

/// `t` occurs in `s`.
pub open spec fn contains_time(s: Seq<i64>, t: i64) -> bool {
    exists|i: int| 0 <= i < s.len() && s[i] == t
}

/// How many entries of `s` lie at or below `cursor`. For an ascending
/// history this is the index of the first entry beyond the cursor.
pub open spec fn cut_index(s: Seq<i64>, cursor: i64) -> int
    decreases s.len(),
{
    if s.len() == 0 {
        0
    } else if s.last() <= cursor {
        s.len() as int
    } else {
        cut_index(s.drop_last(), cursor)
    }
}

pub proof fn lemma_cut_index(s: Seq<i64>, cursor: i64)
    requires
        strictly_increasing(s),
    ensures
        0 <= cut_index(s, cursor) <= s.len(),
        forall|j: int| 0 <= j < cut_index(s, cursor) ==> s[j] <= cursor,
        forall|j: int| cut_index(s, cursor) <= j < s.len() ==> s[j] > cursor,
    decreases s.len(),
{
    if s.len() == 0 {
    } else if s.last() <= cursor {
        assert forall|j: int| 0 <= j < cut_index(s, cursor) implies s[j] <= cursor by {
            if j < s.len() - 1 {
                assert(s[j] < s[s.len() - 1]);
            }
        }
    } else {
        let d = s.drop_last();
        assert(strictly_increasing(d)) by {
            assert forall|i: int, j: int| 0 <= i < j < d.len() implies d[i] < d[j] by {
                assert(d[i] == s[i]);
                assert(d[j] == s[j]);
            }
        }
        lemma_cut_index(d, cursor);
        assert forall|j: int| 0 <= j < cut_index(s, cursor) implies s[j] <= cursor by {
            assert(d[j] == s[j]);
        }
        assert forall|j: int| cut_index(s, cursor) <= j < s.len() implies s[j] > cursor by {
            if j < s.len() - 1 {
                assert(d[j] == s[j]);
            }
        }
    }
}

/// One page of a finite ascending history, as the kline endpoint would
/// serve it: the newest `limit` times at or below `cursor`, newest first.
#[verifier::loop_isolation(false)]
pub fn page_of_history(history: &Vec<i64>, cursor: i64, limit: usize) -> (page: Vec<i64>)
    requires
        strictly_increasing(history@),
        1 <= limit,
    ensures
        page@.len() <= limit,
        ({
            let n = cut_index(history@, cursor);
            let k = if limit as int <= n {
                limit as int
            } else {
                n
            };
            &&& page@.len() == k
            &&& forall|i: int| 0 <= i < k ==> page@[i] == history@[n - 1 - i]
        }),
        // monotonic boundary: every served time lies at or below the cursor
        forall|i: int|
            0 <= i < page@.len() ==> page@[i] <= cursor && contains_time(history@, page@[i]),
        // newest first, strictly: the page minimum is its last entry
        forall|i: int, j: int| 0 <= i < j < page@.len() ==> page@[i] > page@[j],
        (page@.len() == 0 <==> (forall|j: int| 0 <= j < history@.len() ==> history@[j] > cursor)),
        forall|j: int| 0 <= j < cut_index(history@, cursor) ==> history@[j] <= cursor,
        forall|j: int| cut_index(history@, cursor) <= j < history@.len() ==> history@[j] > cursor,
        // no gaps: everything between the page minimum and the cursor is served
        forall|j: int|
            0 <= j < history@.len() && history@[j] <= cursor && page@.len() > 0 && history@[j]
                >= page@[page@.len() - 1] ==> contains_time(page@, history@[j]),
{
    let len = history.len();
    let mut n = len;
    while n > 0 && history[n - 1] > cursor
        invariant
            n <= len,
            forall|j: int| n <= j < len ==> history@[j] > cursor,
        decreases n,
    {
        n -= 1;
    }
    proof {
        lemma_cut_index(history@, cursor);
        let c = cut_index(history@, cursor);
        if (n as int) < c {
            assert(history@[n as int] > cursor);
            assert(history@[n as int] <= cursor);
        }
        if c < n as int {
            assert(history@[n as int - 1] > cursor);
            assert(history@[n as int - 1] <= cursor);
        }
        assert(n as int == c);
    }
    let k = if limit <= n {
        limit
    } else {
        n
    };
    let mut page: Vec<i64> = Vec::new();
    let mut i: usize = 0;
    while i < k
        invariant
            page@.len() == i,
            i <= k,
            forall|j: int| 0 <= j < i ==> page@[j] == history@[n - 1 - j],
        decreases k - i,
    {
        page.push(history[n - 1 - i]);
        i += 1;
    }
    proof {
        let h = history@;
        let c = cut_index(h, cursor);
        assert forall|i2: int|
            0 <= i2 < page@.len() implies page@[i2] <= cursor && contains_time(h, page@[i2]) by {
            assert(page@[i2] == h[c - 1 - i2]);
        }
        if page@.len() == 0 {
            assert(c == 0 || limit as int == 0);
            assert forall|j: int| 0 <= j < h.len() implies h[j] > cursor by {}
        } else {
            assert(h[c - 1] <= cursor);
        }
        if (forall|j: int| 0 <= j < h.len() ==> h[j] > cursor) && c > 0 {
            assert(h[0] <= cursor);
            assert(h[0] > cursor);
        }
        assert forall|j: int|
            0 <= j < h.len() && h[j] <= cursor && page@.len() > 0 && h[j] >= page@[page@.len()
                - 1] implies contains_time(page@, h[j]) by {
            let kk = page@.len() as int;
            assert(page@[kk - 1] == h[c - kk]);
            assert(j < c);
            if j < c - kk {
                assert(h[j] < h[c - kk]);
            }
            assert(c - kk <= j < c);
            assert(page@[c - 1 - j] == h[j]);
        }
    }
    page
}

/// What one page request produced, after ingestion: a failure, an empty
/// page, or a page whose minimum open time was `page_min`.
#[derive(Copy, Clone, Debug, PartialEq, Eq, Structural)]
pub enum PageOutcome {
    Failed,
    Empty,
    Data { page_min: i64 },
}

/// What the walker does next: abandon this instrument until the next outer
/// pass, stop because the walk converged, or request another page bounded
/// by `next_cursor`.
#[derive(Copy, Clone, Debug, PartialEq, Eq, Structural)]
pub enum WalkDecision {
    Abort,
    Converged,
    Continue { next_cursor: i64 },
}

/// The walker's transition rule. A failed request aborts the walk without
/// moving the cursor; an empty page means the earliest available history
/// was reached; a page that made no backward progress (its minimum equals
/// the cursor) means convergence; a page minimum inside the already-known
/// coverage snaps the cursor one tick below that coverage's minimum; any
/// other page moves the cursor to the page minimum.
pub open spec fn step_spec(cursor: i64, coverage: Coverage, outcome: PageOutcome) -> WalkDecision {
    match outcome {
        PageOutcome::Failed => WalkDecision::Abort,
        PageOutcome::Empty => WalkDecision::Converged,
        PageOutcome::Data { page_min } => {
            if page_min == cursor {
                WalkDecision::Converged
            } else if coverage.covers(page_min) {
                WalkDecision::Continue {
                    next_cursor: (coverage->Range_min - 1) as i64,
                }
            } else {
                WalkDecision::Continue { next_cursor: page_min }
            }
        },
    }
}

pub fn walk_step(cursor: i64, coverage: Coverage, outcome: PageOutcome) -> (d: WalkDecision)
    requires
        coverage.wf(),
    ensures
        d == step_spec(cursor, coverage, outcome),
        // the boundary only ever moves to an older time, past the page
        // minimum exactly when that minimum fell inside known coverage
        (match (outcome, d) {
            (PageOutcome::Data { page_min }, WalkDecision::Continue { next_cursor }) => {
                &&& next_cursor <= page_min
                &&& !coverage.covers(page_min) ==> next_cursor == page_min
            },
            _ => true,
        }),
{
    match outcome {
        PageOutcome::Failed => WalkDecision::Abort,
        PageOutcome::Empty => WalkDecision::Converged,
        PageOutcome::Data { page_min } => {
            if page_min == cursor {
                WalkDecision::Converged
            } else {
                match coverage {
                    Coverage::Range { min, max } => {
                        if min <= page_min && page_min <= max {
                            WalkDecision::Continue { next_cursor: min - 1 }
                        } else {
                            WalkDecision::Continue { next_cursor: page_min }
                        }
                    },
                    Coverage::Empty => WalkDecision::Continue { next_cursor: page_min },
                }
            }
        },
    }
}

/// Monotonic boundary law: a page whose times all lie at or below the
/// requesting cursor has its minimum at or below that cursor, and a
/// continued walk never moves the boundary above the page minimum; it
/// moves it strictly below the minimum only on the coverage snap.
pub proof fn lemma_monotonic_boundary(
    page: Seq<i64>,
    cursor: i64,
    pm: i64,
    coverage: Coverage,
    d: WalkDecision,
)
    requires
        coverage.wf(),
        page.len() > 0,
        forall|i: int| 0 <= i < page.len() ==> page[i] <= cursor,
        contains_time(page, pm),
        forall|i: int| 0 <= i < page.len() ==> pm <= page[i],
        d == step_spec(cursor, coverage, PageOutcome::Data { page_min: pm }),
    ensures
        pm <= cursor,
        (d matches WalkDecision::Continue { next_cursor } ==> next_cursor <= pm && next_cursor
            < cursor),
        (d matches WalkDecision::Continue { next_cursor } ==> (coverage.covers(pm) || next_cursor
            == pm)),
{
    let w = choose|i: int| 0 <= i < page.len() && page[i] == pm;
    assert(pm <= cursor);
}

/// Candles that carry the given open times, in order; the remaining fields
/// are empty. Used to feed the walk from a plain list of times.
#[verifier::loop_isolation(false)]
pub fn candles_at_times(times: &Vec<i64>) -> (rows: Vec<Candle>)
    ensures
        rows@.len() == times@.len(),
        forall|i: int| 0 <= i < times@.len() ==> (#[trigger] rows@[i]).open_time == times@[i],
{
    let mut rows: Vec<Candle> = Vec::new();
    let mut i: usize = 0;
    while i < times.len()
        invariant
            rows@.len() == i,
            i <= times@.len(),
            forall|j: int| 0 <= j < i ==> (#[trigger] rows@[j]).open_time == times@[j],
        decreases times@.len() - i,
    {
        rows.push(Candle::at_time(times[i]));
        i += 1;
    }
    rows
}

/// Coverage completeness law: a store that holds exactly the times of a
/// non-empty ascending history stores the history's earliest time, and
/// stores nothing older, so its minimum stored open time is that earliest
/// time.
pub proof fn lemma_earliest_stored(s: Store, id: u64, history: Seq<i64>)
    requires
        strictly_increasing(history),
        history.len() > 0,
        forall|t: i64| s.stored_time(id, t) <==> contains_time(history, t),
    ensures
        s.stored_time(id, history[0]),
        forall|t: i64| s.stored_time(id, t) ==> history[0] <= t,
{
    assert(contains_time(history, history[0]));
    assert forall|t: i64| s.stored_time(id, t) implies history[0] <= t by {
        assert(contains_time(history, t));
        let w = choose|w: int| 0 <= w < history.len() && #[trigger] history[w] == t;
        if w > 0 {
            assert(history[0] < history[w]);
        }
    }
}

/// How many of the first `upto` times of `h` are not stored for `id`: the
/// uncovered portion of the history.
pub open spec fn missing_count(s: Store, id: u64, h: Seq<i64>, upto: int) -> int
    decreases upto,
{
    if upto <= 0 {
        0
    } else {
        missing_count(s, id, h, upto - 1) + if s.stored_time(id, h[upto - 1]) {
            0int
        } else {
            1int
        }
    }
}

pub proof fn lemma_missing_count_bounds(s: Store, id: u64, h: Seq<i64>, upto: int)
    ensures
        0 <= missing_count(s, id, h, upto),
        upto >= 0 ==> missing_count(s, id, h, upto) <= upto,
    decreases upto,
{
    if upto > 0 {
        lemma_missing_count_bounds(s, id, h, upto - 1);
    }
}

pub proof fn lemma_missing_count_monotone(a: Store, b: Store, id: u64, h: Seq<i64>, upto: int)
    requires
        forall|t: i64| a.stored_time(id, t) ==> b.stored_time(id, t),
    ensures
        missing_count(b, id, h, upto) <= missing_count(a, id, h, upto),
    decreases upto,
{
    if upto > 0 {
        lemma_missing_count_monotone(a, b, id, h, upto - 1);
    }
}

pub proof fn lemma_missing_count_drops(
    a: Store,
    b: Store,
    id: u64,
    h: Seq<i64>,
    upto: int,
    jpm: int,
)
    requires
        forall|t: i64| a.stored_time(id, t) ==> b.stored_time(id, t),
        0 <= jpm < upto,
        !a.stored_time(id, h[jpm]),
        b.stored_time(id, h[jpm]),
    ensures
        missing_count(b, id, h, upto) <= missing_count(a, id, h, upto) - 1,
    decreases upto,
{
    if upto - 1 == jpm {
        lemma_missing_count_monotone(a, b, id, h, upto - 1);
    } else {
        lemma_missing_count_drops(a, b, id, h, upto - 1, jpm);
    }
}

/// One complete backfill walk for instrument `id` against a finite
/// ascending `history`, served `page_size` times per page. Requires that
/// whatever the store already holds for `id` came from this history and
/// that the known coverage has no gaps against it. Ensures the walk
/// converges with exactly the history's times stored for `id`, everything
/// else untouched, and previously stored rows keeping their first-written
/// values. The number of page requests is bounded by the uncovered part of
/// the history alone: at most one request per history time not yet stored,
/// plus one for the coverage snap and one to observe convergence; on an
/// instrument with no stored candles, a history of `k` candles with
/// `k <= page_size` costs at most two page requests (one when the history
/// is empty).
#[verifier::loop_isolation(false)]
pub fn run_walk(store: &mut Store, id: u64, history: &Vec<i64>, page_size: usize) -> (requests:
    u64)
    requires
        old(store).wf(),
        old(store).has_instrument(id),
        strictly_increasing(history@),
        forall|j: int| 0 <= j < history@.len() ==> history@[j] >= 0,
        2 <= page_size,
        forall|t: i64| old(store).stored_time(id, t) ==> contains_time(history@, t),
        forall|j: int|
            0 <= j < history@.len() && old(store).covered(id, history@[j]) ==> old(
                store,
            ).stored_time(id, history@[j]),
    ensures
        final(store).wf(),
        final(store).instruments@ == old(store).instruments@,
        // coverage completeness: exactly the history's times are stored
        forall|j: int| 0 <= j < history@.len() ==> final(store).stored_time(id, history@[j]),
        forall|t: i64| final(store).stored_time(id, t) <==> contains_time(history@, t),
        // other instruments untouched
        forall|id2: u64, t: i64|
            id2 != id ==> (final(store).stored_time(id2, t) <==> old(store).stored_time(id2, t)),
        // idempotence: rows present before the walk keep their values
        forall|id2: u64, t: i64|
            old(store).lookup(id2, t) is Some ==> final(store).lookup(id2, t) == old(store).lookup(
                id2,
                t,
            ),
        1 <= requests,
        // the stored row count never decreases
        final(store).candles@.len() >= old(store).candles@.len(),
        // an exhausted history is recognized by its first empty page
        history@.len() == 0 ==> requests == 1,
        // progress bound on a fresh instrument: the page holding the whole
        // uncovered history, plus one page to observe convergence
        ((forall|t: i64| !old(store).stored_time(id, t)) && 1 <= history@.len() <= page_size)
            ==> requests <= 2,
        // the walk is bounded by the uncovered history: one page per candle
        // not yet stored, one coverage snap, one page to observe convergence
        requests as int <= missing_count(*old(store), id, history@, history@.len() as int) + 2,
{
    let ghost h = history@;
    let ghost fresh = forall|t: i64| !old(store).stored_time(id, t);
    let cov = store.coverage(id);
    proof {
        match cov {
            Coverage::Empty => {},
            Coverage::Range { min, max } => {
                assert(old(store).stored_time(id, min));
                assert(contains_time(h, min));
                let w = choose|w: int| 0 <= w < h.len() && h[w] == min;
                assert(min >= 0);
                assert(min <= max);
            },
        }
        assert(cov.wf());
    }
    let mut cursor: i64 = i64::MAX;
    let mut requests: u64 = 0;
    let ghost mut snapped: bool = false;
    loop
        invariant
            store.wf(),
            store.has_instrument(id),
            store.instruments@ == old(store).instruments@,
            -1 <= cursor,
            requests as int <= 2 + (i64::MAX - cursor),
            forall|j: int| 0 <= j < h.len() && h[j] > cursor ==> store.stored_time(id, h[j]),
            forall|t: i64| store.stored_time(id, t) ==> contains_time(h, t),
            forall|t: i64| old(store).stored_time(id, t) ==> store.stored_time(id, t),
            forall|id2: u64, t: i64|
                id2 != id ==> (store.stored_time(id2, t) <==> old(store).stored_time(id2, t)),
            forall|id2: u64, t: i64|
                old(store).lookup(id2, t) is Some ==> store.lookup(id2, t) == old(store).lookup(
                    id2,
                    t,
                ),
            cov.wf(),
            (cov is Empty ==> forall|t: i64| !old(store).stored_time(id, t)),
            (cov matches Coverage::Range { min, max } ==> 0 <= min && (forall|j: int|
                0 <= j < h.len() && min <= h[j] <= max ==> store.stored_time(id, h[j]))),
            (fresh && 1 <= h.len() <= page_size ==> ((requests == 0 && cursor == i64::MAX) || (
            requests == 1 && cursor == h[0]))),
            (h.len() == 0 ==> requests == 0),
            fresh == (forall|t: i64| !old(store).stored_time(id, t)),
            store.candles@.len() >= old(store).candles@.len(),
            (requests as int <= missing_count(*old(store), id, h, h.len() as int) - missing_count(
                *store,
                id,
                h,
                h.len() as int,
            ) + (if snapped {
                1int
            } else {
                0int
            })),
            (snapped ==> (cov matches Coverage::Range { min, max } && cursor < min)),
            forall|t: i64|
                store.stored_time(id, t) && !old(store).stored_time(id, t) ==> t >= cursor,
        decreases cursor as int + 1,
    {
        let page = page_of_history(history, cursor, page_size);
        requests = requests + 1;
        if page.len() == 0 {
            proof {
                assert forall|j: int| 0 <= j < h.len() implies store.stored_time(id, h[j]) by {
                    assert(h[j] > cursor);
                }
                lemma_missing_count_bounds(*store, id, h, h.len() as int);
            }
            return requests;
        }
        let ghost n = cut_index(h, cursor);
        let ghost pagev = page@;
        let rows = candles_at_times(&page);
        let ghost rowsv = rows@;
        let ghost prev = *store;
        let pm_opt = store.ingest_page(id, rows);
        let pm = match pm_opt {
            Some(m) => m,
            None => {
                proof {
                    assert(false);
                }
                0
            },
        };
        proof {
            assert(rowsv.len() == pagev.len());
            assert forall|i: int| 0 <= i < pagev.len() implies (#[trigger] rowsv[i]).open_time
                == pagev[i] by {}
            // the page minimum is the page's last (oldest) entry
            let w = choose|i: int|
                0 <= i < rowsv.len() && (#[trigger] rowsv[i]).open_time == pm;
            assert(pagev[w] == pm);
            assert(rowsv[pagev.len() - 1].open_time >= pm);
            assert(pagev[pagev.len() - 1] >= pm);
            if w < pagev.len() - 1 {
                assert(pagev[w] > pagev[pagev.len() - 1]);
            }
            assert(pm == pagev[pagev.len() - 1]);
            assert(pm <= cursor);
            assert(contains_time(h, pm));
            // every page time is now stored
            assert forall|i: int| 0 <= i < pagev.len() implies store.stored_time(
                id,
                pagev[i],
            ) by {
                assert((#[trigger] rowsv[i]).open_time == pagev[i]);
                assert(exists|w2: int|
                    0 <= w2 < rowsv.len() && (#[trigger] rowsv[w2]).open_time == pagev[i]);
            }
        }
        let d = walk_step(cursor, cov, PageOutcome::Data { page_min: pm });
        match d {
            WalkDecision::Converged => {
                proof {
                    assert(pm == cursor);
                    if pagev.len() >= 2 {
                        assert(pagev[0] > pagev[1]);
                        assert(pagev[0] <= cursor);
                        assert(pagev[1] >= pm);
                        assert(false);
                    }
                    assert(pagev.len() == 1);
                    assert(n >= 1);
                    if n >= 2 {
                        assert(pagev.len() == if page_size as int <= n {
                            page_size as int
                        } else {
                            n
                        });
                        assert(false);
                    }
                    assert(n == 1);
                    assert(pagev[0] == h[0]);
                    assert forall|j: int| 0 <= j < h.len() implies store.stored_time(
                        id,
                        h[j],
                    ) by {
                        if h[j] <= cursor {
                            assert(j < n);
                            assert(store.stored_time(id, pagev[0]));
                        }
                    }
                    lemma_missing_count_bounds(prev, id, h, h.len() as int);
                    lemma_missing_count_monotone(prev, *store, id, h, h.len() as int);
                }
                return requests;
            },
            WalkDecision::Continue { next_cursor } => {
                proof {
                    assert(pm != cursor);
                    assert(pm < cursor);
                    // the new boundary keeps the walked region stored
                    assert forall|j: int|
                        0 <= j < h.len() && h[j] > next_cursor implies store.stored_time(
                        id,
                        h[j],
                    ) by {
                        if h[j] <= cursor {
                            if h[j] >= pm {
                                assert(contains_time(pagev, h[j]));
                                let w = choose|i: int|
                                    0 <= i < pagev.len() && pagev[i] == h[j];
                                assert(store.stored_time(id, pagev[w]));
                            } else {
                                // below the page minimum: only reachable on a snap,
                                // where the known coverage already stores it
                                assert(cov.covers(pm));
                                assert(cov matches Coverage::Range { min, max } && min <= h[j]
                                    <= max);
                            }
                        }
                    }
                    // request accounting: a snap happens at most once, and
                    // every other continued page stores a time that was
                    // missing before it
                    lemma_missing_count_monotone(prev, *store, id, h, h.len() as int);
                    if cov.covers(pm) {
                        if snapped {
                            assert(pm < cov->Range_min);
                            assert(false);
                        }
                        snapped = true;
                    } else {
                        assert(!old(store).stored_time(id, pm)) by {
                            if old(store).stored_time(id, pm) {
                                assert(cov matches Coverage::Range { min, max } && min <= pm
                                    <= max);
                            }
                        }
                        assert(!prev.stored_time(id, pm));
                        let jpm = choose|j: int| 0 <= j < h.len() && h[j] == pm;
                        assert(store.stored_time(id, h[jpm]));
                        lemma_missing_count_drops(prev, *store, id, h, h.len() as int, jpm);
                    }
                    // everything stored during this walk lies at or above
                    // the next boundary
                    assert forall|t: i64|
                        store.stored_time(id, t) && !old(store).stored_time(id, t) implies t
                        >= next_cursor by {
                        if !prev.stored_time(id, t) {
                            let w2 = choose|i: int|
                                0 <= i < rowsv.len() && (#[trigger] rowsv[i]).open_time == t;
                            assert(pagev[w2] == t);
                            assert(pagev[w2] >= pagev[pagev.len() - 1]);
                        }
                    }
                    if fresh && 1 <= h.len() <= page_size {
                        assert(cov is Empty);
                        if requests == 1 && cursor == i64::MAX {
                            // the first page held the whole history
                            if n < h.len() {
                                assert(h[n] > i64::MAX);
                            }
                            assert(n == h.len());
                            assert(pagev.len() == h.len());
                            assert(pm == pagev[pagev.len() - 1] == h[0]);
                            assert(next_cursor == h[0]);
                        } else {
                            // a second page repeats the boundary candle and the
                            // walk has already converged there
                            assert(requests == 2 && cursor == h[0]);
                            assert(0 < n);
                            if n >= 2 {
                                assert(h[1] <= cursor);
                                assert(h[0] < h[1]);
                            }
                            assert(n == 1);
                            assert(pagev.len() == 1);
                            assert(pm == h[0]);
                            assert(false);
                        }
                    }
                }
                cursor = next_cursor;
            },
            WalkDecision::Abort => {
                proof {
                    assert(false);
                }
                return requests;
            },
        }
    }
}

} // verus!
