use backfill::store::{Candle, Coverage, Store};
use backfill::walk::{page_of_history, run_walk, walk_step, PageOutcome, WalkDecision};

#[test]
fn pages_serve_newest_first_below_the_cursor() {
    let history = vec![1, 5, 9];
    assert_eq!(page_of_history(&history, 5, 2), vec![5, 1]);
    assert_eq!(page_of_history(&history, i64::MAX, 2), vec![9, 5]);
    assert_eq!(page_of_history(&history, i64::MAX, 10), vec![9, 5, 1]);
    assert_eq!(page_of_history(&history, 0, 10), Vec::<i64>::new());
    assert_eq!(page_of_history(&history, 9, 1), vec![9]);
}

#[test]
fn failed_and_empty_pages_decide_the_walk() {
    assert_eq!(walk_step(77, Coverage::Empty, PageOutcome::Failed), WalkDecision::Abort);
    assert_eq!(walk_step(77, Coverage::Empty, PageOutcome::Empty), WalkDecision::Converged);
}

#[test]
fn unchanged_page_minimum_means_convergence() {
    // a page whose minimum equals the requesting cursor makes no backward
    // progress: the walk stops rather than looping again
    assert_eq!(
        walk_step(77, Coverage::Empty, PageOutcome::Data { page_min: 77 }),
        WalkDecision::Converged
    );
    assert_eq!(
        walk_step(
            77,
            Coverage::Range { min: 10, max: 100 },
            PageOutcome::Data { page_min: 77 }
        ),
        WalkDecision::Converged
    );
}

#[test]
fn coverage_snap_boundaries_are_closed() {
    let cov = Coverage::Range { min: 10, max: 20 };
    // both edges of the known coverage trigger the snap to min - 1
    assert_eq!(
        walk_step(100, cov, PageOutcome::Data { page_min: 10 }),
        WalkDecision::Continue { next_cursor: 9 }
    );
    assert_eq!(
        walk_step(100, cov, PageOutcome::Data { page_min: 20 }),
        WalkDecision::Continue { next_cursor: 9 }
    );
    assert_eq!(
        walk_step(100, cov, PageOutcome::Data { page_min: 15 }),
        WalkDecision::Continue { next_cursor: 9 }
    );
    // just outside the coverage there is no snap
    assert_eq!(
        walk_step(100, cov, PageOutcome::Data { page_min: 9 }),
        WalkDecision::Continue { next_cursor: 9 }
    );
    assert_eq!(
        walk_step(100, cov, PageOutcome::Data { page_min: 21 }),
        WalkDecision::Continue { next_cursor: 21 }
    );
}

#[test]
fn empty_history_converges_after_one_request() {
    let mut s = Store::new();
    let id = s.register("BTCUSDT");
    let requests = run_walk(&mut s, id, &Vec::new(), 1000);
    assert_eq!(requests, 1);
    assert_eq!(s.candle_count(), 0);
}

#[test]
fn single_candle_history_converges_after_two_requests() {
    // the second page repeats the boundary candle: page_min equals the
    // cursor and the walk stops, never requesting a third page
    let mut s = Store::new();
    let id = s.register("BTCUSDT");
    let requests = run_walk(&mut s, id, &vec![7], 1000);
    assert_eq!(requests, 2);
    assert_eq!(s.candle_count(), 1);
    assert_eq!(s.coverage(id), Coverage::Range { min: 7, max: 7 });
}

#[test]
fn one_page_history_needs_at_most_two_requests() {
    let mut s = Store::new();
    let id = s.register("BTCUSDT");
    let requests = run_walk(&mut s, id, &vec![60000, 120000, 180000], 1000);
    assert!(requests <= 2);
    assert_eq!(s.candle_count(), 3);
}

#[test]
fn converged_walk_stores_the_earliest_time() {
    let mut s = Store::new();
    let id = s.register("BTCUSDT");
    let history = vec![10, 20, 30, 40, 50];
    let requests = run_walk(&mut s, id, &history, 2);
    // bounded by the uncovered history: five candles, a possible snap, and
    // the converging page
    assert!(requests <= 7);
    assert_eq!(s.candle_count(), 5);
    assert_eq!(s.coverage(id), Coverage::Range { min: 10, max: 50 });
    for t in &history {
        assert!(s.get_candle(id, *t).is_some());
    }
}

#[test]
fn walk_snaps_past_known_coverage() {
    let mut s = Store::new();
    let id = s.register("BTCUSDT");
    // candles from an earlier pass cover [10, 20]
    s.insert_candle(id, Candle::at_time(10));
    s.insert_candle(id, Candle::at_time(20));
    // a new candle at 30 has appeared since
    let requests = run_walk(&mut s, id, &vec![10, 20, 30], 2);
    // one page reaches into the known coverage, the snap lands below the
    // stored minimum, and the next page is empty
    assert_eq!(requests, 2);
    assert_eq!(s.candle_count(), 3);
    assert_eq!(s.coverage(id), Coverage::Range { min: 10, max: 30 });
}

#[test]
fn walk_leaves_other_instruments_alone() {
    let mut s = Store::new();
    let btc = s.register("BTCUSDT");
    let eth = s.register("ETHUSDT");
    s.insert_candle(eth, Candle::at_time(99));
    run_walk(&mut s, btc, &vec![1, 2, 3], 1000);
    assert_eq!(s.candle_count(), 4);
    assert!(s.get_candle(eth, 99).is_some());
    assert!(s.get_candle(btc, 99).is_none());
}
