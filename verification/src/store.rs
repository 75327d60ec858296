//! The relational store model: an instrument table keyed by symbol and a
//! candle table keyed by (instrument id, open time), with insert-if-absent
//! semantics for both. Re-inserting an existing key is a no-op and never
//! overwrites the first-written row.
use vstd::prelude::*;

verus! {

/// One registered instrument: a stable surrogate id and its symbol.
/// Ids are assigned monotonically, starting at 1, and never reused.
pub struct Instrument {
    pub id: u64,
    pub symbol: String,
}

/// One minute candle, positional fields as the kline endpoint delivers
/// them. Decimal quantities are kept as exact text, never as floats.
pub struct Candle {
    pub open_time: i64,
    pub open: String,
    pub high: String,
    pub low: String,
    pub close: String,
    pub volume: String,
    pub close_time: i64,
    pub quote_volume: String,
    pub trade_count: i64,
    pub taker_buy_base: String,
    pub taker_buy_quote: String,
}

/// The plain content of a candle: its timestamps and counts, and the text
/// of its decimal fields. The spec-level value of a parsed row.
pub struct CandleData {
    pub open_time: i64,
    pub open: Seq<char>,
    pub high: Seq<char>,
    pub low: Seq<char>,
    pub close: Seq<char>,
    pub volume: Seq<char>,
    pub close_time: i64,
    pub quote_volume: Seq<char>,
    pub trade_count: i64,
    pub taker_buy_base: Seq<char>,
    pub taker_buy_quote: Seq<char>,
}

impl Candle {
    /// The plain content of this candle.
    pub open spec fn data(self) -> CandleData {
        CandleData {
            open_time: self.open_time,
            open: self.open@,
            high: self.high@,
            low: self.low@,
            close: self.close@,
            volume: self.volume@,
            close_time: self.close_time,
            quote_volume: self.quote_volume@,
            trade_count: self.trade_count,
            taker_buy_base: self.taker_buy_base@,
            taker_buy_quote: self.taker_buy_quote@,
        }
    }

    /// A candle that carries only its open time; the remaining fields are
    /// empty. Used to exercise the walk against a plain list of times.
    pub fn at_time(t: i64) -> (c: Candle)
        ensures
            c.open_time == t,
            c.close_time == t,
            c.trade_count == 0,
            c.open@ == Seq::<char>::empty(),
            c.high@ == Seq::<char>::empty(),
            c.low@ == Seq::<char>::empty(),
            c.close@ == Seq::<char>::empty(),
            c.volume@ == Seq::<char>::empty(),
            c.quote_volume@ == Seq::<char>::empty(),
            c.taker_buy_base@ == Seq::<char>::empty(),
            c.taker_buy_quote@ == Seq::<char>::empty(),
    {
        Candle {
            open_time: t,
            open: String::new(),
            high: String::new(),
            low: String::new(),
            close: String::new(),
            volume: String::new(),
            close_time: t,
            quote_volume: String::new(),
            trade_count: 0,
            taker_buy_base: String::new(),
            taker_buy_quote: String::new(),
        }
    }
}

/// The stored time coverage of one instrument: the span between its
/// earliest and latest stored candle, or `Empty` when it has none.
#[derive(Copy, Clone, Debug, PartialEq, Eq, Structural)]
pub enum Coverage {
    Empty,
    Range { min: i64, max: i64 },
}

impl Coverage {
    /// Whether `t` lies inside this coverage span (closed at both ends).
    pub open spec fn covers(self, t: i64) -> bool {
        match self {
            Coverage::Empty => false,
            Coverage::Range { min, max } => min <= t && t <= max,
        }
    }

    /// A coverage value the walk can take a step from: a non-empty span is
    /// ordered and its lower edge leaves room for the one-tick snap.
    pub open spec fn wf(self) -> bool {
        match self {
            Coverage::Empty => true,
            Coverage::Range { min, max } => i64::MIN < min <= max,
        }
    }
}

/// The store for one market type: instruments and their candles.
pub struct Store {
    pub instruments: Vec<Instrument>,
    pub candles: Vec<(u64, Candle)>,
}

impl Store {
    pub open spec fn instruments_view(self) -> Seq<Instrument> {
        self.instruments@
    }

    pub open spec fn candles_view(self) -> Seq<(u64, Candle)> {
        self.candles@
    }

    /// A candle with this key is stored.
    pub open spec fn stored_time(self, id: u64, t: i64) -> bool {
        exists|i: int|
            0 <= i < self.candles@.len() && (#[trigger] self.candles@[i]).0 == id
                && self.candles@[i].1.open_time == t
    }

    /// `t` lies between two stored times of this instrument.
    pub open spec fn covered(self, id: u64, t: i64) -> bool {
        exists|t1: i64, t2: i64|
            self.stored_time(id, t1) && self.stored_time(id, t2) && t1 <= t && t <= t2
    }

    /// Some instrument carries this symbol.
    pub open spec fn has_symbol(self, s: Seq<char>) -> bool {
        exists|i: int|
            0 <= i < self.instruments@.len() && (#[trigger] self.instruments@[i]).symbol@ == s
    }

    /// `id` is an assigned instrument id.
    pub open spec fn has_instrument(self, id: u64) -> bool {
        1 <= id && id as int <= self.instruments@.len()
    }

    /// A candle of this instrument with open time `t` is stored under this
    /// symbol.
    pub open spec fn stored_sym(self, s: Seq<char>, t: i64) -> bool {
        exists|k: int|
            0 <= k < self.instruments@.len() && (#[trigger] self.instruments@[k]).symbol@ == s
                && self.stored_time((k + 1) as u64, t)
    }

    /// `t` lies between two stored times of the instrument carrying this
    /// symbol.
    pub open spec fn covered_sym(self, s: Seq<char>, t: i64) -> bool {
        exists|k: int|
            0 <= k < self.instruments@.len() && (#[trigger] self.instruments@[k]).symbol@ == s
                && self.covered((k + 1) as u64, t)
    }

    /// Well-formedness: symbols are unique, ids are dense and monotone
    /// (position k holds id k+1), candle keys are unique, and every candle
    /// references an assigned instrument.
    pub open spec fn wf(self) -> bool {
        &&& forall|i: int, j: int|
            0 <= i < j < self.instruments@.len() ==> (#[trigger] self.instruments@[i]).symbol@
                != (#[trigger] self.instruments@[j]).symbol@
        &&& forall|i: int|
            0 <= i < self.instruments@.len() ==> (#[trigger] self.instruments@[i]).id as int == i
                + 1
        &&& forall|i: int, j: int|
            0 <= i < j < self.candles@.len() ==> !((#[trigger] self.candles@[i]).0
                == (#[trigger] self.candles@[j]).0 && self.candles@[i].1.open_time
                == self.candles@[j].1.open_time)
        &&& forall|i: int|
            0 <= i < self.candles@.len() ==> 1 <= (#[trigger] self.candles@[i]).0
                && self.candles@[i].0 as int <= self.instruments@.len()
    }

    /// The stored candle under a key, if any: the row at the unique
    /// matching position.
    pub open spec fn lookup(self, id: u64, t: i64) -> Option<Candle> {
        if self.stored_time(id, t) {
            Some(
                self.candles@[choose|i: int|
                    0 <= i < self.candles@.len() && (#[trigger] self.candles@[i]).0 == id
                        && self.candles@[i].1.open_time == t].1,
            )
        } else {
            None
        }
    }

    /// Under well-formedness the matching position is unique, so `lookup`
    /// returns the row at any matching position.
    pub proof fn lemma_lookup_at(self, id: u64, t: i64, i: int)
        requires
            self.wf(),
            0 <= i < self.candles@.len(),
            self.candles@[i].0 == id,
            self.candles@[i].1.open_time == t,
        ensures
            self.lookup(id, t) == Some(self.candles@[i].1),
    {
        assert(self.stored_time(id, t));
        let j = choose|j: int|
            0 <= j < self.candles@.len() && (#[trigger] self.candles@[j]).0 == id
                && self.candles@[j].1.open_time == t;
        if i < j {
            assert(false);
        } else if j < i {
            assert(false);
        }
    }

    /// Under well-formedness at most one instrument carries a symbol, so
    /// the symbol-level relations coincide with the id-level ones at its
    /// position.
    pub proof fn lemma_sym_unique(self, s: Seq<char>, k: int)
        requires
            self.wf(),
            0 <= k < self.instruments@.len(),
            self.instruments@[k].symbol@ == s,
        ensures
            forall|t: i64| self.stored_sym(s, t) <==> self.stored_time((k + 1) as u64, t),
            forall|t: i64| self.covered_sym(s, t) <==> self.covered((k + 1) as u64, t),
    {
        assert forall|t: i64|
            self.stored_sym(s, t) <==> self.stored_time((k + 1) as u64, t) by {
            if self.stored_sym(s, t) {
                let k2 = choose|k2: int|
                    0 <= k2 < self.instruments@.len() && (#[trigger] self.instruments@[k2]).symbol@
                        == s && self.stored_time((k2 + 1) as u64, t);
                if k2 < k {
                    assert(false);
                } else if k < k2 {
                    assert(false);
                }
            }
            if self.stored_time((k + 1) as u64, t) {
                assert(self.instruments@[k].symbol@ == s);
                assert(self.stored_sym(s, t));
            }
        }
        assert forall|t: i64| self.covered_sym(s, t) <==> self.covered((k + 1) as u64, t) by {
            if self.covered_sym(s, t) {
                let k2 = choose|k2: int|
                    0 <= k2 < self.instruments@.len() && (#[trigger] self.instruments@[k2]).symbol@
                        == s && self.covered((k2 + 1) as u64, t);
                if k2 < k {
                    assert(false);
                } else if k < k2 {
                    assert(false);
                }
            }
            if self.covered((k + 1) as u64, t) {
                assert(self.instruments@[k].symbol@ == s);
                assert(self.covered_sym(s, t));
            }
        }
    }

    /// Two stores that agree on a symbol's stored times agree on its
    /// covered span.
    pub proof fn lemma_covered_sym_eq(self, other: Store, s: Seq<char>)
        requires
            self.wf(),
            other.wf(),
            forall|t: i64| self.stored_sym(s, t) <==> other.stored_sym(s, t),
        ensures
            forall|t: i64| self.covered_sym(s, t) <==> other.covered_sym(s, t),
    {
        assert forall|t: i64| self.covered_sym(s, t) <==> other.covered_sym(s, t) by {
            if self.covered_sym(s, t) {
                let k = choose|k: int|
                    0 <= k < self.instruments@.len() && (#[trigger] self.instruments@[k]).symbol@
                        == s && self.covered((k + 1) as u64, t);
                self.lemma_sym_unique(s, k);
                let (t1, t2) = choose|t1: i64, t2: i64|
                    #[trigger] self.stored_time((k + 1) as u64, t1) && #[trigger] self.stored_time(
                        (k + 1) as u64,
                        t2,
                    ) && t1 <= t && t <= t2;
                assert(other.stored_sym(s, t1));
                assert(other.stored_sym(s, t2));
                let k2 = choose|k2: int|
                    0 <= k2 < other.instruments@.len() && (#[trigger] other.instruments@[k2]).symbol@
                        == s && other.stored_time((k2 + 1) as u64, t1);
                other.lemma_sym_unique(s, k2);
                assert(other.stored_time((k2 + 1) as u64, t2));
                assert(other.covered((k2 + 1) as u64, t));
                assert(other.covered_sym(s, t));
            }
            if other.covered_sym(s, t) {
                let k = choose|k: int|
                    0 <= k < other.instruments@.len() && (#[trigger] other.instruments@[k]).symbol@
                        == s && other.covered((k + 1) as u64, t);
                other.lemma_sym_unique(s, k);
                let (t1, t2) = choose|t1: i64, t2: i64|
                    #[trigger] other.stored_time((k + 1) as u64, t1)
                        && #[trigger] other.stored_time((k + 1) as u64, t2) && t1 <= t && t <= t2;
                assert(self.stored_sym(s, t1));
                assert(self.stored_sym(s, t2));
                let k2 = choose|k2: int|
                    0 <= k2 < self.instruments@.len() && (#[trigger] self.instruments@[k2]).symbol@
                        == s && self.stored_time((k2 + 1) as u64, t1);
                self.lemma_sym_unique(s, k2);
                assert(self.stored_time((k2 + 1) as u64, t2));
                assert(self.covered((k2 + 1) as u64, t));
                assert(self.covered_sym(s, t));
            }
        }
    }

    /// An empty store.
    pub fn new() -> (s: Store)
        ensures
            s.wf(),
            s.instruments_view() =~= Seq::<Instrument>::empty(),
            s.candles_view() =~= Seq::<(u64, Candle)>::empty(),
    {
        Store { instruments: Vec::new(), candles: Vec::new() }
    }

    pub fn instrument_count(&self) -> (n: usize)
        ensures
            n == self.instruments_view().len(),
    {
        self.instruments.len()
    }

    pub fn candle_count(&self) -> (n: usize)
        ensures
            n == self.candles_view().len(),
    {
        self.candles.len()
    }

    /// Insert-if-absent registration of a symbol. The instrument exists
    /// afterward with a stable id; registering an existing symbol changes
    /// nothing and hands back the id it already has.
    #[verifier::loop_isolation(false)]
    pub fn register(&mut self, symbol: &str) -> (id: u64)
        requires
            old(self).wf(),
            old(self).instruments@.len() < u64::MAX,
        ensures
            final(self).wf(),
            final(self).candles@ == old(self).candles@,
            final(self).has_instrument(id),
            final(self).instruments@[id as int - 1].symbol@ == symbol@,
            old(self).has_symbol(symbol@) ==> *final(self) == *old(self),
            !old(self).has_symbol(symbol@) ==> {
                &&& id as int == old(self).instruments@.len() + 1
                &&& final(self).instruments@.len() == old(self).instruments@.len() + 1
                &&& forall|k: int|
                    0 <= k < old(self).instruments@.len() ==> final(self).instruments@[k]
                        == old(self).instruments@[k]
            },
            forall|s: Seq<char>|
                final(self).has_symbol(s) <==> old(self).has_symbol(s) || s == symbol@,
    {
        let sym: String = symbol.to_owned();
        let n = self.instruments.len();
        let mut i: usize = 0;
        while i < n
            invariant
                n == self.instruments@.len(),
                i <= n,
                *self == *old(self),
                sym@ == symbol@,
                forall|j: int| 0 <= j < i ==> (#[trigger] self.instruments@[j]).symbol@ != symbol@,
            decreases n - i,
        {
            if self.instruments[i].symbol == sym {
                let id = self.instruments[i].id;
                proof {
                    assert(self.has_symbol(symbol@));
                }
                return id;
            }
            i += 1;
        }
        proof {
            assert(!self.has_symbol(symbol@));
        }
        let id = (n as u64) + 1;
        self.instruments.push(Instrument { id, symbol: sym });
        proof {
            assert forall|s: Seq<char>|
                self.has_symbol(s) <==> old(self).has_symbol(s) || s == symbol@ by {
                if self.has_symbol(s) {
                    let k = choose|k: int|
                        0 <= k < self.instruments@.len() && (#[trigger] self.instruments@[k]).symbol@
                            == s;
                    if k < old(self).instruments@.len() {
                        assert(old(self).has_symbol(s));
                    }
                }
                if old(self).has_symbol(s) {
                    let k = choose|k: int|
                        0 <= k < old(self).instruments@.len() && (#[trigger] old(
                            self,
                        ).instruments@[k]).symbol@ == s;
                    assert(self.instruments@[k].symbol@ == s);
                    assert(self.has_symbol(s));
                }
                if s == symbol@ {
                    assert(self.instruments@[self.instruments@.len() - 1].symbol@ == s);
                    assert(self.has_symbol(s));
                }
            }
        }
        id
    }

    /// Insert-if-absent for one candle. When the key (instrument id, open
    /// time) is already present the store is unchanged and the first-written
    /// row keeps its values; otherwise the candle is appended.
    #[verifier::loop_isolation(false)]
    pub fn insert_candle(&mut self, id: u64, c: Candle) -> (added: bool)
        requires
            old(self).wf(),
            old(self).has_instrument(id),
        ensures
            final(self).wf(),
            final(self).instruments@ == old(self).instruments@,
            added == !old(self).stored_time(id, c.open_time),
            !added ==> final(self).candles@ == old(self).candles@,
            added ==> final(self).candles@ == old(self).candles@.push((id, c)),
            forall|id2: u64, t2: i64|
                final(self).stored_time(id2, t2) <==> old(self).stored_time(id2, t2) || (id2 == id && t2
                    == c.open_time),
            forall|id2: u64, t2: i64|
                old(self).lookup(id2, t2) is Some ==> final(self).lookup(id2, t2) == old(self).lookup(
                    id2,
                    t2,
                ),
            final(self).lookup(id, c.open_time) == if old(self).stored_time(id, c.open_time) {
                old(self).lookup(id, c.open_time)
            } else {
                Some(c)
            },
            final(self).candles@.len() >= old(self).candles@.len(),
    {
        let n = self.candles.len();
        let mut i: usize = 0;
        while i < n
            invariant
                n == self.candles@.len(),
                i <= n,
                *self == *old(self),
                forall|j: int|
                    0 <= j < i ==> !((#[trigger] self.candles@[j]).0 == id
                        && self.candles@[j].1.open_time == c.open_time),
            decreases n - i,
        {
            if self.candles[i].0 == id && self.candles[i].1.open_time == c.open_time {
                proof {
                    assert(self.stored_time(id, c.open_time));
                    self.lemma_lookup_at(id, c.open_time, i as int);
                    assert forall|id2: u64, t2: i64|
                        old(self).lookup(id2, t2) is Some implies self.lookup(id2, t2) == old(
                        self,
                    ).lookup(id2, t2) by {}
                }
                return false;
            }
            i += 1;
        }
        proof {
            assert(!self.stored_time(id, c.open_time));
        }
        let ghost prev = *self;
        self.candles.push((id, c));
        proof {
            let m = prev.candles@.len() as int;
            assert(self.candles@ == prev.candles@.push((id, c)));
            assert(self.candles@[m] == (id, c));
            assert forall|j: int| 0 <= j < m implies self.candles@[j] == prev.candles@[j] by {}
            // well-formedness: the new key was absent, so key uniqueness holds
            assert forall|i2: int, j2: int| 0 <= i2 < j2 < self.candles@.len() implies !((
            #[trigger] self.candles@[i2]).0 == (#[trigger] self.candles@[j2]).0
                && self.candles@[i2].1.open_time == self.candles@[j2].1.open_time) by {
                if j2 < m {
                } else {
                    assert(self.candles@[j2] == (id, c));
                    if self.candles@[i2].0 == id && self.candles@[i2].1.open_time == c.open_time {
                        assert(prev.stored_time(id, c.open_time));
                        assert(false);
                    }
                }
            }
            // the stored-key relation gains exactly the new key
            assert forall|id2: u64, t2: i64|
                self.stored_time(id2, t2) <==> prev.stored_time(id2, t2) || (id2 == id && t2
                    == c.open_time) by {
                if self.stored_time(id2, t2) {
                    let w = choose|w: int|
                        0 <= w < self.candles@.len() && (#[trigger] self.candles@[w]).0 == id2
                            && self.candles@[w].1.open_time == t2;
                    if w < m {
                        assert(prev.stored_time(id2, t2));
                    }
                }
                if prev.stored_time(id2, t2) {
                    let w = choose|w: int|
                        0 <= w < prev.candles@.len() && (#[trigger] prev.candles@[w]).0 == id2
                            && prev.candles@[w].1.open_time == t2;
                    assert(self.candles@[w].0 == id2 && self.candles@[w].1.open_time == t2);
                    assert(self.stored_time(id2, t2));
                }
                if id2 == id && t2 == c.open_time {
                    assert(self.candles@[m].0 == id2 && self.candles@[m].1.open_time == t2);
                    assert(self.stored_time(id2, t2));
                }
            }
            // previously stored rows keep their values
            assert forall|id2: u64, t2: i64| prev.lookup(id2, t2) is Some implies self.lookup(
                id2,
                t2,
            ) == prev.lookup(id2, t2) by {
                assert(prev.stored_time(id2, t2));
                let w = choose|w: int|
                    0 <= w < prev.candles@.len() && (#[trigger] prev.candles@[w]).0 == id2
                        && prev.candles@[w].1.open_time == t2;
                prev.lemma_lookup_at(id2, t2, w);
                self.lemma_lookup_at(id2, t2, w);
            }
            self.lemma_lookup_at(id, c.open_time, m);
        }
        true
    }

    /// The page ingestor: normalizes nothing further, stores every row of
    /// the page insert-if-absent, and reports the minimum open time seen.
    /// The stored row count never decreases, and rows already present keep
    /// their first-written values.
    #[verifier::loop_isolation(false)]
    pub fn ingest_page(&mut self, id: u64, rows: Vec<Candle>) -> (pm: Option<i64>)
        requires
            old(self).wf(),
            old(self).has_instrument(id),
        ensures
            final(self).wf(),
            final(self).instruments@ == old(self).instruments@,
            pm is Some <==> rows@.len() > 0,
            pm matches Some(m) ==> (exists|i: int|
                0 <= i < rows@.len() && (#[trigger] rows@[i]).open_time == m) && (forall|i: int|
                0 <= i < rows@.len() ==> m <= (#[trigger] rows@[i]).open_time),
            forall|id2: u64, t2: i64|
                final(self).stored_time(id2, t2) <==> old(self).stored_time(id2, t2) || (id2 == id
                    && exists|i: int| 0 <= i < rows@.len() && (#[trigger] rows@[i]).open_time == t2),
            forall|id2: u64, t2: i64|
                old(self).lookup(id2, t2) is Some ==> final(self).lookup(id2, t2) == old(self).lookup(
                    id2,
                    t2,
                ),
            final(self).candles@.len() >= old(self).candles@.len(),
    {
        let ghost all = rows@;
        let mut rows = rows;
        let mut pm: Option<i64> = None;
        let mut k: usize = 0;
        let n = rows.len();
        while k < n
            invariant
                n == all.len(),
                k <= n,
                rows@ == all.skip(k as int),
                self.wf(),
                self.has_instrument(id),
                self.instruments@ == old(self).instruments@,
                pm is Some <==> k > 0,
                pm matches Some(m) ==> (exists|i: int|
                    0 <= i < k && (#[trigger] all[i]).open_time == m) && (forall|i: int|
                    0 <= i < k ==> m <= (#[trigger] all[i]).open_time),
                forall|id2: u64, t2: i64|
                    self.stored_time(id2, t2) <==> old(self).stored_time(id2, t2) || (id2 == id
                        && exists|i: int| 0 <= i < k && (#[trigger] all[i]).open_time == t2),
                forall|id2: u64, t2: i64|
                    old(self).lookup(id2, t2) is Some ==> self.lookup(id2, t2) == old(self).lookup(
                        id2,
                        t2,
                    ),
                self.candles@.len() >= old(self).candles@.len(),
            decreases n - k,
        {
            let c = rows.remove(0);
            proof {
                assert(c == all[k as int]);
                assert(rows@ =~= all.skip(k as int + 1));
            }
            let t = c.open_time;
            let ghost mid = *self;
            self.insert_candle(id, c);
            pm = match pm {
                None => Some(t),
                Some(m) => if t < m {
                    Some(t)
                } else {
                    Some(m)
                },
            };
            k += 1;
        }
        pm
    }

    /// The range tracker: the span between the earliest and the latest
    /// stored open time of this instrument, or `Empty` when it has no
    /// candles.
    #[verifier::loop_isolation(false)]
    pub fn coverage(&self, id: u64) -> (c: Coverage)
        ensures
            c is Empty <==> (forall|t: i64| !self.stored_time(id, t)),
            c matches Coverage::Range { min, max } ==> {
                &&& self.stored_time(id, min)
                &&& self.stored_time(id, max)
                &&& forall|t: i64| self.stored_time(id, t) ==> min <= t && t <= max
            },
    {
        let n = self.candles.len();
        let mut acc: Option<(i64, i64)> = None;
        let mut i: usize = 0;
        while i < n
            invariant
                n == self.candles@.len(),
                i <= n,
                acc is None ==> forall|j: int|
                    0 <= j < i ==> (#[trigger] self.candles@[j]).0 != id,
                acc matches Some((mn, mx)) ==> {
                    &&& self.stored_time(id, mn)
                    &&& self.stored_time(id, mx)
                    &&& forall|j: int|
                        0 <= j < i && (#[trigger] self.candles@[j]).0 == id ==> mn
                            <= self.candles@[j].1.open_time && self.candles@[j].1.open_time <= mx
                },
            decreases n - i,
        {
            if self.candles[i].0 == id {
                let t = self.candles[i].1.open_time;
                proof {
                    assert(self.stored_time(id, t));
                }
                acc = match acc {
                    None => Some((t, t)),
                    Some((mn, mx)) => Some(
                        (
                            if t < mn {
                                t
                            } else {
                                mn
                            },
                            if t > mx {
                                t
                            } else {
                                mx
                            },
                        ),
                    ),
                };
            }
            i += 1;
        }
        match acc {
            None => {
                proof {
                    assert forall|t: i64| !self.stored_time(id, t) by {
                        if self.stored_time(id, t) {
                            let w = choose|w: int|
                                0 <= w < self.candles@.len() && (#[trigger] self.candles@[w]).0
                                    == id && self.candles@[w].1.open_time == t;
                            assert(false);
                        }
                    }
                }
                Coverage::Empty
            },
            Some((mn, mx)) => {
                proof {
                    assert forall|t: i64| self.stored_time(id, t) implies mn <= t && t <= mx by {
                        let w = choose|w: int|
                            0 <= w < self.candles@.len() && (#[trigger] self.candles@[w]).0 == id
                                && self.candles@[w].1.open_time == t;
                    }
                }
                Coverage::Range { min: mn, max: mx }
            },
        }
    }

    /// The stored candle under a key, if any.
    #[verifier::loop_isolation(false)]
    pub fn get_candle(&self, id: u64, t: i64) -> (r: Option<&Candle>)
        requires
            self.wf(),
        ensures
            match r {
                Some(c) => self.lookup(id, t) == Some(*c),
                None => self.lookup(id, t) is None,
            },
    {
        let n = self.candles.len();
        let mut i: usize = 0;
        while i < n
            invariant
                n == self.candles@.len(),
                i <= n,
                self.wf(),
                forall|j: int|
                    0 <= j < i ==> !((#[trigger] self.candles@[j]).0 == id
                        && self.candles@[j].1.open_time == t),
            decreases n - i,
        {
            if self.candles[i].0 == id && self.candles[i].1.open_time == t {
                proof {
                    self.lemma_lookup_at(id, t, i as int);
                }
                return Some(&self.candles[i].1);
            }
            i += 1;
        }
        proof {
            assert(!self.stored_time(id, t));
        }
        None
    }
}

} // verus!
