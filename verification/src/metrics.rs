//! Runtime statistics: how many queries were answered, and how many failed, in
//! the last minute, hour and day.
use std::time::{Duration, Instant, SystemTime, SystemTimeError};
use vstd::prelude::*;

use crate::clock;

verus! {

/// One bucket per second of a day.
pub const RING_SIZE: usize = 86_400;

/// The queries of one second.
#[derive(Debug, Clone, Copy)]
pub struct Bucket {
    pub ts: u64,
    pub queries: u64,
    pub errors: u64,
}

pub struct Metrics {
    started_at: Instant,
    rows_loaded: u64,
    recorded: u64,
    ring: Vec<Bucket>,
}

pub struct StatusSnapshot {
    pub uptime_secs: u64,
    pub rows_loaded: u64,
    pub queries_1m: u64,
    pub queries_1h: u64,
    pub queries_24h: u64,
    pub errors_1m: u64,
    pub errors_1h: u64,
    pub errors_24h: u64,
}

/// Seconds since the Unix epoch by the system's clock; zero if it is set to a
/// time before.
pub fn unix_secs() -> (r: u64)
    ensures
        is_second_of_the_clock(r),
{
    let moment: SystemTime = SystemTime::now();
    let since_epoch: Option<u64> = match clock::since_epoch(&moment) {
        Ok(d) => Some(d.as_secs()),
        Err(_) => None,
    };
    second_of(since_epoch)
}

/// Whether the system's clock may show this second: that of a moment that it told,
/// or zero where that moment is before the epoch.
pub closed spec fn is_second_of_the_clock(r: u64) -> bool {
    exists|moment: SystemTime| #[trigger]
        call_ensures(SystemTime::now, (), moment) && is_second_of(moment, r)
}

/// Whether a moment lies so many seconds past the epoch.
closed spec fn is_second_of(moment: SystemTime, r: u64) -> bool {
    exists|span: Result<Duration, SystemTimeError>| #[trigger]
        call_ensures(clock::since_epoch, (&moment,), span) && match span {
            Ok(d) => call_ensures(Duration::as_secs, (&d,), r),
            Err(_) => r == 0,
        }
}

/// The second of a clock that is so many seconds past the Unix epoch: zero for
/// one that is set to a time before.
pub fn second_of(since_epoch: Option<u64>) -> (r: u64)
    ensures
        r == match since_epoch {
            Some(secs) => secs,
            None => 0,
        },
{
    match since_epoch {
        Some(secs) => secs,
        None => 0,
    }
}

/// The second that lies `i` seconds back, or the first of all.
pub open spec fn back(now: u64, i: int) -> int {
    if i <= now {
        now - i
    } else {
        0
    }
}

/// The bucket of a second.
pub open spec fn slot(ts: int) -> int {
    ts % (RING_SIZE as int)
}

/// The queries, or only those that failed, of the second that lies `i` seconds
/// back.
pub open spec fn recorded_at(ring: Seq<Bucket>, now: u64, i: int, failed: bool) -> int {
    let b = ring[slot(back(now, i))];
    if b.ts == back(now, i) {
        if failed {
            b.errors as int
        } else {
            b.queries as int
        }
    } else {
        0
    }
}

/// The queries, or only those that failed, of the last `n` seconds.
pub open spec fn within(ring: Seq<Bucket>, now: u64, n: int, failed: bool) -> int
    decreases n,
{
    if n <= 0 {
        0
    } else {
        within(ring, now, n - 1, failed) + recorded_at(ring, now, n - 1, failed)
    }
}

/// The buckets once a query of second `ts` was recorded.
pub open spec fn with_query(ring: Seq<Bucket>, ts: u64, is_error: bool) -> Seq<Bucket> {
    let b = ring[slot(ts as int)];
    let queries = if b.ts == ts {
        b.queries as int
    } else {
        0
    };
    let errors = if b.ts == ts {
        b.errors as int
    } else {
        0
    };
    ring.update(
        slot(ts as int),
        Bucket {
            ts,
            queries: (queries + 1) as u64,
            errors: if is_error {
                (errors + 1) as u64
            } else {
                errors as u64
            },
        },
    )
}

/// A query that was recorded: its second, and whether it failed.
pub struct Recorded {
    pub ts: u64,
    pub is_error: bool,
}

/// The buckets once some queries were recorded, one after the other.
pub open spec fn ring_of(history: Seq<Recorded>) -> Seq<Bucket>
    decreases history.len(),
{
    if history.len() == 0 {
        Seq::new(RING_SIZE as nat, |i: int| Bucket { ts: 0, queries: 0, errors: 0 })
    } else {
        with_query(ring_of(history.drop_last()), history.last().ts, history.last().is_error)
    }
}

/// How many of some queries, or of those that failed, are less than `w` seconds
/// old at second `now`.
pub open spec fn younger_than(history: Seq<Recorded>, now: u64, w: int, failed: bool) -> nat {
    history.filter(|e: Recorded| now - e.ts < w && (failed ==> e.is_error)).len()
}

/// How many queries the first `n` buckets count.
pub open spec fn kept(ring: Seq<Bucket>, n: int) -> int
    decreases n,
{
    if n <= 0 {
        0
    } else {
        kept(ring, n - 1) + ring[n - 1].queries
    }
}

/// A count as it is shown: one that 64 bits do not hold shows as the largest that
/// they do.
pub open spec fn capped(n: int) -> int {
    if n <= u64::MAX {
        n
    } else {
        u64::MAX as int
    }
}

/// Whether queries were recorded as time went by, up to second `now`.
pub open spec fn in_time(history: Seq<Recorded>, now: u64) -> bool {
    &&& forall|a: int, b: int|
        0 <= a <= b < history.len() ==> (#[trigger] history[a]).ts <= (#[trigger] history[b]).ts
    &&& forall|k: int| 0 <= k < history.len() ==> (#[trigger] history[k]).ts <= now
}

/// Whether no bucket counts more queries than a limit, nor more that failed than
/// there were.
pub open spec fn counts_up_to(ring: Seq<Bucket>, limit: int) -> bool {
    forall|i: int|
        0 <= i < ring.len() ==> (#[trigger] ring[i]).queries <= limit && ring[i].errors
            <= ring[i].queries
}

impl Metrics {
    pub closed spec fn ring(&self) -> Seq<Bucket> {
        self.ring@
    }

    pub closed spec fn rows(&self) -> u64 {
        self.rows_loaded
    }

    /// How many queries were recorded.
    pub closed spec fn total(&self) -> u64 {
        self.recorded
    }

    pub closed spec fn started(&self) -> Instant {
        self.started_at
    }

    pub open spec fn wf(&self) -> bool {
        &&& self.ring().len() == RING_SIZE
        &&& counts_up_to(self.ring(), self.total() as int)
        &&& kept(self.ring(), RING_SIZE as int) <= self.total()
    }

    pub fn new(rows_loaded: u64) -> (r: Metrics)
        ensures
            r.wf(),
            r.rows() == rows_loaded,
            r.total() == 0,
            call_ensures(Instant::now, (), r.started()),
            r.ring() == ring_of(Seq::empty()),
    {
        let mut ring: Vec<Bucket> = Vec::new();
        let mut i: usize = 0;
        while i < RING_SIZE
            invariant
                i <= RING_SIZE,
                ring@.len() == i,
                forall|k: int|
                    0 <= k < i ==> #[trigger] ring@[k] == (Bucket { ts: 0, queries: 0, errors: 0 }),
            decreases RING_SIZE - i,
        {
            ring.push(Bucket { ts: 0, queries: 0, errors: 0 });
            i += 1;
        }
        assert(ring@ =~= ring_of(Seq::empty()));
        proof {
            lemma_nothing_kept(RING_SIZE as int);
        }
        let started_at: Instant = Instant::now();
        Metrics { started_at, rows_loaded, recorded: 0, ring }
    }

    /// How many queries were recorded.
    pub fn recorded(&self) -> (n: u64)
        ensures
            n == self.total(),
    {
        self.recorded
    }

    pub fn set_rows_loaded(&mut self, rows: u64)
        requires
            old(self).wf(),
        ensures
            final(self).wf(),
            final(self).rows() == rows,
            final(self).ring() == old(self).ring(),
            final(self).total() == old(self).total(),
            final(self).started() == old(self).started(),
    {
        self.rows_loaded = rows;
    }

    /// Records a query of second `ts`.
    pub fn record_at(&mut self, ts: u64, is_error: bool)
        requires
            old(self).wf(),
            old(self).total() < u64::MAX,
        ensures
            final(self).wf(),
            final(self).ring() == with_query(old(self).ring(), ts, is_error),
            final(self).total() == old(self).total() + 1,
            final(self).rows() == old(self).rows(),
            final(self).started() == old(self).started(),
    {
        let ghost before = self.ring@;
        let idx: usize = (ts % RING_SIZE as u64) as usize;
        let b: Bucket = self.ring[idx];
        assert(idx == slot(ts as int));
        let (queries, errors): (u64, u64) = if b.ts != ts {
            (0, 0)
        } else {
            (b.queries, b.errors)
        };
        let fresh = Bucket {
            ts,
            queries: queries + 1,
            errors: if is_error {
                errors + 1
            } else {
                errors
            },
        };
        self.ring.set(idx, fresh);
        self.recorded = self.recorded + 1;
        proof {
            assert(self.ring@ =~= with_query(before, ts, is_error));
            lemma_kept_grows_by_one(before, ts, is_error, RING_SIZE as int);
        }
    }

    /// Whether a query was recorded under a second that the clock showed.
    pub open spec fn recorded_now(before: Metrics, after: Metrics, is_error: bool) -> bool {
        exists|ts: u64| #[trigger]
            call_ensures(unix_secs, (), ts) && after.ring() == with_query(
                before.ring(),
                ts,
                is_error,
            )
    }

    /// Records a query that was answered just now.
    pub fn record(&mut self, is_error: bool)
        requires
            old(self).wf(),
            old(self).total() < u64::MAX,
        ensures
            final(self).wf(),
            Metrics::recorded_now(*old(self), *final(self), is_error),
            final(self).total() == old(self).total() + 1,
            final(self).rows() == old(self).rows(),
            final(self).started() == old(self).started(),
    {
        let ts: u64 = unix_secs();
        self.record_at(ts, is_error);
    }

    /// Whether a snapshot shows the state at second `now`.
    ///
    /// Only a window that reaches back beyond the epoch, and takes the seconds
    /// before for its first second, can count so often that 64 bits do not hold it.
    pub open spec fn shown_at(&self, now: u64, s: StatusSnapshot) -> bool {
        &&& s.rows_loaded == self.rows()
        &&& s.queries_1m == capped(within(self.ring(), now, 60, false))
        &&& s.queries_1h == capped(within(self.ring(), now, 3600, false))
        &&& s.queries_24h == capped(within(self.ring(), now, RING_SIZE as int, false))
        &&& s.errors_1m == capped(within(self.ring(), now, 60, true))
        &&& s.errors_1h == capped(within(self.ring(), now, 3600, true))
        &&& s.errors_24h == capped(within(self.ring(), now, RING_SIZE as int, true))
    }

    /// The state at second `now`.
    pub fn snapshot_at(&self, now: u64, uptime_secs: u64) -> (s: StatusSnapshot)
        requires
            self.wf(),
        ensures
            s.uptime_secs == uptime_secs,
            self.shown_at(now, s),
    {
        let ghost ring = self.ring@;
        let mut s = StatusSnapshot {
            uptime_secs,
            rows_loaded: self.rows_loaded,
            queries_1m: 0,
            queries_1h: 0,
            queries_24h: 0,
            errors_1m: 0,
            errors_1h: 0,
            errors_24h: 0,
        };
        let mut i: usize = 0;
        while i < RING_SIZE
            invariant
                self.wf(),
                ring == self.ring(),
                ring == self.ring@,
                i <= RING_SIZE,
                s.uptime_secs == uptime_secs,
                s.rows_loaded == self.rows_loaded,
                s.queries_24h == capped(within(ring, now, i as int, false)),
                s.errors_24h == capped(within(ring, now, i as int, true)),
                s.queries_1h == capped(within(ring, now, least(i as int, 3600), false)),
                s.errors_1h == capped(within(ring, now, least(i as int, 3600), true)),
                s.queries_1m == capped(within(ring, now, least(i as int, 60), false)),
                s.errors_1m == capped(within(ring, now, least(i as int, 60), true)),
            decreases RING_SIZE - i,
        {
            proof {
                lemma_failed_within(ring, now, i as int, self.total() as int);
                lemma_failed_within(ring, now, least(i as int, 3600), self.total() as int);
                lemma_failed_within(ring, now, least(i as int, 60), self.total() as int);
            }
            let ts: u64 = if i as u64 <= now {
                now - i as u64
            } else {
                0
            };
            let idx: usize = (ts % RING_SIZE as u64) as usize;
            assert(ts == back(now, i as int));
            assert(idx == slot(ts as int));
            let b: Bucket = self.ring[idx];
            if b.ts == ts {
                s.queries_24h = s.queries_24h.saturating_add(b.queries);
                s.errors_24h = s.errors_24h.saturating_add(b.errors);
                if i < 3600 {
                    s.queries_1h = s.queries_1h.saturating_add(b.queries);
                    s.errors_1h = s.errors_1h.saturating_add(b.errors);
                }
                if i < 60 {
                    s.queries_1m = s.queries_1m.saturating_add(b.queries);
                    s.errors_1m = s.errors_1m.saturating_add(b.errors);
                }
            }
            i += 1;
        }
        s
    }

    /// Whether a snapshot shows the state at a second that the clock showed.
    pub open spec fn shown_now(&self, s: StatusSnapshot) -> bool {
        exists|now: u64| #[trigger] call_ensures(unix_secs, (), now) && self.shown_at(now, s)
    }

    /// Whether so many whole seconds may have passed since the start.
    pub open spec fn up_for(&self, secs: u64) -> bool {
        exists|span: Duration| #[trigger]
            call_ensures(Instant::elapsed, (&self.started(),), span) && call_ensures(
                Duration::as_secs,
                (&span,),
                secs,
            )
    }

    /// The state just now.
    pub fn snapshot(&self) -> (s: StatusSnapshot)
        requires
            self.wf(),
        ensures
            self.shown_now(s),
            self.up_for(s.uptime_secs),
    {
        let span: Duration = self.started_at.elapsed();
        assert(call_ensures(Instant::elapsed, (&self.started(),), span));
        let now: u64 = unix_secs();
        let uptime: u64 = span.as_secs();
        self.snapshot_at(now, uptime)
    }
}

spec fn least(a: int, b: int) -> int {
    if a <= b {
        a
    } else {
        b
    }
}

/// No more queries failed than there were.
proof fn lemma_failed_within(ring: Seq<Bucket>, now: u64, n: int, limit: int)
    requires
        ring.len() == RING_SIZE,
        counts_up_to(ring, limit),
        0 <= n <= RING_SIZE,
    ensures
        0 <= within(ring, now, n, true) <= within(ring, now, n, false),
    decreases n,
{
    if n > 0 {
        lemma_failed_within(ring, now, n - 1, limit);
        let s = slot(back(now, n - 1));
        assert(0 <= s < RING_SIZE);
        assert(ring[s].errors <= ring[s].queries);
    }
}

/// Where the second that lies `i` seconds back has its bucket.
proof fn lemma_slot_back(now: u64, i: int)
    requires
        0 <= i < RING_SIZE,
        i <= now,
    ensures
        0 <= slot(now as int) < RING_SIZE,
        slot(now - i) == if i <= slot(now as int) {
            slot(now as int) - i
        } else {
            slot(now as int) - i + RING_SIZE
        },
{
    let r = RING_SIZE as int;
    let s = slot(now as int);
    let k = now as int / r;
    vstd::arithmetic::div_mod::lemma_fundamental_div_mod(now as int, r);
    if i <= s {
        assert(now - i == k * r + (s - i)) by (nonlinear_arith)
            requires
                now == r * k + s,
        ;
        vstd::arithmetic::div_mod::lemma_fundamental_div_mod_converse(now - i, r, k, s - i);
    } else {
        assert(now - i == (k - 1) * r + (s - i + r)) by (nonlinear_arith)
            requires
                now == r * k + s,
        ;
        vstd::arithmetic::div_mod::lemma_fundamental_div_mod_converse(
            now - i,
            r,
            k - 1,
            s - i + r,
        );
    }
}

/// The queries of the buckets that the last `n` seconds have, going back from
/// bucket `s` and on from the last bucket.
spec fn kept_back(ring: Seq<Bucket>, s: int, n: int) -> int {
    if n <= s + 1 {
        kept(ring, s + 1) - kept(ring, s + 1 - n)
    } else {
        kept(ring, s + 1) + kept(ring, RING_SIZE as int) - kept(ring, RING_SIZE - (n - s - 1))
    }
}

/// A window counts no query twice, wherever it does not reach back beyond the
/// epoch.
proof fn lemma_within_kept(ring: Seq<Bucket>, now: u64, n: int)
    requires
        ring.len() == RING_SIZE,
        0 <= n <= RING_SIZE,
        n <= now + 1,
    ensures
        within(ring, now, n, false) <= kept_back(ring, slot(now as int), n),
        kept_back(ring, slot(now as int), n) <= kept(ring, RING_SIZE as int),
    decreases n,
{
    let s = slot(now as int);
    assert(0 <= s < RING_SIZE);
    if n > 0 {
        lemma_within_kept(ring, now, n - 1);
        lemma_slot_back(now, n - 1);
        let i = slot(now - (n - 1));
        assert(kept(ring, i + 1) == kept(ring, i) + ring[i].queries);
    }
    if n <= s + 1 {
        lemma_kept_grows(ring, s + 1, RING_SIZE as int);
        lemma_kept_grows(ring, 0, s + 1 - n);
    } else {
        lemma_kept_grows(ring, s + 1, RING_SIZE - (n - s - 1));
    }
}

proof fn lemma_kept_grows(ring: Seq<Bucket>, a: int, b: int)
    requires
        0 <= a <= b,
    ensures
        0 <= kept(ring, a) <= kept(ring, b),
    decreases b,
{
    if a < b {
        lemma_kept_grows(ring, a, b - 1);
    } else if b > 0 {
        lemma_kept_grows(ring, b - 1, b - 1);
    }
}

/// Recording a query adds one query to the buckets at most.
proof fn lemma_kept_grows_by_one(ring: Seq<Bucket>, ts: u64, is_error: bool, n: int)
    requires
        ring.len() == RING_SIZE,
        ring[slot(ts as int)].queries < u64::MAX,
        0 <= n <= RING_SIZE,
    ensures
        kept(with_query(ring, ts, is_error), n) <= kept(ring, n) + if slot(ts as int) < n {
            1int
        } else {
            0
        },
    decreases n,
{
    if n > 0 {
        lemma_kept_grows_by_one(ring, ts, is_error, n - 1);
        assert(0 <= slot(ts as int) < RING_SIZE);
    }
}

/// The windows are nested, and no more queries failed than there were.
pub proof fn law_windows_are_nested(m: Metrics, now: u64, s: StatusSnapshot)
    requires
        m.wf(),
        m.shown_at(now, s),
    ensures
        s.queries_1m <= s.queries_1h <= s.queries_24h,
        s.errors_1m <= s.errors_1h <= s.errors_24h,
        s.errors_1m <= s.queries_1m,
        s.errors_1h <= s.queries_1h,
        s.errors_24h <= s.queries_24h,
{
    lemma_within_grows(m.ring(), now, 60, 3600);
    lemma_within_grows(m.ring(), now, 3600, RING_SIZE as int);
    lemma_failed_within(m.ring(), now, 60, m.total() as int);
    lemma_failed_within(m.ring(), now, 3600, m.total() as int);
    lemma_failed_within(m.ring(), now, RING_SIZE as int, m.total() as int);
}

proof fn lemma_within_grows(ring: Seq<Bucket>, now: u64, a: int, b: int)
    requires
        0 <= a <= b,
    ensures
        within(ring, now, a, true) <= within(ring, now, b, true),
        within(ring, now, a, false) <= within(ring, now, b, false),
    decreases b,
{
    if a < b {
        lemma_within_grows(ring, now, a, b - 1);
    }
}

/// A query of the last day that is recorded shows: it counts once in every window
/// that reaches back to its second, and changes no other count.
///
/// Windows that reach back beyond the epoch are excluded: there the seconds before
/// the epoch are taken for its first second.
pub proof fn law_recorded_query_shows(
    ring: Seq<Bucket>,
    ts: u64,
    is_error: bool,
    now: u64,
    n: int,
    limit: int,
)
    requires
        ring.len() == RING_SIZE,
        counts_up_to(ring, limit),
        limit < u64::MAX,
        ts <= now,
        now - ts < RING_SIZE,
        0 <= n <= RING_SIZE,
        n <= now + 1,
    ensures
        within(with_query(ring, ts, is_error), now, n, false) == within(ring, now, n, false) + if now
            - ts < n {
            1int
        } else {
            0
        },
        within(with_query(ring, ts, is_error), now, n, true) == within(ring, now, n, true) + if now
            - ts < n && is_error {
            1int
        } else {
            0
        },
    decreases n,
{
    if n > 0 {
        law_recorded_query_shows(ring, ts, is_error, now, n - 1, limit);
        let after = with_query(ring, ts, is_error);
        let i = n - 1;
        let second = now - i;
        assert(back(now, i) == second);
        assert(0 <= slot(ts as int) < RING_SIZE);
        let b = ring[slot(ts as int)];
        assert(b.queries <= limit && b.errors <= b.queries);
        if second != ts {
            lemma_slots_differ(ts as int, second);
        }
    }
}

/// Recording a query adds one to the queries of every window, and one to the
/// errors if it failed; nothing else changes.
///
/// The first day after the epoch is excluded: in it windows reach back beyond the
/// epoch, and the seconds before are taken for its first second.
pub proof fn law_recording_adds_one(
    before: Metrics,
    after: Metrics,
    now: u64,
    is_error: bool,
    s: StatusSnapshot,
    t: StatusSnapshot,
)
    requires
        before.wf(),
        before.total() < u64::MAX,
        after.ring() == with_query(before.ring(), now, is_error),
        after.rows() == before.rows(),
        before.shown_at(now, s),
        after.shown_at(now, t),
        now >= RING_SIZE - 1,
    ensures
        t.queries_1m == s.queries_1m + 1,
        t.queries_1h == s.queries_1h + 1,
        t.queries_24h == s.queries_24h + 1,
        t.errors_1m == s.errors_1m + one_if(is_error),
        t.errors_1h == s.errors_1h + one_if(is_error),
        t.errors_24h == s.errors_24h + one_if(is_error),
        t.rows_loaded == s.rows_loaded,
{
    lemma_window_gains_one(before, now, is_error, 60);
    lemma_window_gains_one(before, now, is_error, 3600);
    lemma_window_gains_one(before, now, is_error, RING_SIZE as int);
}

pub open spec fn one_if(b: bool) -> int {
    if b {
        1
    } else {
        0
    }
}

proof fn lemma_window_gains_one(m: Metrics, now: u64, is_error: bool, n: int)
    requires
        m.wf(),
        m.total() < u64::MAX,
        now >= RING_SIZE - 1,
        0 < n <= RING_SIZE,
    ensures
        ({
            let ring = m.ring();
            let more = with_query(ring, now, is_error);
            &&& 0 <= within(ring, now, n, true) <= within(ring, now, n, false) < u64::MAX
            &&& within(more, now, n, false) == within(ring, now, n, false) + 1
            &&& within(more, now, n, true) == within(ring, now, n, true) + one_if(is_error)
        }),
{
    law_recorded_query_shows(m.ring(), now, is_error, now, n, m.total() as int);
    lemma_within_kept(m.ring(), now, n);
    lemma_failed_within(m.ring(), now, n, m.total() as int);
}

/// The second that the clock shows is read off a moment of the system's clock.
pub(crate) proof fn law_second_is_that_of_the_clock(r: u64)
    requires
        call_ensures(unix_secs, (), r),
        forall|moment: SystemTime, span: Result<Duration, SystemTimeError>| #[trigger]
            call_ensures(clock::since_epoch, (&moment,), span) ==> span is Ok,
    ensures
        exists|moment: SystemTime, d: Duration|
            #[trigger] call_ensures(SystemTime::now, (), moment) && call_ensures(
                clock::since_epoch,
                (&moment,),
                Ok::<Duration, SystemTimeError>(d),
            ) && #[trigger] call_ensures(Duration::as_secs, (&d,), r),
{
    let moment = choose|moment: SystemTime| #[trigger]
        call_ensures(SystemTime::now, (), moment) && is_second_of(moment, r);
    let span = choose|span: Result<Duration, SystemTimeError>| #[trigger]
        call_ensures(clock::since_epoch, (&moment,), span) && match span {
            Ok(d) => call_ensures(Duration::as_secs, (&d,), r),
            Err(_) => r == 0,
        };
    let d = span->Ok_0;
    assert(call_ensures(Duration::as_secs, (&d,), r));
}

/// Recording and showing go by one clock: a query that is recorded while the clock
/// stands at a second counts once in all windows of a snapshot that is taken then.
pub proof fn law_query_just_recorded_shows(
    before: Metrics,
    after: Metrics,
    is_error: bool,
    now: u64,
    s: StatusSnapshot,
    t: StatusSnapshot,
)
    requires
        before.wf(),
        before.total() < u64::MAX,
        now >= RING_SIZE - 1,
        Metrics::recorded_now(before, after, is_error),
        before.shown_now(s),
        after.shown_now(t),
        forall|ts: u64| #[trigger] call_ensures(unix_secs, (), ts) ==> ts == now,
    ensures
        t.queries_1m == s.queries_1m + 1,
        t.queries_1h == s.queries_1h + 1,
        t.queries_24h == s.queries_24h + 1,
        t.errors_1m == s.errors_1m + one_if(is_error),
        t.errors_1h == s.errors_1h + one_if(is_error),
        t.errors_24h == s.errors_24h + one_if(is_error),
{
    lemma_window_gains_one(before, now, is_error, 60);
    lemma_window_gains_one(before, now, is_error, 3600);
    lemma_window_gains_one(before, now, is_error, RING_SIZE as int);
}

/// A query that was recorded less than a minute before a snapshot, by the clock,
/// counts in its last minute; so for the hour and the day, and for errors.
pub proof fn law_recent_query_shows(
    before: Metrics,
    after: Metrics,
    is_error: bool,
    age: u64,
    t: StatusSnapshot,
)
    requires
        before.wf(),
        before.total() < u64::MAX,
        Metrics::recorded_now(before, after, is_error),
        after.shown_now(t),
        age < RING_SIZE,
        forall|ts: u64, now: u64|
            #![trigger call_ensures(unix_secs, (), ts), call_ensures(unix_secs, (), now)]
            call_ensures(unix_secs, (), ts) && after.ring() == with_query(
                before.ring(),
                ts,
                is_error,
            ) && call_ensures(unix_secs, (), now) && after.shown_at(now, t) ==> ts <= now <= ts
                + age && now >= RING_SIZE - 1,
    ensures
        age < 60 ==> t.queries_1m >= 1 && t.errors_1m >= one_if(is_error),
        age < 3600 ==> t.queries_1h >= 1 && t.errors_1h >= one_if(is_error),
        t.queries_24h >= 1 && t.errors_24h >= one_if(is_error),
{
    let ts = choose|ts: u64| #[trigger]
        call_ensures(unix_secs, (), ts) && after.ring() == with_query(
            before.ring(),
            ts,
            is_error,
        );
    let now = choose|now: u64| #[trigger]
        call_ensures(unix_secs, (), now) && after.shown_at(now, t);
    let total = before.total() as int;
    law_recorded_query_shows(before.ring(), ts, is_error, now, 60, total);
    law_recorded_query_shows(before.ring(), ts, is_error, now, 3600, total);
    law_recorded_query_shows(before.ring(), ts, is_error, now, RING_SIZE as int, total);
    lemma_failed_within(before.ring(), now, 60, total);
    lemma_failed_within(before.ring(), now, 3600, total);
    lemma_failed_within(before.ring(), now, RING_SIZE as int, total);
}

/// The uptime is the whole seconds of the time that has passed since the start.
pub proof fn law_uptime_counts_from_the_start(m: Metrics, secs: u64)
    requires
        m.up_for(secs),
    ensures
        exists|span: Duration| #[trigger]
            call_ensures(Instant::elapsed, (&m.started(),), span) && call_ensures(
                Duration::as_secs,
                (&span,),
                secs,
            ),
{
}

/// Recording goes on step by step: recording one query more is a history with one
/// query more.
pub proof fn law_recording_goes_on(history: Seq<Recorded>, ts: u64, is_error: bool)
    ensures
        with_query(ring_of(history), ts, is_error) == ring_of(
            history.push(Recorded { ts, is_error }),
        ),
{
    assert(history.push(Recorded { ts, is_error }).drop_last() =~= history);
}

/// A snapshot counts, per window, the queries recorded since the start that are
/// less than so many seconds old, and those of them that failed.
///
/// The first day after the epoch is excluded: in it windows reach back beyond the
/// epoch, and the seconds before are taken for its first second.
pub proof fn law_snapshot_counts_the_history(
    m: Metrics,
    history: Seq<Recorded>,
    now: u64,
    s: StatusSnapshot,
)
    requires
        m.wf(),
        m.total() == history.len(),
        m.ring() == ring_of(history),
        in_time(history, now),
        now >= RING_SIZE - 1,
        m.shown_at(now, s),
    ensures
        s.queries_1m == younger_than(history, now, 60, false),
        s.queries_1h == younger_than(history, now, 3600, false),
        s.queries_24h == younger_than(history, now, 86_400, false),
        s.errors_1m == younger_than(history, now, 60, true),
        s.errors_1h == younger_than(history, now, 3600, true),
        s.errors_24h == younger_than(history, now, 86_400, true),
        s.rows_loaded == m.rows(),
{
    lemma_window_counts(history, now, 60);
    lemma_window_counts(history, now, 3600);
    lemma_window_counts(history, now, RING_SIZE as int);
}

/// No bucket is of a later second than the last query, nor counts more queries
/// than there were.
proof fn lemma_ring_of(history: Seq<Recorded>, now: u64)
    requires
        in_time(history, now),
        history.len() <= u64::MAX,
    ensures
        ring_of(history).len() == RING_SIZE,
        counts_up_to(ring_of(history), history.len() as int),
        forall|i: int|
            0 <= i < RING_SIZE ==> (#[trigger] ring_of(history)[i]).ts <= if history.len() == 0 {
                0
            } else {
                history.last().ts
            },
    decreases history.len(),
{
    if history.len() > 0 {
        let before = history.drop_last();
        let e = history.last();
        assert forall|k: int| 0 <= k < before.len() implies (#[trigger] before[k]).ts <= e.ts by {
            assert(before[k] == history[k]);
        }
        lemma_ring_of(before, now);
        assert(0 <= slot(e.ts as int) < RING_SIZE);
        let b = ring_of(before)[slot(e.ts as int)];
        assert(b.queries <= before.len() && b.errors <= b.queries);
    }
}

proof fn lemma_window_counts(history: Seq<Recorded>, now: u64, n: int)
    requires
        in_time(history, now),
        history.len() <= u64::MAX,
        now >= RING_SIZE - 1,
        0 <= n <= RING_SIZE,
    ensures
        younger_than(history, now, n, false) <= history.len(),
        younger_than(history, now, n, true) <= history.len(),
        within(ring_of(history), now, n, false) == younger_than(history, now, n, false),
        within(ring_of(history), now, n, true) == younger_than(history, now, n, true),
    decreases history.len(),
{
    reveal(Seq::filter);
    if history.len() == 0 {
        lemma_nothing_within(now, n);
    } else {
        let before = history.drop_last();
        let e = history.last();
        assert(in_time(before, now)) by {
            assert forall|k: int| 0 <= k < before.len() implies (#[trigger] before[k]).ts
                <= now by {
                assert(before[k] == history[k]);
            }
        }
        lemma_window_counts(before, now, n);
        lemma_ring_of(before, now);
        if before.len() > 0 {
            assert(before.last() == history[before.len() - 1]);
        }
        assert(e == history[history.len() - 1]);
        if now - e.ts < RING_SIZE {
            law_recorded_query_shows(
                ring_of(before),
                e.ts,
                e.is_error,
                now,
                n,
                before.len() as int,
            );
        } else {
            lemma_old_query_does_not_show(ring_of(before), e.ts, e.is_error, now, n);
        }
    }
}

/// Nothing is counted where nothing was recorded.
proof fn lemma_nothing_kept(n: int)
    requires
        0 <= n <= RING_SIZE,
    ensures
        kept(ring_of(Seq::empty()), n) == 0,
    decreases n,
{
    if n > 0 {
        lemma_nothing_kept(n - 1);
    }
}

proof fn lemma_nothing_within(now: u64, n: int)
    requires
        0 <= n <= RING_SIZE,
    ensures
        within(ring_of(Seq::empty()), now, n, false) == 0,
        within(ring_of(Seq::empty()), now, n, true) == 0,
    decreases n,
{
    if n > 0 {
        lemma_nothing_within(now, n - 1);
        assert(0 <= slot(back(now, n - 1)) < RING_SIZE);
    }
}

/// A query that is older than a day changes no count, where no later one was
/// recorded.
proof fn lemma_old_query_does_not_show(
    ring: Seq<Bucket>,
    ts: u64,
    is_error: bool,
    now: u64,
    n: int,
)
    requires
        ring.len() == RING_SIZE,
        forall|i: int| 0 <= i < RING_SIZE ==> (#[trigger] ring[i]).ts <= ts,
        now - ts >= RING_SIZE,
        0 <= n <= RING_SIZE,
    ensures
        within(with_query(ring, ts, is_error), now, n, false) == within(ring, now, n, false),
        within(with_query(ring, ts, is_error), now, n, true) == within(ring, now, n, true),
    decreases n,
{
    if n > 0 {
        lemma_old_query_does_not_show(ring, ts, is_error, now, n - 1);
        let second = back(now, n - 1);
        assert(second > ts);
        assert(0 <= slot(second) < RING_SIZE);
        assert(0 <= slot(ts as int) < RING_SIZE);
        assert(ring[slot(second)].ts <= ts);
    }
}

/// Seconds of the same day have buckets of their own.
proof fn lemma_slots_differ(a: int, b: int)
    requires
        0 <= a,
        0 <= b,
        a != b,
        -86_400 < a - b < 86_400,
    ensures
        slot(a) != slot(b),
{
    if slot(a) == slot(b) {
        let r = 86_400int;
        vstd::arithmetic::div_mod::lemma_fundamental_div_mod(a, r);
        vstd::arithmetic::div_mod::lemma_fundamental_div_mod(b, r);
        let p = a / r;
        let q = b / r;
        assert(a - b == r * (p - q)) by (nonlinear_arith)
            requires
                a == r * p + slot(a),
                b == r * q + slot(b),
                slot(a) == slot(b),
        ;
        assert(p == q) by (nonlinear_arith)
            requires
                a - b == r * (p - q),
                -r < a - b < r,
                r == 86_400,
        ;
    }
}

} // verus!
