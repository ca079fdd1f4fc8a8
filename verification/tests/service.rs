use stats_cruncher::api::dto::{
    epoch_to_rfc3339, error_status, rejection_status, BodyFault, BoundValue, ErrorResponse,
    QueryRequest, QueryResponse, RangeDto, RangeOrList, StatusResponse, TimeText,
};
use stats_cruncher::clock::FileTime;
use stats_cruncher::error::AppError;
use stats_cruncher::float64::Float64;
use stats_cruncher::metrics::{second_of, unix_secs, Metrics};
use stats_cruncher::name_map::NameMap;
use stats_cruncher::query::{
    ColumnKind, Comparison, NumericStats, Query, RangeFilter, Response,
};
use stats_cruncher::reload::{require_store, Stamp, Step, Watcher};

fn f(x: f64) -> Float64 {
    Float64 { bits: x.to_bits() }
}

fn g(x: Float64) -> f64 {
    f64::from_bits(x.bits)
}

fn dto() -> RangeDto {
    RangeDto { eq: None, gt: None, gte: None, lt: None, lte: None }
}

fn number(x: f64) -> Option<BoundValue> {
    Some(BoundValue::Number(f(x)))
}

fn shape(r: &RangeFilter) -> (Option<(f64, Comparison)>, Option<(f64, Comparison)>) {
    (
        r.lower.map(|b| (g(b.value), b.comparison)),
        r.upper.map(|b| (g(b.value), b.comparison)),
    )
}

#[test]
fn ranges_become_filters() {
    let r = RangeFilter::try_from(&dto()).unwrap();
    assert_eq!(shape(&r), (None, None));
    let r = RangeFilter::try_from(&RangeDto { gte: number(1.0), lt: number(2.0), ..dto() }).unwrap();
    assert_eq!(shape(&r), (Some((1.0, Comparison::Gte)), Some((2.0, Comparison::Lt))));
    let r = RangeFilter::try_from(&RangeDto { gt: number(1.0), lte: number(2.0), ..dto() }).unwrap();
    assert_eq!(shape(&r), (Some((1.0, Comparison::Gt)), Some((2.0, Comparison::Lte))));
    // Of two bounds on the same side the inclusive one counts.
    let r = RangeFilter::try_from(&RangeDto {
        gt: number(5.0),
        gte: number(1.0),
        lt: number(0.0),
        lte: number(2.0),
        ..dto()
    })
    .unwrap();
    assert_eq!(shape(&r), (Some((1.0, Comparison::Gte)), Some((2.0, Comparison::Lte))));
    // `eq` stands alone.
    let r = RangeFilter::try_from(&RangeDto { eq: number(7.0), gt: number(9.0), ..dto() }).unwrap();
    assert_eq!(shape(&r), (Some((7.0, Comparison::Gte)), Some((7.0, Comparison::Lte))));
}

#[test]
fn date_times_stand_for_their_second() {
    let day = BoundValue::DateTime(" 2026-04-19T02:00:00.9+02:00 ".to_string());
    assert_eq!(day.to_number().map(g), Ok(1_776_556_800.0));
    let bare = BoundValue::DateTime("2026-04-19".to_string());
    let message = bare.to_number().unwrap_err();
    assert!(message.starts_with("invalid RFC3339 date-time \"2026-04-19\": "));
    let bad = RangeDto { lt: Some(BoundValue::DateTime("x".to_string())), ..dto() };
    assert!(RangeFilter::try_from(&bad).is_err());
    let bad = RangeDto { gt: Some(BoundValue::DateTime("x".to_string())), ..dto() };
    assert!(RangeFilter::try_from(&bad).is_err());
    let bad = RangeDto { eq: Some(BoundValue::DateTime("x".to_string())), ..dto() };
    assert!(RangeFilter::try_from(&bad).is_err());
}

#[test]
fn requests_become_queries() {
    let mut req = QueryRequest {
        must: NameMap::new(),
        must_not: NameMap::new(),
        ranges: NameMap::new(),
    };
    req.must.insert("b".to_string(), vec!["x".to_string(), "y".to_string()]);
    req.must.insert("a".to_string(), vec![]);
    req.must_not.insert("c".to_string(), vec!["z".to_string()]);
    req.ranges.insert("n".to_string(), RangeOrList::One(RangeDto { gt: number(1.0), ..dto() }));
    req.ranges.insert(
        "m".to_string(),
        RangeOrList::Many(vec![
            RangeDto { eq: number(1.0), ..dto() },
            RangeDto { eq: number(2.0), ..dto() },
        ]),
    );
    let q = Query::try_from(req).unwrap();
    assert_eq!(q.must.0.len(), 2);
    assert_eq!(q.must.0.get("b").unwrap().values, vec!["x", "y"]);
    assert_eq!(q.must.0.get("a").unwrap().values, Vec::<String>::new());
    assert_eq!(q.must_not.0.get("c").unwrap().values, vec!["z"]);
    assert_eq!(q.ranges.get("n").unwrap().len(), 1);
    let m = q.ranges.get("m").unwrap();
    assert_eq!(shape(&m[1]).0, Some((2.0, Comparison::Gte)));
}

#[test]
fn the_first_wrong_range_is_reported() {
    let mut req = QueryRequest {
        must: NameMap::new(),
        must_not: NameMap::new(),
        ranges: NameMap::new(),
    };
    let bad = |s: &str| RangeDto { eq: Some(BoundValue::DateTime(s.to_string())), ..dto() };
    req.ranges.insert("b".to_string(), RangeOrList::One(bad("late")));
    req.ranges.insert("a".to_string(), RangeOrList::Many(vec![dto(), bad("soon"), bad("later")]));
    let message = Query::try_from(req).err().unwrap();
    assert!(message.starts_with("invalid RFC3339 date-time \"soon\": "));
}

#[test]
fn responses_show_each_column_by_its_kind() {
    let mut r = Response::default();
    r.matched_rows = 3;
    let stats = |count: u64, min: f64, max: f64| NumericStats {
        count,
        sum: f(6.5),
        min: f(min),
        max: f(max),
    };
    r.numeric.insert("n".to_string(), stats(2, 1.0, 5.5));
    r.numeric.insert("none".to_string(), NumericStats::empty());
    r.numeric.insert("t".to_string(), stats(2, 0.0, 1_776_556_800.0));
    r.numeric.insert("t0".to_string(), NumericStats::empty());
    r.column_types.insert("n".to_string(), ColumnKind::Numeric);
    r.column_types.insert("t".to_string(), ColumnKind::DateTime);
    r.column_types.insert("t0".to_string(), ColumnKind::DateTime);
    let mut counts = NameMap::new();
    counts.insert("DE".to_string(), 2);
    r.string_counts.insert("country".to_string(), counts);
    let q = QueryResponse::from(r);
    assert_eq!(q.matched_rows, 3);
    assert_eq!(q.string_counts.get("country").unwrap().get("DE"), Some(&2));
    let n = q.numeric.get("n").unwrap();
    assert_eq!((n.count, n.sum.map(g), n.min.map(g), n.max.map(g)), (2, Some(6.5), Some(1.0), Some(5.5)));
    assert!(n.oldest.is_none() && n.newest.is_none());
    let none = q.numeric.get("none").unwrap();
    assert_eq!((none.count, none.sum.map(g)), (0, Some(0.0)));
    assert!(none.min.is_none() && none.max.is_none());
    let t = q.numeric.get("t").unwrap();
    assert!(t.sum.is_none() && t.min.is_none() && t.max.is_none());
    assert!(matches!(&t.oldest, Some(TimeText::Text(s)) if s == "1970-01-01T00:00:00Z"));
    assert!(matches!(&t.newest, Some(TimeText::Text(s)) if s == "2026-04-19T00:00:00Z"));
    let t0 = q.numeric.get("t0").unwrap();
    assert_eq!(t0.count, 0);
    assert!(t0.oldest.is_none() && t0.newest.is_none());
}

#[test]
fn seconds_beyond_the_calendar_are_shown_as_numbers() {
    assert!(matches!(epoch_to_rfc3339(f(1e18)), TimeText::Epoch(x) if g(x) == 1e18));
    assert!(matches!(
        epoch_to_rfc3339(f(-1.5)),
        TimeText::Text(s) if s == "1969-12-31T23:59:59Z"
    ));
}

#[test]
fn statuses() {
    assert_eq!(error_status(&AppError::Query("x".to_string())), 400);
    for e in [
        AppError::Config(String::new()),
        AppError::Ingestion(String::new()),
        AppError::Storage(String::new()),
        AppError::Execution(String::new()),
        AppError::Io(String::new()),
    ] {
        assert_eq!(error_status(&e), 500);
    }
    assert_eq!(rejection_status(BodyFault::Syntax), 400);
    assert_eq!(rejection_status(BodyFault::ContentType), 415);
    assert_eq!(rejection_status(BodyFault::Other), 422);
    assert_eq!(ErrorResponse::new("m".to_string()).error, "m");
}

#[test]
fn error_lines() {
    let m = || "m".to_string();
    assert_eq!(AppError::Config(m()).to_string(), "config error: m");
    assert_eq!(AppError::Ingestion(m()).to_string(), "ingestion error: m");
    assert_eq!(AppError::Storage(m()).to_string(), "storage error: m");
    assert_eq!(AppError::Query(m()).to_string(), "query error: m");
    assert_eq!(AppError::Execution(m()).to_string(), "execution error: m");
    assert_eq!(AppError::Io(m()).to_string(), "io error: m");
}

#[test]
fn queries_are_counted_per_window() {
    let now = 1_776_556_800;
    let mut m = Metrics::new(7);
    m.record_at(now, false);
    m.record_at(now, true);
    m.record_at(now - 59, false);
    m.record_at(now - 60, true);
    m.record_at(now - 3599, false);
    m.record_at(now - 3600, false);
    m.record_at(now - 86_399, true);
    let s = m.snapshot_at(now, 12);
    assert_eq!((s.uptime_secs, s.rows_loaded), (12, 7));
    assert_eq!((s.queries_1m, s.queries_1h, s.queries_24h), (3, 5, 7));
    assert_eq!((s.errors_1m, s.errors_1h, s.errors_24h), (1, 2, 3));
    // A second later, and a day later.
    let s = m.snapshot_at(now + 1, 13);
    assert_eq!((s.queries_1m, s.queries_1h, s.queries_24h), (2, 4, 6));
    let s = m.snapshot_at(now + 86_400, 14);
    assert_eq!((s.queries_24h, s.errors_24h), (0, 0));
    assert_eq!(m.recorded(), 7);
    // The bucket of a second is taken over a day later.
    m.record_at(now + 86_400, false);
    assert_eq!(m.snapshot_at(now + 86_400, 0).queries_24h, 1);
    assert_eq!(m.snapshot_at(now, 0).queries_1m, 1);
}

#[test]
fn windows_count_a_whole_history() {
    let now: u64 = 1_776_556_800;
    // Ages in seconds, oldest first; some are so old that their buckets were taken
    // over.
    let ages = [200_000, 172_860, 86_460, 86_400, 86_399, 3_600, 3_599, 60, 60, 59, 0];
    let mut m = Metrics::new(0);
    for (k, age) in ages.iter().enumerate() {
        m.record_at(now - age, k % 2 == 0);
    }
    let s = m.snapshot_at(now, 0);
    let count = |w: u64| ages.iter().filter(|a| **a < w).count() as u64;
    let failed = |w: u64| {
        ages.iter().enumerate().filter(|(k, a)| **a < w && k % 2 == 0).count() as u64
    };
    assert_eq!((s.queries_1m, s.queries_1h, s.queries_24h), (count(60), count(3600), count(86_400)));
    assert_eq!((s.errors_1m, s.errors_1h, s.errors_24h), (failed(60), failed(3600), failed(86_400)));
    assert_eq!((s.queries_1m, s.errors_1m, s.queries_24h, s.errors_24h), (2, 1, 7, 4));
}

#[test]
fn recording_adds_one_to_every_window() {
    let now: u64 = 1_776_556_800;
    let mut m = Metrics::new(3);
    for age in [70_000, 1_000, 10] {
        m.record_at(now - age, false);
    }
    for is_error in [false, true] {
        let s = m.snapshot_at(now, 0);
        m.record_at(now, is_error);
        let t = m.snapshot_at(now, 0);
        assert_eq!(t.queries_1m, s.queries_1m + 1);
        assert_eq!(t.queries_1h, s.queries_1h + 1);
        assert_eq!(t.queries_24h, s.queries_24h + 1);
        assert_eq!(t.errors_1m, s.errors_1m + u64::from(is_error));
        assert_eq!(t.errors_1h, s.errors_1h + u64::from(is_error));
        assert_eq!(t.errors_24h, s.errors_24h + u64::from(is_error));
        assert_eq!(t.rows_loaded, s.rows_loaded);
    }
    // In the first day the seconds before the epoch count as its first.
    let mut m = Metrics::new(0);
    m.record_at(0, false);
    assert_eq!(m.snapshot_at(1, 0).queries_1m, 59);
}

#[test]
fn the_clock_is_read() {
    // Later than the beginning of 2020.
    assert!(unix_secs() > 1_577_836_800);
    // A clock set to a time before the epoch counts as standing at it.
    assert_eq!((second_of(Some(7)), second_of(None)), (7, 0));
    let mut m = Metrics::new(1);
    m.record(true);
    m.set_rows_loaded(9);
    let s = m.snapshot();
    assert_eq!((s.queries_1h, s.errors_1h, s.rows_loaded), (1, 1, 9));
    let r = StatusResponse::from(&s);
    assert_eq!((r.queries.last_1h, r.errors.last_1h, r.rows_loaded), (1, 1, 9));
    assert!(r.uptime_secs < 60);
}

fn stamp(config: i128, data: i128) -> Stamp {
    Stamp { config: Some(FileTime { nanos: config }), data: Some(FileTime { nanos: data }) }
}

#[test]
fn reloading_can_be_disabled() {
    assert!(Watcher::start(0, stamp(1, 1)).is_none());
    assert_eq!(Watcher::start(15, stamp(1, 1)).unwrap().first(), Step::Sleep(900));
}

#[test]
fn changes_are_loaded_once_they_settle() {
    let mut w = Watcher::start(5, stamp(1, 1)).unwrap();
    assert_eq!(w.observe(stamp(1, 1)), Step::Sleep(300));
    assert_eq!(w.observe(stamp(1, 2)), Step::Sleep(60));
    assert_eq!(w.observe(stamp(1, 3)), Step::Sleep(60));
    assert_eq!(w.observe(stamp(1, 3)), Step::ReloadData);
    assert_eq!(w.report(Some(stamp(1, 3))), Step::Sleep(300));
    assert_eq!(w.observe(stamp(1, 3)), Step::Sleep(300));
    // Both files at once: the configuration is read anew.
    assert_eq!(w.observe(stamp(2, 4)), Step::Sleep(60));
    assert_eq!(w.observe(stamp(2, 4)), Step::ReloadConfig);
    // A failure keeps the state, and the change is seen again.
    assert_eq!(w.report(None), Step::Sleep(300));
    assert_eq!(w.observe(stamp(2, 4)), Step::Sleep(60));
    assert_eq!(w.observe(stamp(2, 4)), Step::ReloadConfig);
    assert_eq!(w.report(Some(stamp(2, 4))), Step::Sleep(300));
    assert_eq!(w.observe(stamp(2, 4)), Step::Sleep(300));
}

#[test]
fn nothing_is_loaded_without_a_config_file() {
    let mut w = Watcher::start(1, stamp(1, 1)).unwrap();
    let gone = Stamp { config: None, ..stamp(1, 2) };
    assert_eq!(w.observe(gone), Step::Sleep(60));
    assert_eq!(w.observe(gone), Step::Sleep(60));
    assert_eq!(w.observe(stamp(1, 2)), Step::Sleep(60));
    assert_eq!(w.observe(stamp(1, 2)), Step::ReloadData);
}

#[test]
fn the_first_load_has_to_produce_data() {
    assert_eq!(
        require_store(Ok(None)).err().unwrap().to_string(),
        "ingestion error: initial ingestion produced no data"
    );
    let e = require_store(Err(AppError::Config("x".to_string()))).err().unwrap();
    assert_eq!(e.to_string(), "config error: x");
}
