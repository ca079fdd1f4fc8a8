use std::sync::Arc;

use stats_cruncher::config::{
    ApiConfig, AppConfig, ColumnType, EngineConfig, SearchableColumn, SourceConfig,
};
use stats_cruncher::error::AppError;
use stats_cruncher::execution::planning::{build_skip_mask, validate, zone_overlaps};
use stats_cruncher::execution::{Aggregator, Coordinator, Submission};
use stats_cruncher::float64::Float64;
use stats_cruncher::ingestion;
use stats_cruncher::name_map::NameMap;
use stats_cruncher::query::{
    ColumnKind, Comparison, Must, MustNot, NumericBound, NumericStats, Query, QueryId, RangeFilter,
    Response, StringMatch,
};
use stats_cruncher::resource;
use stats_cruncher::storage::{ColumnStore, RawValue};

fn f(x: f64) -> Float64 {
    Float64 { bits: x.to_bits() }
}

fn g(x: Float64) -> f64 {
    f64::from_bits(x.bits)
}

fn mk_cfg(chunk: usize, partition: Option<&str>) -> AppConfig {
    let mut searchable = NameMap::new();
    let mut add = |n: &str, t: ColumnType, hidden: bool| {
        searchable.insert(n.to_string(), SearchableColumn { column_type: t, hidden });
    };
    add("amount", ColumnType::Float, false);
    add("at", ColumnType::DateTime, false);
    add("country", ColumnType::String, false);
    add("id", ColumnType::Integer, true);
    AppConfig {
        source: SourceConfig::Csv { path: "/dev/null".to_string(), delimiter: None, gzip: false },
        engine: EngineConfig {
            memory_limit: u64::MAX,
            chunk_size_rows: chunk,
            worker_threads: 0,
            string_value_counts: true,
            reload_interval_mins: 0,
        },
        api: ApiConfig { bind: "0.0.0.0:0".to_string() },
        searchable,
        partition_column: partition.map(|s| s.to_string()),
    }
}

fn mk_store(cfg: &AppConfig, amounts: &[Option<f64>]) -> ColumnStore {
    let countries = ["DE", "PL", "FR"];
    let mut store = ColumnStore::new(cfg);
    for (i, a) in amounts.iter().enumerate() {
        store
            .push_row(&[
                a.map_or(RawValue::Null, |x| RawValue::Float(f(x))),
                RawValue::Integer(1000 + i as i64),
                RawValue::Str(countries[i % 3]),
                RawValue::Integer(i as i64),
            ])
            .unwrap();
    }
    ingestion::finalize(store, cfg).unwrap()
}

fn empty_query() -> Query {
    Query { must: Must::default(), must_not: MustNot::default(), ranges: NameMap::new() }
}

fn range(lower: Option<(f64, Comparison)>, upper: Option<(f64, Comparison)>) -> RangeFilter {
    let b = |x: Option<(f64, Comparison)>| {
        x.map(|(v, c)| NumericBound { value: f(v), comparison: c })
    };
    RangeFilter { lower: b(lower), upper: b(upper) }
}

fn on_amount(filters: Vec<RangeFilter>) -> Query {
    let mut q = empty_query();
    q.ranges.insert("amount".to_string(), filters);
    q
}

fn matching(values: &[&str]) -> StringMatch {
    StringMatch { values: values.iter().map(|s| s.to_string()).collect() }
}

/// Runs a query to its end, taking the tasks from the back if asked to.
fn run(c: &mut Coordinator, q: Query, backwards: bool) -> (usize, Response) {
    match c.submit(q).unwrap() {
        Submission::Done(r) => (0, c.present(r)),
        Submission::Waiting { query_id, mut tasks } => {
            let n = tasks.len();
            if backwards {
                tasks.reverse();
            }
            let worker = c.worker();
            let mut answer = None;
            for (i, t) in tasks.iter().enumerate() {
                assert_eq!(t.query_id, query_id);
                answer = c.finalize(query_id, worker.execute(t));
                assert_eq!(answer.is_some(), i + 1 == n);
            }
            (n, c.present(answer.unwrap()))
        }
    }
}

#[test]
fn answers_do_not_depend_on_chunks() {
    let amounts: Vec<Option<f64>> =
        (0..23).map(|i| if i % 5 == 4 { None } else { Some(f64::from(i * 7 % 11)) }).collect();
    let mut expected: Option<(u64, u64, f64, f64, f64, u64)> = None;
    for chunk in [1, 2, 7, 22, 23, 24, 1000] {
        for partition in [None, Some("amount"), Some("at")] {
            let cfg = mk_cfg(chunk, partition);
            let store = Arc::new(mk_store(&cfg, &amounts));
            let mut c = Coordinator::start(cfg, store);
            for backwards in [false, true] {
                let mut q = on_amount(vec![range(Some((2.0, Comparison::Gte)), None)]);
                q.must.0.insert("country".to_string(), matching(&["DE", "FR"]));
                let (_, r) = run(&mut c, q, backwards);
                let s = r.numeric.get("amount").unwrap();
                let hits = *r.string_counts.get("country").unwrap().get("FR").unwrap();
                let got = (r.matched_rows, s.count, g(s.sum), g(s.min), g(s.max), hits);
                let want = *expected.get_or_insert(got);
                assert_eq!(got, want);
            }
        }
    }
    assert!(expected.unwrap().0 > 0);
}

#[test]
fn chunks_that_cannot_match_are_left_out() {
    let amounts: Vec<Option<f64>> = (0..10).map(|i| Some(f64::from(i))).collect();
    let cfg = mk_cfg(2, Some("amount"));
    let store = Arc::new(mk_store(&cfg, &amounts));
    let mut c = Coordinator::start(cfg, store.clone());
    let q = on_amount(vec![
        range(Some((8.0, Comparison::Gt)), None),
        range(Some((1.0, Comparison::Gte)), Some((2.0, Comparison::Lt))),
    ]);
    assert_eq!(
        build_skip_mask(store.chunk_count(), &store, &q),
        vec![false, true, true, true, false]
    );
    let (tasks, r) = run(&mut c, q, false);
    assert_eq!(tasks, 2);
    assert_eq!(r.matched_rows, 2);
    // Nothing to look at: answered at once, and with no value in any column.
    let (tasks, r) = run(&mut c, on_amount(vec![range(Some((9.0, Comparison::Gt)), None)]), false);
    assert_eq!(tasks, 0);
    assert_eq!(r.matched_rows, 0);
    assert_eq!(r.numeric.len(), 2);
    assert_eq!(r.numeric.get("amount").unwrap().count, 0);
    assert_eq!(r.numeric.get("at").unwrap().count, 0);
    assert_eq!(r.column_types.get("at"), Some(&ColumnKind::DateTime));
    assert_eq!(r.string_counts.get("country").unwrap().get("DE"), Some(&0));
    // Without a range on the partition column every chunk is looked at.
    assert_eq!(build_skip_mask(store.chunk_count(), &store, &empty_query()), vec![false; 5]);
    let (tasks, _) = run(&mut c, empty_query(), false);
    assert_eq!(tasks, 5);
}

#[test]
fn keys_that_are_not_numbers_rule_nothing_out() {
    let cfg = mk_cfg(2, Some("amount"));
    let amounts = [Some(f64::NAN), Some(5.0), Some(-1.0), Some(-f64::NAN), Some(2.0)];
    let store = Arc::new(mk_store(&cfg, &amounts));
    let mut c = Coordinator::start(cfg, store.clone());
    for (q, mask, matched) in [
        (on_amount(vec![range(Some((2.0, Comparison::Gte)), None)]), vec![true, false, false], 2),
        (on_amount(vec![range(Some((2.0, Comparison::Gt)), None)]), vec![true, false, false], 1),
        (on_amount(vec![range(None, Some((0.0, Comparison::Lt)))]), vec![false, true, false], 1),
    ] {
        assert_eq!(build_skip_mask(3, &store, &q), mask);
        assert_eq!(run(&mut c, q, false).1.matched_rows, matched);
    }
    // A chunk that ends with one.
    let cfg = mk_cfg(2, Some("amount"));
    let store = mk_store(&cfg, &[Some(1.0), Some(f64::NAN)]);
    let q = on_amount(vec![range(Some((0.5, Comparison::Gte)), None)]);
    assert_eq!(build_skip_mask(1, &store, &q), vec![false]);
}

#[test]
fn the_partition_column_does_not_show() {
    let amounts = [Some(4.0), None, Some(-2.5), Some(9.0), Some(4.0), Some(0.25), None];
    for q in [
        empty_query(),
        on_amount(vec![range(Some((0.0, Comparison::Gt)), None)]),
        on_amount(vec![range(Some((100.0, Comparison::Gt)), None)]),
    ] {
        let mut seen = Vec::new();
        for (chunk, partition) in
            [(100, None), (2, Some("amount")), (3, Some("at")), (1, Some("id")), (4, None)]
        {
            let cfg = mk_cfg(chunk, partition);
            let store = Arc::new(mk_store(&cfg, &amounts));
            let mut c = Coordinator::start(cfg, store);
            let (_, r) = run(&mut c, q.clone(), chunk == 3);
            let column = |n: &str| {
                let s = r.numeric.get(n).unwrap();
                (s.count, s.min.bits, s.max.bits)
            };
            let hits = |v: &str| r.string_counts.get("country").unwrap().get(v).copied();
            seen.push((r.matched_rows, column("amount"), column("at"), hits("DE"), hits("FR")));
        }
        for other in &seen[1..] {
            assert_eq!(other, &seen[0]);
        }
    }
}

#[test]
fn queries_under_way_do_not_disturb_each_other() {
    let amounts: Vec<Option<f64>> = (0..9).map(|i| Some(f64::from(i))).collect();
    let cfg = mk_cfg(2, None);
    let store = Arc::new(mk_store(&cfg, &amounts));
    let mut c = Coordinator::start(cfg, store);
    let worker = c.worker();
    let mut waiting = Vec::new();
    for q in [
        empty_query(),
        on_amount(vec![range(Some((4.0, Comparison::Gt)), None)]),
        on_amount(vec![range(None, Some((1.0, Comparison::Lte)))]),
    ] {
        match c.submit(q).unwrap() {
            Submission::Waiting { query_id, tasks } => waiting.push((query_id, tasks)),
            Submission::Done(_) => panic!("there are rows to look at"),
        }
    }
    assert_eq!(waiting.iter().map(|(id, _)| id.0).collect::<Vec<u64>>(), vec![1, 2, 3]);
    // One result of each query in turn, the last task first.
    let mut matched = Vec::new();
    for k in (0..5).rev() {
        for (id, tasks) in &waiting {
            let answer = c.finalize(*id, worker.execute(&tasks[k]));
            assert_eq!(answer.is_some(), k == 0);
            matched.extend(answer.map(|r| (r.matched_rows, g(r.numeric.get("amount").unwrap().max))));
        }
    }
    assert_eq!(matched, vec![(9, 8.0), (4, 8.0), (2, 1.0)]);
    // They are no longer under way.
    assert!(c.finalize(waiting[0].0, worker.execute(&waiting[0].1[0])).is_none());
}

#[test]
fn counts_are_merged_up_to_the_last() {
    let part = |rows: u64| {
        let mut r = Response::default();
        r.matched_rows = rows;
        let n = NumericStats { count: rows, sum: f(0.0), min: f(0.0), max: f(0.0) };
        r.numeric.insert("a".to_string(), n);
        r
    };
    let mut a = Aggregator::new(2);
    assert!(a.merge(part(u64::MAX - 5)).is_none());
    let r = a.merge(part(5)).unwrap();
    assert_eq!((r.matched_rows, r.numeric.get("a").unwrap().count), (u64::MAX, u64::MAX));
}

#[test]
fn queries_without_rows() {
    let cfg = mk_cfg(2, None);
    let store = Arc::new(ColumnStore::new(&cfg));
    let mut c = Coordinator::start(cfg, store);
    let (tasks, r) = run(&mut c, empty_query(), false);
    assert_eq!((tasks, r.matched_rows, r.numeric.len()), (0, 0, 2));
    assert_eq!(r.numeric.get("amount").unwrap().count, 0);
}

#[test]
fn overlaps_of_zones() {
    let o = |lo: f64, hi: f64, r: RangeFilter| zone_overlaps(f(lo), f(hi), &r);
    assert!(o(1.0, 2.0, range(None, None)));
    assert!(o(1.0, 2.0, range(Some((2.0, Comparison::Gte)), None)));
    assert!(!o(1.0, 2.0, range(Some((2.0, Comparison::Gt)), None)));
    assert!(o(1.0, 2.0, range(None, Some((1.0, Comparison::Lte)))));
    assert!(!o(1.0, 2.0, range(None, Some((1.0, Comparison::Lt)))));
    // A bound that points the wrong way rules nothing out.
    assert!(o(1.0, 2.0, range(Some((9.0, Comparison::Lt)), None)));
    assert!(o(1.0, 2.0, range(None, Some((0.0, Comparison::Gt)))));
}

#[test]
fn tasks_cover_the_rows_in_order() {
    let cfg = mk_cfg(3, None);
    let store = Arc::new(mk_store(&cfg, &[Some(1.0); 7]));
    let mut c = Coordinator::start(cfg, store);
    let Submission::Waiting { query_id, tasks } = c.submit(empty_query()).unwrap() else {
        panic!("expected tasks")
    };
    assert_eq!(query_id, QueryId(1));
    let rows: Vec<(u64, usize, usize)> =
        tasks.iter().map(|t| (t.chunk_id.0, t.rows.start, t.rows.end)).collect();
    assert_eq!(rows, vec![(0, 0, 3), (1, 3, 6), (2, 6, 7)]);
    let Submission::Waiting { query_id, .. } = c.submit(empty_query()).unwrap() else {
        panic!("expected tasks")
    };
    assert_eq!(query_id, QueryId(2));
    // Queries are folded apart from each other.
    let worker = c.worker();
    assert!(c.finalize(QueryId(1), worker.execute(&tasks[0])).is_none());
    assert!(c.finalize(QueryId(2), worker.execute(&tasks[0])).is_none());
    assert!(c.finalize(QueryId(1), worker.execute(&tasks[1])).is_none());
    let r = c.finalize(QueryId(1), worker.execute(&tasks[2])).unwrap();
    assert_eq!(r.matched_rows, 7);
    // Results of a query that is not under way are dropped.
    assert!(c.finalize(QueryId(1), worker.execute(&tasks[2])).is_none());
    assert_eq!(c.abandon(QueryId(2)).to_string(), "execution error: worker pool closed");
    assert!(c.finalize(QueryId(2), worker.execute(&tasks[1])).is_none());
}

#[test]
fn an_empty_store_answers_at_once() {
    let cfg = mk_cfg(3, Some("amount"));
    let store = Arc::new(mk_store(&cfg, &[]));
    let mut c = Coordinator::start(cfg, store);
    let (tasks, r) = run(&mut c, empty_query(), false);
    assert_eq!((tasks, r.matched_rows), (0, 0));
    assert_eq!(c.worker_threads(), 1);
}

#[test]
fn hidden_columns_are_omitted_and_types_noted() {
    let cfg = mk_cfg(4, None);
    let store = Arc::new(mk_store(&cfg, &[Some(1.0), Some(2.0)]));
    let mut c = Coordinator::start(cfg, store);
    let (_, r) = run(&mut c, empty_query(), false);
    assert!(r.numeric.get("id").is_none());
    assert!(r.column_types.get("id").is_none());
    assert_eq!(r.column_types.get("amount"), Some(&ColumnKind::Numeric));
    assert_eq!(r.column_types.get("at"), Some(&ColumnKind::DateTime));
    assert!(r.column_types.get("country").is_none());
    // Hidden columns can still be filtered by.
    let mut q = empty_query();
    q.ranges.insert("id".to_string(), vec![range(Some((1.0, Comparison::Gte)), None)]);
    assert_eq!(run(&mut c, q, false).1.matched_rows, 1);
}

#[test]
fn queries_on_wrong_columns_are_refused() {
    let cfg = mk_cfg(4, None);
    let store = mk_store(&cfg, &[Some(1.0)]);
    let message = |q: Query| validate(&q, &store).unwrap_err().to_string();
    let mut q = empty_query();
    q.must.0.insert("nope".to_string(), matching(&["x"]));
    assert_eq!(message(q), "query error: must filter references unknown column \"nope\"");
    let mut q = empty_query();
    q.must_not.0.insert("at".to_string(), matching(&["x"]));
    assert_eq!(
        message(q),
        "query error: must_not filter on \"at\": column is date-time, expected string"
    );
    let mut q = empty_query();
    q.ranges.insert("country".to_string(), vec![]);
    assert_eq!(
        message(q),
        "query error: range filter on \"country\": column is string, expected numeric or date-time"
    );
    let mut q = empty_query();
    q.ranges.insert("nope".to_string(), vec![]);
    assert_eq!(message(q), "query error: range filter references unknown column \"nope\"");
    // The first fault is reported.
    let mut q = empty_query();
    q.must.0.insert("country".to_string(), matching(&["x"]));
    q.must.0.insert("id".to_string(), matching(&["x"]));
    q.ranges.insert("nope".to_string(), vec![]);
    assert_eq!(
        message(q),
        "query error: must filter on \"id\": column is integer, expected string"
    );
}

#[test]
fn queries_over_the_memory_limit_are_refused() {
    let mut cfg = mk_cfg(4, None);
    cfg.engine.memory_limit = 100;
    let store = Arc::new(mk_store(&cfg, &[Some(1.0)]));
    let mut c = Coordinator::start(cfg, store);
    let err = c.submit_at(empty_query(), 101).err().unwrap();
    assert_eq!(
        err.to_string(),
        "storage error: memory limit exceeded: RSS 101 bytes > limit 100 bytes"
    );
    assert!(c.submit_at(empty_query(), 100).is_ok());
    // A process uses more than a hundred bytes.
    assert!(resource::current_rss_bytes() > 100);
    assert_eq!((resource::rss_of(Some(7)), resource::rss_of(None)), (7, 0));
    assert!(matches!(c.submit(empty_query()), Err(AppError::Storage(_))));
    assert!(resource::check_memory(u64::MAX).is_ok());
    assert!(matches!(resource::check_memory(100), Err(AppError::Storage(_))));
    assert!(resource::check_rss(5, 5).is_ok());
    assert!(resource::check_rss(6, 5).is_err());
}

#[test]
fn aggregator_folds_until_all_chunks_reported() {
    let part = |rows: u64, min: f64, word: &str| {
        let mut r = Response::default();
        r.matched_rows = rows;
        r.numeric.insert(
            "a".to_string(),
            NumericStats { count: rows, sum: f(min), min: f(min), max: f(min) },
        );
        let mut counts = NameMap::new();
        counts.insert(word.to_string(), rows);
        r.string_counts.insert("s".to_string(), counts);
        r
    };
    let mut a = Aggregator::new(3);
    assert!(a.merge(part(1, 3.0, "x")).is_none());
    assert!(a.merge(part(2, 5.0, "y")).is_none());
    let r = a.merge(part(3, -1.0, "x")).unwrap();
    assert_eq!(r.matched_rows, 6);
    let s = r.numeric.get("a").unwrap();
    assert_eq!((s.count, g(s.sum), g(s.min), g(s.max)), (6, 7.0, -1.0, 5.0));
    let counts = r.string_counts.get("s").unwrap();
    assert_eq!((counts.get("x"), counts.get("y")), (Some(&4), Some(&2)));
    assert!(Aggregator::new(0).merge(Response::default()).is_some());
    // In another order.
    let mut a = Aggregator::new(3);
    assert!(a.merge(part(3, -1.0, "x")).is_none());
    assert!(a.merge(part(1, 3.0, "x")).is_none());
    let r = a.merge(part(2, 5.0, "y")).unwrap();
    assert_eq!(r.matched_rows, 6);
    let s = r.numeric.get("a").unwrap();
    assert_eq!((s.count, g(s.min), g(s.max)), (6, -1.0, 5.0));
    let counts = r.string_counts.get("s").unwrap();
    assert_eq!((counts.get("x"), counts.get("y")), (Some(&4), Some(&2)));
}

#[test]
fn numeric_stats_skip_what_is_no_number() {
    let mut s = NumericStats::empty();
    assert_eq!((s.count, g(s.sum)), (0, 0.0));
    assert_eq!((g(s.min), g(s.max)), (f64::INFINITY, f64::NEG_INFINITY));
    s.observe(f(2.0));
    s.observe(f(f64::NAN));
    s.observe(f(-3.0));
    assert_eq!(s.count, 3);
    assert!(s.sum.is_nan());
    assert_eq!((g(s.min), g(s.max)), (-3.0, 2.0));
    let mut t = NumericStats::default();
    t.merge(&s);
    assert_eq!((t.count, g(t.min), g(t.max)), (3, -3.0, 2.0));
}

#[test]
fn sums_of_integers_are_exact() {
    let cfg = mk_cfg(2, None);
    let store = Arc::new(mk_store(&cfg, &[Some(0.5); 9]));
    let mut c = Coordinator::start(cfg, store);
    let (_, r) = run(&mut c, empty_query(), true);
    assert_eq!(g(r.numeric.get("at").unwrap().sum), 9036.0);
    assert_eq!(g(r.numeric.get("amount").unwrap().sum), 4.5);
}
