use std::sync::Arc;

use stats_cruncher::config::{
    ApiConfig, AppConfig, ColumnType, EngineConfig, SearchableColumn, SourceConfig,
};
use stats_cruncher::execution::worker::{execute, range_matches};
use stats_cruncher::execution::{ChunkId, PartialResult, Task, Worker};
use stats_cruncher::float64::Float64;
use stats_cruncher::name_map::NameMap;
use stats_cruncher::query::{
    Comparison, Must, MustNot, NumericBound, Query, QueryId, RangeFilter, StringMatch,
};
use stats_cruncher::storage::{ColumnStore, RawValue};

fn f(x: f64) -> Float64 {
    Float64 { bits: x.to_bits() }
}

fn g(x: Float64) -> f64 {
    f64::from_bits(x.bits)
}

fn mk_cfg() -> AppConfig {
    let mut searchable = NameMap::new();
    searchable.insert(
        "amount".to_string(),
        SearchableColumn { column_type: ColumnType::Float, hidden: false },
    );
    searchable.insert(
        "country".to_string(),
        SearchableColumn { column_type: ColumnType::String, hidden: false },
    );
    searchable.insert(
        "user_id".to_string(),
        SearchableColumn { column_type: ColumnType::Integer, hidden: false },
    );
    AppConfig {
        source: SourceConfig::Csv { path: "/dev/null".to_string(), delimiter: None, gzip: false },
        engine: EngineConfig {
            memory_limit: u64::MAX,
            chunk_size_rows: 1024,
            worker_threads: 1,
            string_value_counts: false,
            reload_interval_mins: 0,
        },
        api: ApiConfig { bind: "0.0.0.0:0".to_string() },
        searchable,
        partition_column: None,
    }
}

fn mk_store() -> ColumnStore {
    let cfg = mk_cfg();
    let mut store = ColumnStore::new(&cfg);
    // Alphabetical order: amount, country, user_id.
    let rows = [
        (10.0_f64, "DE", 1_i64),
        (20.0, "PL", 2),
        (30.0, "DE", 3),
        (40.0, "FR", 4),
        (50.0, "PL", 5),
    ];
    for (a, c, u) in rows {
        store
            .push_row(&[RawValue::Float(f(a)), RawValue::Str(c), RawValue::Integer(u)])
            .unwrap();
    }
    store
}

fn bound(value: f64, comparison: Comparison) -> Option<NumericBound> {
    Some(NumericBound { value: f(value), comparison })
}

fn mk_query(
    must: &[(&str, &[&str])],
    must_not: &[(&str, &[&str])],
    ranges: &[(&str, Option<NumericBound>, Option<NumericBound>)],
) -> Query {
    let mut m = NameMap::new();
    for (col, vs) in must {
        m.insert(
            (*col).to_string(),
            StringMatch { values: vs.iter().map(|s| (*s).to_string()).collect() },
        );
    }
    let mut mn = NameMap::new();
    for (col, vs) in must_not {
        mn.insert(
            (*col).to_string(),
            StringMatch { values: vs.iter().map(|s| (*s).to_string()).collect() },
        );
    }
    let mut r = NameMap::new();
    for (col, lo, up) in ranges {
        r.insert((*col).to_string(), vec![RangeFilter { lower: *lo, upper: *up }]);
    }
    Query { must: Must(m), must_not: MustNot(mn), ranges: r }
}

fn task(query: Query, rows: std::ops::Range<usize>) -> Task {
    Task { chunk_id: ChunkId(0), query_id: QueryId(1), query: Arc::new(query), rows }
}

fn run_query(store: &ColumnStore, query: Query) -> PartialResult {
    execute(&task(query, 0..store.row_count()), store, false)
}

#[test]
fn no_filter_matches_everything_and_computes_stats() {
    let store = mk_store();
    let partial = run_query(&store, mk_query(&[], &[], &[]));
    assert_eq!(partial.matched_rows, 5);
    let amount = partial.numeric.get("amount").unwrap();
    assert_eq!(amount.count, 5);
    assert_eq!(g(amount.sum), 150.0);
    assert_eq!(g(amount.min), 10.0);
    assert_eq!(g(amount.max), 50.0);
    let uid = partial.numeric.get("user_id").unwrap();
    assert_eq!(g(uid.sum), 15.0);
    assert!(partial.numeric.get("country").is_none());
}

#[test]
fn must_filters_to_matching_rows() {
    let store = mk_store();
    let partial = run_query(&store, mk_query(&[("country", &["DE", "PL"])], &[], &[]));
    assert_eq!(partial.matched_rows, 4);
    let amount = partial.numeric.get("amount").unwrap();
    assert_eq!(g(amount.sum), 10.0 + 20.0 + 30.0 + 50.0);
}

#[test]
fn must_not_excludes_rows() {
    let store = mk_store();
    let partial = run_query(&store, mk_query(&[], &[("country", &["DE"])], &[]));
    assert_eq!(partial.matched_rows, 3);
    let amount = partial.numeric.get("amount").unwrap();
    assert_eq!(g(amount.sum), 20.0 + 40.0 + 50.0);
}

#[test]
fn range_filter_applies_to_numeric_column() {
    let store = mk_store();
    let q = mk_query(
        &[],
        &[],
        &[("amount", bound(20.0, Comparison::Gte), bound(40.0, Comparison::Lt))],
    );
    let partial = run_query(&store, q);
    assert_eq!(partial.matched_rows, 2);
    assert_eq!(g(partial.numeric.get("amount").unwrap().sum), 50.0);
}

#[test]
fn empty_match_reports_zero_count() {
    let store = mk_store();
    let partial = run_query(&store, mk_query(&[("country", &["US"])], &[], &[]));
    assert_eq!(partial.matched_rows, 0);
    assert_eq!(partial.numeric.get("amount").unwrap().count, 0);
}

fn mk_store_with_nulls() -> ColumnStore {
    // Alphabetical order: amount, country, user_id.
    let cfg = mk_cfg();
    let mut store = ColumnStore::new(&cfg);
    let rows: &[(Option<f64>, Option<&str>, i64)] = &[
        (Some(10.0), Some("DE"), 1),
        (Some(20.0), Some("PL"), 2),
        (None, Some("FR"), 3), // null amount
        (Some(40.0), None, 4), // null country
        (Some(50.0), Some("PL"), 5),
    ];
    for (a, c, u) in rows {
        store
            .push_row(&[
                a.map_or(RawValue::Null, |x| RawValue::Float(f(x))),
                c.map_or(RawValue::Null, RawValue::Str),
                RawValue::Integer(*u),
            ])
            .unwrap();
    }
    store
}

#[test]
fn null_rows_excluded_from_range_filter() {
    let store = mk_store_with_nulls();
    // amount >= 0 would match the placeholder of the null row if not explicitly excluded
    let q = mk_query(&[], &[], &[("amount", bound(0.0, Comparison::Gte), None)]);
    let partial = run_query(&store, q);
    // Rows 0,1,3,4 match (amounts 10,20,40,50); row 2 is null
    assert_eq!(partial.matched_rows, 4);
    assert_eq!(g(partial.numeric.get("amount").unwrap().sum), 120.0);
}

#[test]
fn worker_null_rows_excluded_from_aggregation() {
    let store = mk_store_with_nulls();
    // No filter: all 5 rows match. Row 2 has no amount value so it contributes
    // to matched_rows but not to amount stats (count=4, not 5).
    let partial = run_query(&store, mk_query(&[], &[], &[]));
    assert_eq!(partial.matched_rows, 5);
    let amount = partial.numeric.get("amount").unwrap();
    assert_eq!(amount.count, 4);
    assert_eq!(g(amount.sum), 120.0);
}

#[test]
fn null_country_passes_must_not_filter() {
    let store = mk_store_with_nulls();
    // must_not [country = "FR"]: row 3 (null country) has no value, certainly not "FR"
    let partial = run_query(&store, mk_query(&[], &[("country", &["FR"])], &[]));
    // Row 2 (FR) excluded; row 3 (null country) survives
    assert_eq!(partial.matched_rows, 4);
}

#[test]
fn null_country_excluded_from_must_filter() {
    let store = mk_store_with_nulls();
    // must [country = "PL", "FR", "DE"]: row 3 (null country) has no value
    let partial = run_query(&store, mk_query(&[("country", &["PL", "FR", "DE"])], &[], &[]));
    assert_eq!(partial.matched_rows, 4);
}

#[test]
fn filters_on_other_columns_match_nothing_or_everything() {
    let store = mk_store();
    assert_eq!(run_query(&store, mk_query(&[("nope", &["x"])], &[], &[])).matched_rows, 0);
    assert_eq!(run_query(&store, mk_query(&[("amount", &["10"])], &[], &[])).matched_rows, 0);
    assert_eq!(run_query(&store, mk_query(&[], &[("nope", &["x"])], &[])).matched_rows, 5);
    assert_eq!(run_query(&store, mk_query(&[], &[("amount", &["10"])], &[])).matched_rows, 5);
    let r = [("country", bound(0.0, Comparison::Gte), None)];
    assert_eq!(run_query(&store, mk_query(&[], &[], &r)).matched_rows, 0);
}

#[test]
fn ranges_on_one_column_are_alternatives() {
    let store = mk_store();
    let mut q = mk_query(&[], &[], &[]);
    let eq = |x: f64| RangeFilter {
        lower: bound(x, Comparison::Gte),
        upper: bound(x, Comparison::Lte),
    };
    q.ranges.insert("user_id".to_string(), vec![eq(1.0), eq(4.0), eq(9.0)]);
    assert_eq!(run_query(&store, q).matched_rows, 2);
    let mut q = mk_query(&[], &[], &[]);
    q.ranges.insert("user_id".to_string(), vec![]);
    assert_eq!(run_query(&store, q).matched_rows, 0);
}

#[test]
fn only_the_rows_of_the_task_count() {
    let store = mk_store();
    let partial = execute(&task(mk_query(&[], &[], &[]), 1..3), &store, false);
    assert_eq!(partial.matched_rows, 2);
    assert_eq!(g(partial.numeric.get("amount").unwrap().sum), 50.0);
    let partial = execute(&task(mk_query(&[], &[], &[]), 3..3), &store, false);
    assert_eq!(partial.matched_rows, 0);
    assert_eq!(g(partial.numeric.get("amount").unwrap().min), f64::INFINITY);
    assert_eq!(g(partial.numeric.get("amount").unwrap().max), f64::NEG_INFINITY);
}

#[test]
fn string_values_are_counted_on_request() {
    let store = mk_store_with_nulls();
    let q = mk_query(&[], &[("country", &["FR"])], &[]);
    let partial = execute(&task(q.clone(), 0..5), &store, true);
    let country = partial.string_counts.get("country").unwrap();
    assert_eq!(country.get("PL"), Some(&2));
    assert_eq!(country.get("DE"), Some(&1));
    assert_eq!(country.get("FR"), Some(&0));
    assert_eq!(country.len(), 3);
    assert_eq!(partial.string_counts.len(), 1);
    let worker = Worker::new(Arc::new(store), false);
    assert_eq!(worker.execute(&task(q, 0..5)).string_counts.len(), 0);
}

#[test]
fn hidden_string_columns_are_not_counted() {
    let mut cfg = mk_cfg();
    cfg.searchable.insert(
        "country".to_string(),
        SearchableColumn { column_type: ColumnType::String, hidden: true },
    );
    let mut store = ColumnStore::new(&cfg);
    store
        .push_row(&[RawValue::Float(f(1.0)), RawValue::Str("DE"), RawValue::Integer(1)])
        .unwrap();
    let partial = execute(&task(mk_query(&[], &[], &[]), 0..1), &store, true);
    assert_eq!(partial.string_counts.len(), 0);
}

#[test]
fn bounds_of_a_range() {
    let within = |lo: Option<NumericBound>, up: Option<NumericBound>, x: f64| {
        range_matches(f(x), &RangeFilter { lower: lo, upper: up })
    };
    assert!(within(None, None, f64::NAN));
    assert!(within(bound(1.0, Comparison::Gte), None, 1.0));
    assert!(!within(bound(1.0, Comparison::Gt), None, 1.0));
    assert!(within(bound(1.0, Comparison::Gt), None, 1.5));
    assert!(within(None, bound(1.0, Comparison::Lte), 1.0));
    assert!(!within(None, bound(1.0, Comparison::Lt), 1.0));
    assert!(within(bound(0.0, Comparison::Gte), bound(-0.0, Comparison::Lte), 0.0));
    assert!(!within(bound(f64::NEG_INFINITY, Comparison::Gte), None, f64::NAN));
    // A bound that points the wrong way admits nothing.
    assert!(!within(bound(1.0, Comparison::Lt), None, 0.0));
    assert!(!within(None, bound(1.0, Comparison::Gt), 2.0));
}
