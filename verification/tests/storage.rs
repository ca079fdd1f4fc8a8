use stats_cruncher::config::{
    ApiConfig, AppConfig, ColumnType, EngineConfig, SearchableColumn, SourceConfig,
};
use stats_cruncher::float64::Float64;
use stats_cruncher::name_map::NameMap;
use stats_cruncher::storage::{Column, ColumnStore, RawValue, StringDictionary};

fn f(x: f64) -> Float64 {
    Float64 { bits: x.to_bits() }
}

fn floats(v: &Vec<Float64>) -> Vec<f64> {
    v.iter().map(|x| f64::from_bits(x.bits)).collect()
}

fn mk_cfg(cols: &[(&str, ColumnType)]) -> AppConfig {
    let mut searchable = NameMap::new();
    for (n, t) in cols {
        searchable.insert((*n).to_string(), SearchableColumn { column_type: *t, hidden: false });
    }
    AppConfig {
        source: SourceConfig::Csv { path: "/dev/null".to_string(), delimiter: None, gzip: false },
        engine: EngineConfig {
            memory_limit: u64::MAX,
            chunk_size_rows: 1024,
            worker_threads: 1,
            string_value_counts: false,
            reload_interval_mins: 0,
        },
        api: ApiConfig { bind: "0.0.0.0:0".to_string() },
        searchable,
        partition_column: None,
    }
}

#[test]
fn push_row_coerces_csv_strings() {
    let cfg = mk_cfg(&[
        ("user_id", ColumnType::Integer),
        ("amount", ColumnType::Float),
        ("country", ColumnType::String),
        ("occurred_at", ColumnType::DateTime),
    ]);
    let mut store = ColumnStore::new(&cfg);
    // Columns are in alphabetical order: amount, country, occurred_at, user_id.
    store
        .push_row(&[
            RawValue::Str("12.5"),
            RawValue::Str("DE"),
            RawValue::Str("2026-04-19T00:00:00Z"),
            RawValue::Str("42"),
        ])
        .unwrap();
    store
        .push_row(&[
            RawValue::Str("7"),
            RawValue::Str("DE"),
            RawValue::Str("2026-04-20T12:34:56Z"),
            RawValue::Str("43"),
        ])
        .unwrap();
    assert_eq!(store.row_count(), 2);

    let Column::Float(amt) = store.column("amount").unwrap() else {
        panic!("wrong column kind")
    };
    assert_eq!(floats(amt), vec![12.5, 7.0]);

    let Column::Integer(uid) = store.column("user_id").unwrap() else {
        panic!("wrong column kind")
    };
    assert_eq!(uid, &vec![42, 43]);

    let Column::DateTime(ts) = store.column("occurred_at").unwrap() else {
        panic!("wrong column kind")
    };
    assert_eq!(ts.len(), 2);
    assert!(ts[1] > ts[0]);
    assert_eq!(ts[0], 1_776_556_800);

    let Column::String(s) = store.column("country").unwrap() else {
        panic!("wrong column kind")
    };
    assert_eq!(s.dictionary.cardinality(), 1);
    let de_code = s.dictionary.code_of("DE").unwrap();
    let postings = s.dictionary.postings(de_code).unwrap();
    assert_eq!(postings.len(), 2);
}

#[test]
fn push_row_rejects_bad_integer() {
    let cfg = mk_cfg(&[("user_id", ColumnType::Integer)]);
    let mut store = ColumnStore::new(&cfg);
    let err = store.push_row(&[RawValue::Str("not-a-number")]).unwrap_err();
    assert!(err.to_string().contains("user_id"));
    assert_eq!(
        err.to_string(),
        "ingestion error: column \"user_id\": expected integer, got \"not-a-number\": \
         invalid digit found in string"
    );
}

#[test]
fn push_row_rejects_bad_datetime() {
    let cfg = mk_cfg(&[("occurred_at", ColumnType::DateTime)]);
    let mut store = ColumnStore::new(&cfg);
    let err = store.push_row(&[RawValue::Str("2026-04-19")]).unwrap_err();
    assert!(err.to_string().contains("RFC3339"));
}

#[test]
fn push_row_rejects_wrong_arity() {
    let cfg = mk_cfg(&[("a", ColumnType::Integer), ("b", ColumnType::Integer)]);
    let mut store = ColumnStore::new(&cfg);
    let err = store.push_row(&[RawValue::Integer(1)]).unwrap_err();
    assert!(err.to_string().contains("1 values"));
    assert_eq!(
        err.to_string(),
        "ingestion error: row has 1 values but schema declares 2 columns"
    );
    // The store can still be used.
    store.push_row(&[RawValue::Integer(1), RawValue::Integer(2)]).unwrap();
    assert_eq!(store.row_count(), 1);
}

#[test]
fn push_row_accepts_null_and_empty() {
    let cfg = mk_cfg(&[
        ("a", ColumnType::Integer),
        ("b", ColumnType::String),
        ("c", ColumnType::Float),
    ]);
    let mut store = ColumnStore::new(&cfg);
    // Row 0: all null / empty
    store.push_row(&[RawValue::Null, RawValue::Str(""), RawValue::Str("  ")]).unwrap();
    assert_eq!(store.row_count(), 1);
    assert!(store.null_rows_for("a").map_or(false, |n| n.contains(0)));
    assert!(store.null_rows_for("b").map_or(false, |n| n.contains(0)));
    assert!(store.null_rows_for("c").map_or(false, |n| n.contains(0)));
    // Row 1: real values, not in null bitmaps
    store.push_row(&[RawValue::Integer(42), RawValue::Str("DE"), RawValue::Float(f(1.5))]).unwrap();
    assert!(!store.null_rows_for("a").map_or(false, |n| n.contains(1)));
}

#[test]
fn storage_null_rows_excluded_from_aggregation() {
    // Alphabetical order: amount, flag
    let cfg = mk_cfg(&[("amount", ColumnType::Float), ("flag", ColumnType::Integer)]);
    let mut store = ColumnStore::new(&cfg);
    store.push_row(&[RawValue::Float(f(10.0)), RawValue::Integer(1)]).unwrap();
    store.push_row(&[RawValue::Null, RawValue::Integer(2)]).unwrap(); // null amount
    store.push_row(&[RawValue::Float(f(30.0)), RawValue::Integer(3)]).unwrap();
    assert_eq!(store.row_count(), 3);
    // The null bitmap for "amount" must contain only row 1
    let nulls = store.null_rows_for("amount").unwrap();
    assert!(nulls.contains(1));
    assert!(!nulls.contains(0));
    assert!(!nulls.contains(2));
    // "flag" has no nulls
    assert!(store.null_rows_for("flag").is_none());
}

#[test]
fn values_of_the_wrong_kind_are_refused() {
    let cases: Vec<(ColumnType, RawValue<'static>, &str)> = vec![
        (ColumnType::Integer, RawValue::Float(f(1.5)), "expected integer, got float"),
        (ColumnType::Integer, RawValue::Float(f(f64::INFINITY)), "expected integer, got float"),
        (ColumnType::Integer, RawValue::Float(f(f64::NAN)), "expected integer, got float"),
        (ColumnType::String, RawValue::Integer(1), "expected string, got integer"),
        (ColumnType::String, RawValue::Float(f(1.0)), "expected string, got float"),
        (ColumnType::DateTime, RawValue::Float(f(1.0)), "expected date-time, got float"),
    ];
    for (kind, value, message) in cases {
        let mut store = ColumnStore::new(&mk_cfg(&[("c", kind)]));
        let err = store.push_row(&[value]).unwrap_err();
        assert_eq!(err.to_string(), format!("ingestion error: column \"c\": {message}"));
        assert_eq!(store.row_count(), 0);
    }
}

#[test]
fn float_texts_that_are_refused() {
    for (text, reason) in [("abc", "invalid float literal"), ("1.2.3", "invalid float literal")] {
        let mut store = ColumnStore::new(&mk_cfg(&[("c", ColumnType::Float)]));
        let err = store.push_row(&[RawValue::Str(text)]).unwrap_err();
        assert_eq!(
            err.to_string(),
            format!("ingestion error: column \"c\": expected float, got {text:?}: {reason}")
        );
    }
}

#[test]
fn whole_floats_become_integers() {
    let mut store = ColumnStore::new(&mk_cfg(&[("c", ColumnType::Integer)]));
    store.push_row(&[RawValue::Float(f(-7.0))]).unwrap();
    store.push_row(&[RawValue::Float(f(1e300))]).unwrap();
    store.push_row(&[RawValue::Float(f(-1e300))]).unwrap();
    store.push_row(&[RawValue::Str(" +9223372036854775807 ")]).unwrap();
    let Column::Integer(v) = store.column("c").unwrap() else { panic!("wrong column kind") };
    assert_eq!(v, &vec![-7, i64::MAX, i64::MIN, i64::MAX]);
    let err = store.push_row(&[RawValue::Str("9223372036854775808")]).unwrap_err();
    assert!(err.to_string().ends_with("number too large to fit in target type"));
}

#[test]
fn texts_are_stored_as_they_stand() {
    let mut store = ColumnStore::new(&mk_cfg(&[("c", ColumnType::String)]));
    store.push_row(&[RawValue::Str(" DE ")]).unwrap();
    store.push_row(&[RawValue::Str("DE")]).unwrap();
    let Column::String(s) = store.column("c").unwrap() else { panic!("wrong column kind") };
    assert_eq!(s.dictionary.cardinality(), 2);
    assert_eq!(s.dictionary.value_of(0), Some(" DE "));
    assert_eq!(s.count, 2);
}

#[test]
fn columns_are_alphabetical_and_typed() {
    let cfg = mk_cfg(&[
        ("b", ColumnType::Float),
        ("a", ColumnType::Integer),
        ("d", ColumnType::DateTime),
        ("c", ColumnType::String),
    ]);
    let store = ColumnStore::new(&cfg);
    assert_eq!(store.column_names(), &vec!["a", "b", "c", "d"]);
    assert_eq!(store.column_types(), vec!["integer", "float", "string", "date-time"]);
    assert!(store.column("e").is_none());
    assert!(store.column("a").unwrap().is_empty());
    assert_eq!(store.column("b").unwrap().kind_name(), "float");
    assert_eq!(store.column("b").unwrap().len(), 0);
}

#[test]
fn chunks_of_the_rows() {
    let mut cfg = mk_cfg(&[("a", ColumnType::Integer)]);
    cfg.engine.chunk_size_rows = 2;
    let mut store = ColumnStore::new(&cfg);
    assert_eq!(store.chunk_count(), 0);
    for i in 0..5 {
        store.push_row(&[RawValue::Integer(i)]).unwrap();
    }
    assert_eq!(store.chunk_size(), 2);
    assert_eq!(store.chunk_count(), 3);
    cfg.engine.chunk_size_rows = 0;
    assert_eq!(ColumnStore::new(&cfg).chunk_size(), 1);
}

#[test]
fn hidden_columns() {
    let mut cfg = mk_cfg(&[("a", ColumnType::Integer)]);
    cfg.searchable.insert(
        "b".to_string(),
        SearchableColumn { column_type: ColumnType::Integer, hidden: true },
    );
    let store = ColumnStore::new(&cfg);
    assert!(!store.is_hidden("a"));
    assert!(store.is_hidden("b"));
    assert!(!store.is_hidden("c"));
}

#[test]
fn sort_by_reorders_all_columns_and_records_zones() {
    let mut cfg = mk_cfg(&[
        ("amount", ColumnType::Float),
        ("country", ColumnType::String),
        ("id", ColumnType::Integer),
    ]);
    cfg.engine.chunk_size_rows = 2;
    let mut store = ColumnStore::new(&cfg);
    let rows: [(Option<f64>, Option<&str>, i64); 5] = [
        (Some(30.0), Some("DE"), 1),
        (Some(-10.0), None, 2),
        (None, Some("PL"), 3),
        (Some(30.0), Some("PL"), 4),
        (Some(20.0), Some("DE"), 5),
    ];
    for (a, c, i) in rows {
        store
            .push_row(&[
                a.map_or(RawValue::Null, |x| RawValue::Float(f(x))),
                c.map_or(RawValue::Null, RawValue::Str),
                RawValue::Integer(i),
            ])
            .unwrap();
    }
    store.sort_by("amount").unwrap();
    let Column::Integer(ids) = store.column("id").unwrap() else { panic!("wrong column kind") };
    // Rows without a value count as zero; equal keys keep their order.
    assert_eq!(ids, &vec![2, 3, 5, 1, 4]);
    let Column::Float(amounts) = store.column("amount").unwrap() else {
        panic!("wrong column kind")
    };
    assert_eq!(floats(amounts), vec![-10.0, 0.0, 20.0, 30.0, 30.0]);
    let nulls: Vec<u32> = store.null_rows_for("amount").unwrap().iter().collect();
    assert_eq!(nulls, vec![1]);
    let nulls: Vec<u32> = store.null_rows_for("country").unwrap().iter().collect();
    assert_eq!(nulls, vec![0]);
    let Column::String(s) = store.column("country").unwrap() else { panic!("wrong column kind") };
    let rows_of = |v: &str| -> Vec<u32> {
        s.dictionary.postings(s.dictionary.code_of(v).unwrap()).unwrap().iter().collect()
    };
    assert_eq!(rows_of("PL"), vec![1, 4]);
    assert_eq!(rows_of("DE"), vec![2, 3]);
    assert_eq!(s.count, 4);
    let (name, zones) = store.zone_stats().unwrap();
    assert_eq!(name, "amount");
    let zones: Vec<(f64, f64)> =
        zones.iter().map(|(a, b)| (f64::from_bits(a.bits), f64::from_bits(b.bits))).collect();
    assert_eq!(zones, vec![(-10.0, 0.0), (20.0, 30.0), (30.0, 30.0)]);
}

#[test]
fn sort_by_is_total_on_floats() {
    let cfg = mk_cfg(&[("a", ColumnType::Float), ("id", ColumnType::Integer)]);
    let mut store = ColumnStore::new(&cfg);
    let keys = [f64::NAN, 0.0, -0.0, f64::NEG_INFINITY, 5e-324, f64::INFINITY, -1.0];
    for (i, k) in keys.iter().enumerate() {
        store.push_row(&[RawValue::Float(f(*k)), RawValue::Integer(i as i64)]).unwrap();
    }
    store.sort_by("a").unwrap();
    let Column::Integer(ids) = store.column("id").unwrap() else { panic!("wrong column kind") };
    let mut expected: Vec<usize> = (0..keys.len()).collect();
    expected.sort_by(|&a, &b| keys[a].total_cmp(&keys[b]));
    let expected: Vec<i64> = expected.into_iter().map(|i| i as i64).collect();
    assert_eq!(ids, &expected);
}

#[test]
fn sort_by_faults() {
    let cfg = mk_cfg(&[("a", ColumnType::String)]);
    let mut store = ColumnStore::new(&cfg);
    assert_eq!(
        store.sort_by("b").unwrap_err().to_string(),
        "config error: partition_column \"b\" is not listed in [searchable]"
    );
    // With or without rows.
    assert_eq!(
        store.sort_by("a").unwrap_err().to_string(),
        "config error: partition_column \"a\": string columns are not supported"
    );
    assert!(store.zone_stats().is_none());
    store.push_row(&[RawValue::Str("x")]).unwrap();
    assert_eq!(
        store.sort_by("a").unwrap_err().to_string(),
        "config error: partition_column \"a\": string columns are not supported"
    );
    // Without rows there is nothing to sort.
    let mut store = ColumnStore::new(&mk_cfg(&[("n", ColumnType::Integer)]));
    store.sort_by("n").unwrap();
    assert!(store.zone_stats().is_none());
}

#[test]
fn integers_are_sorted_by_themselves() {
    // Some of these have the same nearest binary number.
    let values = [
        9_007_199_254_740_993,
        i64::MAX,
        9_007_199_254_740_992,
        i64::MIN + 1,
        i64::MAX - 1,
        i64::MIN,
        -1,
    ];
    for kind in [ColumnType::Integer, ColumnType::DateTime] {
        let mut store = ColumnStore::new(&mk_cfg(&[("k", kind)]));
        for v in values {
            store.push_row(&[RawValue::Integer(v)]).unwrap();
        }
        store.push_row(&[RawValue::Null]).unwrap();
        store.sort_by("k").unwrap();
        let (Column::Integer(got) | Column::DateTime(got)) = store.column("k").unwrap() else {
            panic!("wrong column kind")
        };
        // A row without a value counts as zero.
        assert_eq!(
            got,
            &vec![
                i64::MIN,
                i64::MIN + 1,
                -1,
                0,
                9_007_199_254_740_992,
                9_007_199_254_740_993,
                i64::MAX - 1,
                i64::MAX,
            ]
        );
        assert!(store.null_rows_for("k").unwrap().contains(3));
        let (_, zones) = store.zone_stats().unwrap();
        assert_eq!(floats(&vec![zones[0].0, zones[0].1]), vec![i64::MIN as f64, i64::MAX as f64]);
    }
}

#[test]
fn dictionary_codes_are_stable() {
    let mut d = StringDictionary::new();
    assert_eq!(d.intern("x", 0), 0);
    assert_eq!(d.intern("y", 1), 1);
    assert_eq!(d.intern("x", 5), 0);
    assert_eq!(d.cardinality(), 2);
    assert_eq!(d.code_of("y"), Some(1));
    assert_eq!(d.code_of("z"), None);
    assert_eq!(d.value_of(0), Some("x"));
    assert_eq!(d.value_of(2), None);
    let rows: Vec<u32> = d.postings(0).unwrap().iter().collect();
    assert_eq!(rows, vec![0, 5]);
    assert!(d.postings(2).is_none());
}

#[test]
fn name_map_keeps_names_in_order() {
    let mut m: NameMap<u32> = NameMap::new();
    for (i, n) in ["b", "a", "", "ab", "é", "a"].iter().enumerate() {
        m.insert((*n).to_string(), i as u32);
    }
    let names: Vec<&str> = (0..m.len()).map(|i| m.name_at(i).as_str()).collect();
    assert_eq!(names, vec!["", "a", "ab", "b", "é"]);
    assert_eq!(m.get("a"), Some(&5));
    assert_eq!(m.remove("a"), Some(5));
    assert_eq!(m.remove("a"), None);
    assert!(!m.contains_key("a"));
    assert_eq!(m.len(), 4);
    let (names, values) = m.into_parts();
    assert_eq!(names, vec!["", "ab", "b", "é"]);
    assert_eq!(values, vec![2, 3, 0, 4]);
}
