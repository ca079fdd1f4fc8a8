use std::io::{Read, Write};

use csv::StringRecord;
use flate2::read::GzDecoder;
use flate2::write::GzEncoder;
use flate2::Compression;
use rusqlite::types::ValueRef;
use rusqlite::Connection;

use stats_cruncher::clock::FileTime;
use stats_cruncher::config::{
    ApiConfig, AppConfig, ColumnType, EngineConfig, SearchableColumn, SourceConfig,
};
use stats_cruncher::error::{AppError, AppResult};
use stats_cruncher::float64::Float64;
use stats_cruncher::ingestion::csv_source::{map_headers, resolve_delimiter};
use stats_cruncher::ingestion::sqlite_source::{map_value, quote_ident, select_sql, SqlValue};
use stats_cruncher::ingestion::{
    finalize, CsvIngestor, CsvLoader, SqliteIngestor, SqliteLoader,
};
use stats_cruncher::name_map::NameMap;
use stats_cruncher::storage::{Column, ColumnStore, RawValue};

const CSV_HEADER: &str = "user_id,amount,country,event_type,occurred_at";
const CSV_ROWS: &str = "\
1001,99.50,DE,purchase,2026-01-01T00:00:00Z
1002,149.00,PL,purchase,2026-01-02T00:00:00Z
1003,49.99,FR,refund,2026-01-03T00:00:00Z";

fn cfg_for(source: SourceConfig) -> AppConfig {
    let mut searchable = NameMap::new();
    let mut add = |n: &str, t: ColumnType| {
        searchable.insert(n.to_string(), SearchableColumn { column_type: t, hidden: false });
    };
    add("user_id", ColumnType::Integer);
    add("amount", ColumnType::Float);
    add("country", ColumnType::String);
    add("event_type", ColumnType::String);
    add("occurred_at", ColumnType::DateTime);
    AppConfig {
        source,
        engine: EngineConfig {
            memory_limit: u64::MAX,
            chunk_size_rows: 1024,
            worker_threads: 1,
            string_value_counts: false,
            reload_interval_mins: 0,
        },
        api: ApiConfig { bind: "0.0.0.0:0".to_string() },
        searchable,
        partition_column: None,
    }
}

fn csv_cfg(gzip: bool) -> AppConfig {
    cfg_for(SourceConfig::Csv { path: "events.csv".to_string(), delimiter: None, gzip })
}

fn sqlite_cfg(table: &str) -> AppConfig {
    cfg_for(SourceConfig::Sqlite { path: "events.db".to_string(), table: table.to_string() })
}

/// Loads a CSV text the way a file is streamed.
fn load_csv(cfg: &AppConfig, text: &[u8]) -> AppResult<ColumnStore> {
    let mut reader = csv::ReaderBuilder::new()
        .delimiter(resolve_delimiter(None)?)
        .has_headers(true)
        .from_reader(text);
    let headers = reader.headers().unwrap().clone();
    let mut loader = CsvLoader::start(cfg, "events.csv", &headers)?;
    let mut record = StringRecord::new();
    loop {
        match reader.read_record(&mut record) {
            Ok(true) => loader.push(&record)?,
            Ok(false) => return Ok(loader.into_store()),
            Err(e) => return Err(loader.read_fault(&e.to_string())),
        }
    }
}

#[test]
fn ingests_plain_csv() {
    let text = format!("{CSV_HEADER}\n{CSV_ROWS}");
    let store = load_csv(&csv_cfg(false), text.as_bytes()).unwrap();
    assert_eq!(store.row_count(), 3);
    assert!(matches!(store.column("country"), Some(Column::String(_))));
    assert!(matches!(store.column("occurred_at"), Some(Column::DateTime(_))));
}

#[test]
fn ingests_gzipped_csv() {
    let mut gz = GzEncoder::new(Vec::new(), Compression::default());
    gz.write_all(format!("{CSV_HEADER}\n{CSV_ROWS}").as_bytes()).unwrap();
    let packed = gz.finish().unwrap();
    let mut text = Vec::new();
    GzDecoder::new(packed.as_slice()).read_to_end(&mut text).unwrap();
    let store = load_csv(&csv_cfg(true), &text).unwrap();
    assert_eq!(store.row_count(), 3);
}

#[test]
fn empty_cells_treated_as_null() {
    let text = format!(
        "{CSV_HEADER}\n1001,99.50,DE,purchase,2026-01-01T00:00:00Z\n\
         1002,,  ,purchase,2026-01-02T00:00:00Z\n"
    );
    let store = load_csv(&csv_cfg(false), text.as_bytes()).unwrap();
    assert_eq!(store.row_count(), 2);
    assert!(store.null_rows_for("amount").map_or(false, |n| n.contains(1)));
    assert!(store.null_rows_for("country").map_or(false, |n| n.contains(1)));
    assert!(store.null_rows_for("amount").map_or(false, |n| !n.contains(0)));
}

#[test]
fn errors_on_missing_column() {
    let text = "user_id,amount,country,event_type\n1,1.0,DE,purchase\n";
    let err = match load_csv(&csv_cfg(false), text.as_bytes()) {
        Err(e) => e,
        Ok(_) => panic!("expected error"),
    };
    assert!(err.to_string().contains("occurred_at"));
    assert_eq!(
        err.to_string(),
        "ingestion error: CSV source is missing declared column \"occurred_at\""
    );
}

#[test]
fn second_reload_returns_none_when_unchanged() {
    let text = format!("{CSV_HEADER}\n{CSV_ROWS}");
    let mut ing = CsvIngestor::new(csv_cfg(false));
    let t = FileTime { nanos: 5 };
    assert!(ing.needs_load(t));
    let store = load_csv(ing.cfg(), text.as_bytes()).unwrap();
    assert!(ing.finish(t, t, store).unwrap().is_some());
    assert!(!ing.needs_load(t));
    assert!(ing.needs_load(FileTime { nanos: 6 }));
}

#[test]
fn records_become_rows_in_their_order() {
    let mut text = CSV_HEADER.to_string();
    for i in 0..50 {
        text.push_str(&format!("\n{},{}.25,DE,purchase,2026-01-01T00:00:00Z", 900 - i, i));
    }
    let cfg = csv_cfg(false);
    let store = load_csv(&cfg, text.as_bytes()).unwrap();
    assert_eq!(store.row_count(), 50);
    let Column::Integer(ids) = store.column("user_id").unwrap() else { panic!("wrong kind") };
    assert_eq!(ids, &(0..50).map(|i| 900 - i).collect::<Vec<i64>>());
    let Column::Float(amounts) = store.column("amount").unwrap() else { panic!("wrong kind") };
    for (i, a) in amounts.iter().enumerate() {
        assert_eq!(f64::from_bits(a.bits), i as f64 + 0.25);
    }
}

#[test]
fn a_failed_load_is_tried_again() {
    let text = format!("{CSV_HEADER}\n{CSV_ROWS}");
    let mut cfg = csv_cfg(false);
    cfg.partition_column = Some("nope".to_string());
    let mut ing = CsvIngestor::new(cfg);
    let t = FileTime { nanos: 5 };
    for _ in 0..2 {
        assert!(ing.needs_load(t));
        let store = load_csv(ing.cfg(), text.as_bytes()).unwrap();
        assert!(matches!(ing.finish(t, t, store), Err(AppError::Config(_))));
    }
}

#[test]
fn torn_reads_are_dropped() {
    let text = format!("{CSV_HEADER}\n{CSV_ROWS}");
    let mut ing = CsvIngestor::new(csv_cfg(false));
    let (t, u) = (FileTime { nanos: 5 }, FileTime { nanos: 6 });
    let store = load_csv(ing.cfg(), text.as_bytes()).unwrap();
    assert!(ing.finish(t, u, store).unwrap().is_none());
    assert!(ing.needs_load(t));
    assert!(ing.needs_load(u));
}

#[test]
fn finalize_sorts_by_the_partition_column() {
    let text = format!("{CSV_HEADER}\n{CSV_ROWS}");
    let mut cfg = csv_cfg(false);
    cfg.partition_column = Some("amount".to_string());
    let store = finalize(load_csv(&cfg, text.as_bytes()).unwrap(), &cfg).unwrap();
    let Column::Integer(ids) = store.column("user_id").unwrap() else { panic!("wrong kind") };
    assert_eq!(ids, &vec![1003, 1001, 1002]);
    assert!(store.zone_stats().is_some());
    cfg.partition_column = Some("nope".to_string());
    let store = load_csv(&cfg, text.as_bytes()).unwrap();
    assert!(matches!(finalize(store, &cfg), Err(AppError::Config(_))));
    cfg.partition_column = None;
    let store = load_csv(&cfg, text.as_bytes()).unwrap();
    assert!(finalize(store, &cfg).unwrap().zone_stats().is_none());
}

#[test]
fn records_without_a_declared_field_are_refused() {
    let cfg = csv_cfg(false);
    let headers = StringRecord::from(CSV_HEADER.split(',').collect::<Vec<&str>>());
    let mut loader = CsvLoader::start(&cfg, "events.csv", &headers).unwrap();
    let err = loader.push(&StringRecord::from(vec!["1", "2", "DE"])).unwrap_err();
    assert_eq!(
        err.to_string(),
        "ingestion error: CSV row 1 in events.csv is missing column index 3"
    );
    assert_eq!(
        loader.read_fault("broken").to_string(),
        "ingestion error: reading CSV row 1 from events.csv: broken"
    );
}

#[test]
fn headers_are_found_by_name() {
    let headers = StringRecord::from(vec!["b", "a", "b", "c"]);
    let names = |v: &[&str]| v.iter().map(|s| s.to_string()).collect::<Vec<String>>();
    assert_eq!(map_headers(&headers, &names(&["a", "b", "c"])).unwrap(), vec![1, 0, 3]);
    assert_eq!(map_headers(&headers, &names(&[])).unwrap(), Vec::<usize>::new());
    assert!(map_headers(&headers, &names(&["a", "x", "y"]))
        .unwrap_err()
        .to_string()
        .ends_with("\"x\""));
}

#[test]
fn delimiters() {
    assert_eq!(resolve_delimiter(None).unwrap(), b',');
    assert_eq!(resolve_delimiter(Some(';')).unwrap(), b';');
    assert_eq!(resolve_delimiter(Some('\u{7f}')).unwrap(), 0x7f);
    assert_eq!(
        resolve_delimiter(Some('é')).unwrap_err().to_string(),
        "config error: CSV delimiter must be a single ASCII character, got 'é'"
    );
}

#[test]
fn memory_is_checked_at_chunk_boundaries() {
    let mut cfg = csv_cfg(false);
    cfg.engine.memory_limit = 1;
    cfg.engine.chunk_size_rows = 3;
    let text = format!("{CSV_HEADER}\n{CSV_ROWS}");
    assert!(matches!(load_csv(&cfg, text.as_bytes()), Err(AppError::Storage(_))));
    cfg.engine.chunk_size_rows = 4;
    assert_eq!(load_csv(&cfg, text.as_bytes()).unwrap().row_count(), 3);
}

fn make_db() -> Connection {
    let conn = Connection::open_in_memory().unwrap();
    conn.execute_batch(
        "CREATE TABLE events (
            user_id     INTEGER NOT NULL,
            amount      REAL,
            country     TEXT,
            event_type  TEXT    NOT NULL,
            occurred_at TEXT    NOT NULL
        );
        INSERT INTO events VALUES (1001, 99.50,  'DE', 'purchase', '2026-01-01T00:00:00Z');
        INSERT INTO events VALUES (1002, NULL,   'PL', 'purchase', '2026-01-02T00:00:00Z');
        INSERT INTO events VALUES (1003, 49.99,  NULL, 'refund',   '2026-01-03T00:00:00Z');",
    )
    .unwrap();
    conn
}

fn load_sqlite(cfg: &AppConfig, conn: &Connection) -> AppResult<ColumnStore> {
    let mut loader = SqliteLoader::start(cfg);
    let sql = SqliteIngestor::new(cfg.clone()).statement(loader.column_names()).unwrap();
    let mut stmt = conn
        .prepare(&sql)
        .map_err(|e| AppError::Ingestion(format!("preparing SQLite SELECT {sql:?}: {e}")))?;
    let columns = loader.column_names().len();
    let mut rows = stmt.query([]).unwrap();
    while let Some(row) = rows.next().unwrap() {
        let mut values = Vec::new();
        for i in 0..columns {
            values.push(match row.get_ref(i).unwrap() {
                ValueRef::Null => SqlValue::Null,
                ValueRef::Integer(i) => SqlValue::Integer(i),
                ValueRef::Real(x) => SqlValue::Real(Float64 { bits: x.to_bits() }),
                ValueRef::Text(b) => SqlValue::Text(b),
                ValueRef::Blob(_) => SqlValue::Blob,
            });
        }
        loader.push(&values)?;
    }
    Ok(loader.into_store())
}

#[test]
fn ingests_sqlite() {
    let conn = make_db();
    let store = load_sqlite(&sqlite_cfg("events"), &conn).unwrap();
    assert_eq!(store.row_count(), 3);
    // Row 1 has NULL amount, row 2 has NULL country
    assert!(store.null_rows_for("amount").map_or(false, |n| n.contains(1)));
    assert!(store.null_rows_for("country").map_or(false, |n| n.contains(2)));
    assert!(store.null_rows_for("amount").map_or(false, |n| !n.contains(0)));
    assert!(matches!(store.column("country"), Some(Column::String(_))));
    let Column::DateTime(ts) = store.column("occurred_at").unwrap() else {
        panic!("wrong column kind")
    };
    assert_eq!(ts.len(), 3);
    let Column::Integer(uid) = store.column("user_id").unwrap() else {
        panic!("wrong column kind")
    };
    assert!(uid.iter().all(|&v| (1000..=1030).contains(&v)));
}

#[test]
fn errors_on_missing_table() {
    let conn = Connection::open_in_memory().unwrap();
    let err = match load_sqlite(&sqlite_cfg("does_not_exist"), &conn) {
        Err(e) => e,
        Ok(_) => panic!("expected error"),
    };
    assert!(err.to_string().to_lowercase().contains("does_not_exist"));
}

#[test]
fn quote_ident_escapes_quotes() {
    assert_eq!(quote_ident("plain"), "\"plain\"");
    assert_eq!(quote_ident("has\"quote"), "\"has\"\"quote\"");
}

#[test]
fn hostile_names_stay_identifiers() {
    let conn = Connection::open_in_memory().unwrap();
    let name = "a\"; DROP TABLE t; --";
    let sql = select_sql(&vec![name.to_string(), "b".to_string()], "t");
    assert_eq!(sql, "SELECT \"a\"\"; DROP TABLE t; --\", \"b\" FROM \"t\"");
    conn.execute_batch(&format!("CREATE TABLE t ({}, b)", quote_ident(name))).unwrap();
    let stmt = conn.prepare(&sql).unwrap();
    let columns: Vec<&str> = stmt.column_names().into_iter().collect();
    assert_eq!(columns, vec![name, "b"]);
    assert_eq!(select_sql(&vec![], "t"), "SELECT  FROM \"t\"");
}

#[test]
fn sqlite_values_are_mapped() {
    let ok = |v: SqlValue<'_>| map_value("c", &v, 7).is_ok();
    assert!(ok(SqlValue::Null));
    assert!(matches!(map_value("c", &SqlValue::Integer(3), 7), Ok(RawValue::Integer(3))));
    assert!(matches!(
        map_value("c", &SqlValue::Text("é".as_bytes()), 7),
        Ok(RawValue::Str("é"))
    ));
    let message = |v: SqlValue<'_>| match map_value("c", &v, 7) {
        Err(e) => e.to_string(),
        Ok(_) => panic!("expected error"),
    };
    assert_eq!(
        message(SqlValue::Blob),
        "ingestion error: column \"c\": BLOB values are not supported"
    );
    assert!(message(SqlValue::Text(&[0xff, 0x61]))
        .starts_with("ingestion error: column \"c\": non-UTF-8 text value: invalid utf-8"));
    assert_eq!(
        message(SqlValue::Unreadable("no such index".to_string())),
        "ingestion error: reading SQLite column \"c\" at row 7: no such index"
    );
}

#[test]
fn sqlite_rows_are_numbered_from_one() {
    let mut cfg = sqlite_cfg("t");
    cfg.searchable = NameMap::new();
    cfg.searchable.insert(
        "c".to_string(),
        SearchableColumn { column_type: ColumnType::Integer, hidden: false },
    );
    let mut loader = SqliteLoader::start(&cfg);
    loader.push(&vec![SqlValue::Integer(1)]).unwrap();
    assert_eq!(
        loader.read_fault("gone").to_string(),
        "ingestion error: iterating SQLite row 2: gone"
    );
    let err = loader.push(&vec![SqlValue::Unreadable("x".to_string())]).unwrap_err();
    assert!(err.to_string().contains("at row 2"));
    assert_eq!(SqliteIngestor::new(csv_cfg(false)).statement(&vec![]), None);
}
