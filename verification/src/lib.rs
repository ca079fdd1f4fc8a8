//! An in-memory, read-optimized column store that answers boolean filter
//! queries with per-column aggregates.
//!
//! Rows are pushed once, kept by column, and queried chunk by chunk. String
//! columns are dictionary-encoded, each distinct value with a bitmap of the
//! rows that carry it; numeric columns are scanned. The modules follow that
//! path: [`config`] and [`ingestion`] fill a [`storage::ColumnStore`],
//! [`execution`] splits a [`query::Query`] into tasks, evaluates them and folds
//! the partial results, and [`api`] turns requests into queries and responses
//! into what a client sees.
pub mod api;
pub mod bitmap;
pub mod clock;
pub mod config;
pub mod error;
pub mod execution;
pub mod float64;
pub mod ingestion;
pub mod metrics;
pub mod name_map;
pub mod natural;
pub mod numeral;
pub mod query;
pub mod reload;
pub mod resource;
pub mod storage;
pub mod text;
