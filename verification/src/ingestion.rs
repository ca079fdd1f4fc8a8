//! Filling a store from a source.
use vstd::prelude::*;

use crate::config::{AppConfig, ColumnType};
use crate::error::{AppResult, Fault};
use crate::storage::laws;
use crate::storage::table::Table;
use crate::storage::ColumnStore;

pub mod csv_source;
pub mod loader;
pub mod sqlite_source;

pub use crate::ingestion::csv_source::{CsvIngestor, CsvLoader};
pub use crate::ingestion::loader::Loader;
pub use crate::ingestion::sqlite_source::{SqliteIngestor, SqliteLoader};

verus! {

/// What is wrong with the partition column of a configuration, if anything is.
pub open spec fn finish_fault(t: Table, cfg: AppConfig) -> Option<Fault> {
    match cfg.partition_column {
        Some(col) => t.sort_fault(col@),
        None => None,
    }
}

/// Whether `after` is a table as it is queried: sorted by the partition column,
/// if there is one.
pub open spec fn finished(t: Table, cfg: AppConfig, after: Table) -> bool {
    match cfg.partition_column {
        Some(col) => t.sorted(col@, after),
        None => after == t,
    }
}

/// Applies the processing that is common to all sources: sorts rows by the
/// partition column, if there is one.
pub fn finalize(store: ColumnStore, cfg: &AppConfig) -> (r: AppResult<ColumnStore>)
    requires
        store.wf(),
        store@.zoned(),
    ensures
        match finish_fault(store@, *cfg) {
            None => r matches Ok(s) && s.wf() && s@.zoned() && finished(store@, *cfg, s@),
            Some(f) => r matches Err(e) && e@ == f,
        },
{
    let mut store = store;
    let ghost before = store@;
    if let Some(col) = &cfg.partition_column {
        proof {
            store.lemma_wf();
        }
        match store.sort_by(col.as_str()) {
            Ok(_) => {
                proof {
                    laws::law_sorted_rows_are_zoned(before, col@, store@);
                }
            },
            Err(e) => return Err(e),
        }
    }
    Ok(store)
}

/// What is loaded is queried sorted by the partition column that the configuration
/// names, or as it was loaded where it names none; it is refused exactly if it
/// cannot be sorted so.
pub proof fn law_loaded_rows_are_prepared(t: Table, cfg: AppConfig, after: Table)
    requires
        t.wf(),
        finish_fault(t, cfg) is None,
        finished(t, cfg, after),
    ensures
        cfg.partition_column matches Some(col) ==> t.sorted(col@, after) && exists|c: int|
            0 <= c < t.names.len() && #[trigger] t.names[c] == col@ && t.kinds[c]
                != ColumnType::String,
        cfg.partition_column is None ==> after == t,
{
    if let Some(col) = cfg.partition_column {
        laws::law_which_columns_can_be_sorted_by(t, col@);
    }
}

} // verus!
