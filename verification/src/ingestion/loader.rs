//! Pushing rows while keeping an eye on the memory limit.
use vstd::prelude::*;

use crate::config::AppConfig;
use crate::error::{AppError, AppResult, Fault};
use crate::resource;
use crate::storage::table::Table;
use crate::storage::value;
use crate::storage::value::{Raw, RawValue};
use crate::storage::ColumnStore;

verus! {

/// Pushes rows into a store and checks the memory limit each time another chunk
/// of rows is complete.
pub struct Loader {
    store: ColumnStore,
    limit: u64,
    check_every: u64,
    ingested: u64,
}

impl Loader {
    pub closed spec fn store(&self) -> ColumnStore {
        self.store
    }

    pub open spec fn table(&self) -> Table {
        self.store()@
    }

    pub closed spec fn limit(&self) -> u64 {
        self.limit
    }

    pub closed spec fn check_every(&self) -> u64 {
        self.check_every
    }

    /// Every row that was ingested is in the store, which was not sorted yet.
    pub closed spec fn wf(&self) -> bool {
        &&& self.store.wf()
        &&& self.store@.zones is None
        &&& 0 < self.check_every
        &&& self.ingested == self.store@.rows
    }

    /// A loader that took in all its rows so far has a store ready for use.
    pub proof fn lemma_wf(&self)
        requires
            self.wf(),
        ensures
            self.store().wf(),
            self.table().wf(),
            self.table().zones is None,
            0 < self.check_every(),
    {
        self.store.lemma_wf();
    }

    /// A loader with an empty store.
    pub fn new(cfg: &AppConfig) -> (r: Loader)
        requires
            cfg.searchable.wf(),
            cfg.engine.chunk_size_rows > 0,
        ensures
            r.wf(),
            r.table() == Table::empty(*cfg),
            r.limit() == cfg.engine.memory_limit,
            r.check_every() == cfg.engine.chunk_size_rows,
    {
        Loader {
            store: ColumnStore::new(cfg),
            limit: cfg.engine.memory_limit,
            check_every: cfg.engine.chunk_size_rows as u64,
            ingested: 0,
        }
    }

    /// The columns to be filled, in the order of the values of a row.
    pub fn column_names(&self) -> (r: &Vec<String>)
        ensures
            crate::text::texts(r@) == self.table().names,
    {
        self.store.column_names()
    }

    /// How many rows were ingested.
    pub fn ingested(&self) -> (n: u64)
        requires
            self.wf(),
        ensures
            n == self.table().rows,
    {
        self.ingested
    }

    /// What becomes of a row, where `before` and `after` are the states of the
    /// loader, but for the check of the memory limit.
    pub open spec fn appended(before: Loader, after: Loader, row: Seq<Raw>) -> bool {
        &&& after.limit() == before.limit()
        &&& after.check_every() == before.check_every()
        &&& match before.table().pushed(row) {
            Ok(t) => after.wf() && after.table() == t,
            Err(_) => after.table() == before.table(),
        }
    }

    /// Pushes a row. Returns whether the memory limit is due to be checked.
    pub fn append(&mut self, row: &[RawValue<'_>]) -> (r: AppResult<bool>)
        requires
            old(self).wf(),
        ensures
            Loader::appended(*old(self), *final(self), value::raws(row@)),
            match old(self).table().pushed(value::raws(row@)) {
                Ok(t) => r == Ok::<bool, AppError>(t.rows % old(self).check_every() as nat == 0),
                Err(f) => r matches Err(e) && e@ == f,
            },
    {
        proof {
            self.store.lemma_wf();
        }
        match self.store.push_row(row) {
            Ok(_) => {
                self.ingested = self.ingested + 1;
                Ok(self.ingested % self.check_every == 0)
            },
            Err(e) => Err(e),
        }
    }

    /// Pushes a row. Fails if the row is refused, or if another chunk of rows is
    /// complete and the process uses more memory than it may.
    pub fn push(&mut self, row: &[RawValue<'_>]) -> (r: AppResult<()>)
        requires
            old(self).wf(),
        ensures
            Loader::appended(*old(self), *final(self), value::raws(row@)),
            match old(self).table().pushed(value::raws(row@)) {
                Ok(t) => {
                    &&& t.rows % old(self).check_every() as nat == 0 ==> resource::checked(
                        old(self).limit(),
                        r,
                    )
                    &&& (t.rows % old(self).check_every() as nat != 0 || old(self).limit()
                        == u64::MAX) ==> r is Ok
                    &&& r matches Err(e) ==> exists|rss: u64|
                        rss > old(self).limit() && e@ == #[trigger] resource::over_limit(
                            rss,
                            old(self).limit(),
                        )
                },
                Err(f) => r matches Err(e) && e@ == f,
            },
    {
        match self.append(row) {
            Ok(due) => if due {
                resource::check_memory(self.limit)
            } else {
                Ok(())
            },
            Err(e) => Err(e),
        }
    }

    /// The store with all rows.
    pub fn into_store(self) -> (r: ColumnStore)
        ensures
            r == self.store(),
    {
        self.store
    }
}

} // verus!
