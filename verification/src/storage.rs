//! The in-memory columnar store.
use roaring::RoaringBitmap;
use vstd::hash_map::StringHashMap;
use vstd::prelude::*;
use vstd::string::*;

use crate::bitmap;
use crate::config::{AppConfig, ColumnType};
use crate::error::{AppError, AppResult, Fault};
use crate::float64::Float64;
use crate::name_map;
use crate::text;

pub mod column;
pub mod dictionary;
pub mod laws;
pub mod partition;
pub mod table;
pub mod value;

use crate::storage::column::{apply_perm, push_value, Cell};
use crate::storage::table::Table;

pub use crate::storage::column::{Column, ColumnName, StringColumn};
pub use crate::storage::dictionary::StringDictionary;
pub use crate::storage::value::RawValue;

verus! {

/// The in-memory columnar store. Owns the columns, the rows without a value of
/// each, and the bounds of each chunk once rows were sorted.
///
/// Columns are kept in ascending order of their names. Sources push rows in
/// that order; queries find columns by name.
pub struct ColumnStore {
    names: Vec<ColumnName>,
    columns: Vec<Column>,
    lookup: StringHashMap<usize>,
    hidden: Vec<bool>,
    row_count: u32,
    chunk_size: usize,
    zone_stats: Option<(String, Vec<(Float64, Float64)>)>,
    null_rows: Vec<Option<RoaringBitmap>>,
}

impl ColumnStore {
    /// The rows of column `c` that were recorded as having no value.
    closed spec fn nulls(&self, c: int) -> Set<u32> {
        match self.null_rows@[c] {
            Some(b) => bitmap::rows_of(b),
            None => Set::empty(),
        }
    }

    pub closed spec fn view(&self) -> Table {
        Table {
            names: text::texts(self.names@),
            kinds: Seq::new(self.columns@.len(), |c: int| self.columns@[c].kind()),
            hidden: self.hidden@,
            cells: Seq::new(
                self.columns@.len(),
                |c: int|
                    Seq::new(
                        self.row_count as nat,
                        |r: int| self.columns@[c].cell(self.nulls(c), r),
                    ),
            ),
            rows: self.row_count as nat,
            chunk: self.chunk_size as nat,
            zones: match self.zone_stats {
                Some((name, zones)) => Some((name@, zones@)),
                None => None,
            },
        }
    }

    /// The columns are found under their names.
    closed spec fn linked(&self) -> bool {
        let names = self.view().names;
        &&& forall|c: int|
            0 <= c < names.len() ==> self.lookup@.contains_key(#[trigger] names[c])
                && self.lookup@[names[c]] == c
        &&& forall|n: Seq<char>| #[trigger]
            self.lookup@.contains_key(n) ==> self.lookup@[n] < names.len()
                && names[self.lookup@[n] as int] == n
    }

    /// Column `c` holds these cells, and its rows without a value are recorded.
    closed spec fn keeps(&self, c: int, cells: Seq<Cell>) -> bool {
        &&& self.columns@[c].holds(cells)
        &&& self.nulls(c) == table::null_set(cells)
        &&& self.null_rows@[c] is Some <==> self.nulls(c) != Set::<u32>::empty()
    }

    pub closed spec fn wf(&self) -> bool {
        let t = self.view();
        &&& t.names.no_duplicates()
        &&& t.kinds.len() == t.names.len()
        &&& t.hidden.len() == t.names.len()
        &&& 0 < t.chunk
        &&& self.linked()
        &&& self.null_rows@.len() == t.names.len()
        &&& forall|c: int| 0 <= c < t.names.len() ==> #[trigger] self.keeps(c, t.cells[c])
    }

    /// A well-formed store holds a well-formed table.
    pub proof fn lemma_wf(&self)
        requires
            self.wf(),
        ensures
            self@.wf(),
    {
        let t = self@;
        assert forall|c: int, r: int| 0 <= c < t.cells.len() && 0 <= r < t.rows implies table::fits(
            t.kinds[c],
            #[trigger] t.cells[c][r],
        ) by {
            assert(self.keeps(c, t.cells[c]));
        }
    }

    /// A store without rows, with the columns that the configuration lists.
    pub fn new(cfg: &AppConfig) -> (r: ColumnStore)
        requires
            cfg.searchable.wf(),
        ensures
            r.wf(),
            r@ == Table::empty(*cfg),
    {
        let mut names: Vec<ColumnName> = Vec::new();
        let mut columns: Vec<Column> = Vec::new();
        let mut lookup: StringHashMap<usize> = StringHashMap::new();
        let mut hidden: Vec<bool> = Vec::new();
        let mut null_rows: Vec<Option<RoaringBitmap>> = Vec::new();
        let n: usize = cfg.searchable.len();
        let ghost keys = cfg.searchable.keys();
        proof {
            assert forall|i: int, j: int| 0 <= i < keys.len() && 0 <= j < keys.len() && i
                != j implies keys[i] != keys[j] by {
                if i < j {
                    assert(text::precedes(keys[i], keys[j]));
                    name_map::lemma_precedes_strict(keys[i], keys[j]);
                } else {
                    assert(text::precedes(keys[j], keys[i]));
                    name_map::lemma_precedes_strict(keys[j], keys[i]);
                }
            }
        }
        let mut idx: usize = 0;
        while idx < n
            invariant
                cfg.searchable.wf(),
                n == keys.len(),
                keys == cfg.searchable.keys(),
                keys.no_duplicates(),
                idx <= n,
                text::texts(names@) == keys.take(idx as int),
                columns@.len() == idx,
                hidden@.len() == idx,
                null_rows@.len() == idx,
                forall|c: int|
                    0 <= c < idx ==> {
                        &&& (#[trigger] columns@[c]).kind()
                            == cfg.searchable.vals()[c].column_type
                        &&& columns@[c].wf(Set::empty(), 0)
                    },
                forall|c: int|
                    0 <= c < idx ==> #[trigger] hidden@[c] == cfg.searchable.vals()[c].hidden,
                forall|c: int| 0 <= c < idx ==> #[trigger] null_rows@[c] is None,
                forall|c: int|
                    0 <= c < idx ==> lookup@.contains_key(#[trigger] keys[c]) && lookup@[keys[c]]
                        == c,
                forall|k: Seq<char>| #[trigger]
                    lookup@.contains_key(k) ==> lookup@[k] < idx && keys[lookup@[k] as int] == k,
            decreases n - idx,
        {
            let name: &String = cfg.searchable.name_at(idx);
            let col = cfg.searchable.value_at(idx);
            columns.push(Column::empty(col.column_type));
            let ghost known = names@;
            assert(text::texts(known).len() == idx);
            names.push(name.as_str().to_owned());
            lookup.insert(name.as_str().to_owned(), idx);
            hidden.push(col.hidden);
            null_rows.push(None);
            idx += 1;
            assert forall|c: int| 0 <= c < idx implies #[trigger] text::texts(names@)[c]
                == keys.take(idx as int)[c] by {
                if c < idx - 1 {
                    assert(text::texts(known)[c] == keys.take(idx - 1)[c]);
                }
            }
            assert(text::texts(names@) =~= keys.take(idx as int));
        }
        let chunk_size: usize = if cfg.engine.chunk_size_rows > 0 {
            cfg.engine.chunk_size_rows
        } else {
            1
        };
        let r = ColumnStore {
            names,
            columns,
            lookup,
            hidden,
            row_count: 0,
            chunk_size,
            zone_stats: None,
            null_rows,
        };
        proof {
            let t = r@;
            assert(t.names =~= keys);
            assert forall|c: int| 0 <= c < t.names.len() implies #[trigger] r.keeps(
                c,
                t.cells[c],
            ) by {
                assert(table::null_set(t.cells[c]) =~= Set::empty());
                assert(r.null_rows@[c] is None);
            }
            assert forall|c: int| 0 <= c < t.cells.len() implies #[trigger] t.cells[c]
                == Table::empty(*cfg).cells[c] by {
                assert(t.cells[c] =~= Seq::empty());
            }
            assert(t =~= Table::empty(*cfg));
        }
        r
    }

    /// Column names in their fixed order, in which rows are pushed.
    pub fn column_names(&self) -> (r: &Vec<ColumnName>)
        ensures
            text::texts(r@) == self@.names,
    {
        &self.names
    }

    /// The logical type of each column, aligned with [`Self::column_names`].
    pub fn column_types(&self) -> (r: Vec<&'static str>)
        ensures
            r@.len() == self@.kinds.len(),
            forall|c: int|
                0 <= c < r@.len() ==> (#[trigger] r@[c])@ == column::kind_text(self@.kinds[c]),
    {
        let mut r: Vec<&'static str> = Vec::new();
        let mut c: usize = 0;
        while c < self.columns.len()
            invariant
                c <= self.columns@.len(),
                r@.len() == c,
                forall|i: int|
                    0 <= i < c ==> (#[trigger] r@[i])@ == column::kind_text(self@.kinds[i]),
            decreases self.columns@.len() - c,
        {
            r.push(self.columns[c].kind_name());
            c += 1;
        }
        r
    }

    /// Where a column is.
    fn find(&self, name: &str) -> (r: Option<usize>)
        requires
            self.wf(),
        ensures
            match r {
                Some(c) => self@.has(name@) && c == self@.index(name@) && c < self@.names.len(),
                None => !self@.has(name@),
            },
    {
        match self.lookup.get(name) {
            Some(c) => {
                assert(self@.names[*c as int] == name@);
                assert(self@.names.index_of(name@) == *c);
                Some(*c)
            },
            None => None,
        }
    }

    pub fn column(&self, name: &str) -> (r: Option<&Column>)
        requires
            self.wf(),
        ensures
            match r {
                Some(col) => {
                    &&& self@.has(name@)
                    &&& col.kind() == self@.kind(name@)
                    &&& col.holds(self@.column(name@))
                },
                None => !self@.has(name@),
            },
    {
        match self.find(name) {
            Some(c) => {
                assert(self.keeps(c as int, self@.cells[c as int]));
                Some(&self.columns[c])
            },
            None => None,
        }
    }

    pub fn row_count(&self) -> (n: usize)
        ensures
            n == self@.rows,
    {
        self.row_count as usize
    }

    pub fn chunk_size(&self) -> (n: usize)
        ensures
            n == self@.chunk,
    {
        self.chunk_size
    }

    /// Number of chunks the rows break into: the units of work that are handed
    /// out to workers.
    pub fn chunk_count(&self) -> (n: usize)
        requires
            self.wf(),
        ensures
            n == self@.chunk_count(),
    {
        let rows: usize = self.row_count();
        let whole: usize = rows / self.chunk_size;
        if rows % self.chunk_size == 0 {
            whole
        } else {
            assert(whole < rows) by (nonlinear_arith)
                requires
                    whole == rows as int / self.chunk_size as int,
                    rows as int % self.chunk_size as int != 0,
                    0 < self.chunk_size,
            ;
            whole + 1
        }
    }

    /// First and last key per chunk for the partition column, if rows were
    /// sorted by one. Indexed by chunk: chunk 0 starts at row 0.
    pub fn zone_stats(&self) -> (r: Option<(&str, &Vec<(Float64, Float64)>)>)
        ensures
            match r {
                Some((name, zones)) => self@.zones == Some((name@, zones@)),
                None => self@.zones is None,
            },
    {
        match &self.zone_stats {
            Some((name, zones)) => Some((name.as_str(), zones)),
            None => None,
        }
    }

    /// The rows without a value in a column, if there are any.
    pub fn null_rows_for(&self, name: &str) -> (r: Option<&RoaringBitmap>)
        requires
            self.wf(),
        ensures
            match r {
                Some(b) => {
                    &&& self@.has(name@)
                    &&& bitmap::rows_of(*b) == table::null_set(self@.column(name@))
                    &&& bitmap::rows_of(*b) != Set::<u32>::empty()
                },
                None => self@.has(name@) ==> table::null_set(self@.column(name@)) == Set::<
                    u32,
                >::empty(),
            },
    {
        match self.find(name) {
            Some(c) => {
                assert(self.keeps(c as int, self@.cells[c as int]));
                match &self.null_rows[c] {
                    Some(b) => Some(b),
                    None => None,
                }
            },
            None => None,
        }
    }

    pub fn is_hidden(&self, name: &str) -> (r: bool)
        requires
            self.wf(),
        ensures
            r == (self@.has(name@) && self@.hidden[self@.index(name@)]),
    {
        match self.find(name) {
            Some(c) => self.hidden[c],
            None => false,
        }
    }
}

impl ColumnStore {
    /// Why a store that is full refuses a row.
    fn full_fault(&self, values: &[RawValue<'_>]) -> (r: AppError)
        requires
            self.wf(),
            self@.rows == u32::MAX,
            values@.len() == self@.names.len(),
        ensures
            self@.pushed(value::raws(values@)) == Err::<Table, Fault>(r@),
    {
        let mut idx: usize = 0;
        while idx < values.len()
            invariant
                self.wf(),
                values@.len() == self@.names.len(),
                idx <= values@.len(),
                self@.row_cells(value::raws(values@), idx as nat) is Ok,
            decreases values@.len() - idx,
        {
            let checked = value::check_value(
                self.columns[idx].column_type(),
                self.names[idx].as_str(),
                &values[idx],
            );
            if let Err(e) = checked {
                proof {
                    self@.lemma_row_fault(value::raws(values@), (idx + 1) as nat, values@.len());
                }
                return e;
            }
            idx += 1;
        }
        AppError::Ingestion("row count exceeds u32::MAX".to_owned())
    }

    /// Appends a single row. `values` must be in the order of
    /// [`Self::column_names`]. The store coerces them to the columns' types.
    ///
    /// A row that is refused is not counted. If one of its values was refused, a
    /// column may still hold what was pushed before it, and the store is not to
    /// be used any further.
    pub fn push_row(&mut self, values: &[RawValue<'_>]) -> (r: AppResult<()>)
        requires
            old(self).wf(),
        ensures
            match old(self)@.pushed(value::raws(values@)) {
                Ok(t) => r is Ok && final(self)@ == t && final(self).wf(),
                Err(fault) => {
                    &&& r matches Err(e) && e@ == fault
                    &&& final(self)@ == old(self)@
                    &&& values@.len() != old(self)@.names.len() ==> final(self).wf()
                },
            },
    {
        let ghost t0 = self@;
        proof {
            self.lemma_wf();
        }
        if values.len() != self.columns.len() {
            let mut m: String = "row has ".to_owned();
            text::push_decimal(&mut m, values.len() as u64);
            m.append(" values but schema declares ");
            text::push_decimal(&mut m, self.columns.len() as u64);
            m.append(" columns");
            return Err(AppError::Ingestion(m));
        }
        let row_id: u32 = self.row_count;
        if row_id == u32::MAX {
            return Err(self.full_fault(values));
        }
        let ghost before = *self;
        let ghost mut row: Seq<Cell> = Seq::empty();
        let mut idx: usize = 0;
        while idx < values.len()
            invariant
                before.wf(),
                before@ == t0,
                old(self)@ == t0,
                t0.wf(),
                t0.rows == row_id,
                row_id < u32::MAX,
                self.names == before.names,
                self.lookup == before.lookup,
                self.hidden == before.hidden,
                self.row_count == row_id,
                self.chunk_size == before.chunk_size,
                self.zone_stats == before.zone_stats,
                self.columns@.len() == t0.names.len(),
                self.null_rows@.len() == t0.names.len(),
                values@.len() == t0.names.len(),
                idx <= values@.len(),
                row.len() == idx,
                t0.row_cells(value::raws(values@), idx as nat) == Ok::<Seq<Cell>, Fault>(row),
                forall|c: int|
                    0 <= c < t0.names.len() ==> #[trigger] self.columns@[c].kind() == t0.kinds[c],
                forall|c: int|
                    0 <= c < idx ==> #[trigger] self.keeps(c, t0.cells[c].push(row[c])),
                forall|c: int|
                    idx <= c < t0.names.len() ==> #[trigger] self.keeps(c, t0.cells[c]),
            decreases values@.len() - idx,
        {
            let ghost prior = *self;
            let ghost cells = t0.cells[idx as int];
            assert(self.keeps(idx as int, cells));
            assert(self.columns@[idx as int].kind() == t0.kinds[idx as int]);
            let stored = push_value(
                &mut self.columns[idx],
                self.names[idx].as_str(),
                &values[idx],
                row_id,
                Ghost(cells),
            );
            match stored {
                Err(e) => {
                    proof {
                        t0.lemma_row_fault(value::raws(values@), (idx + 1) as nat, values@.len());
                        assert(self.columns@ =~= prior.columns@);
                        assert forall|c: int| 0 <= c < idx implies #[trigger] self.keeps(
                            c,
                            t0.cells[c].push(row[c]),
                        ) by {
                            assert(prior.keeps(c, t0.cells[c].push(row[c])));
                        }
                        assert forall|c: int| idx <= c < t0.names.len() implies #[trigger] self.keeps(
                            c,
                            t0.cells[c],
                        ) by {
                            assert(prior.keeps(c, t0.cells[c]));
                        }
                        self.lemma_unchanged(before, t0, row, idx as int);
                    }
                    return Err(e);
                },
                Ok(has_value) => {
                    if !has_value {
                        let nulls = &mut self.null_rows[idx];
                        if nulls.is_none() {
                            *nulls = Some(RoaringBitmap::new());
                        }
                        if let Some(b) = nulls {
                            b.insert(row_id);
                        }
                    }
                    proof {
                        let cell = t0.row_cells(value::raws(values@), (idx + 1) as nat)->Ok_0[idx as int];
                        column::lemma_null_set_push(cells, cell);
                        row = row.push(cell);
                        assert(self.columns@[idx as int].holds(cells.push(cell)));
                        assert(self.nulls(idx as int) == table::null_set(cells.push(cell)));
                        assert(cell is Null ==> self.nulls(idx as int).contains(row_id));
                        assert(self.keeps(idx as int, cells.push(cell)));
                        assert forall|c: int| 0 <= c < idx implies #[trigger] self.keeps(
                            c,
                            t0.cells[c].push(row[c]),
                        ) by {
                            assert(prior.keeps(c, t0.cells[c].push(row[c])));
                        }
                        assert forall|c: int| idx < c < t0.names.len() implies #[trigger] self.keeps(
                            c,
                            t0.cells[c],
                        ) by {
                            assert(prior.keeps(c, t0.cells[c]));
                        }
                        assert forall|c: int|
                            0 <= c < t0.names.len() implies #[trigger] self.columns@[c].kind()
                            == t0.kinds[c] by {
                            assert(prior.columns@[c].kind() == t0.kinds[c]);
                        }
                    }
                },
            }
            idx += 1;
        }
        let ghost grown = *self;
        self.row_count = row_id + 1;
        proof {
            let t = self@;
            let expected = t0.extended(row);
            assert forall|c: int| 0 <= c < t0.names.len() implies #[trigger] t.cells[c]
                == expected.cells[c] && self.keeps(c, t.cells[c]) by {
                assert(grown.keeps(c, t0.cells[c].push(row[c])));
                assert(t.cells[c] =~= t0.cells[c].push(row[c]));
            }
            assert(t.kinds =~= t0.kinds);
            assert(t =~= expected);
        }
        Ok(())
    }

    /// Cells that were pushed beyond the counted rows do not show.
    proof fn lemma_unchanged(&self, before: ColumnStore, t0: Table, row: Seq<Cell>, idx: int)
        requires
            before@ == t0,
            t0.wf(),
            self.names == before.names,
            self.hidden == before.hidden,
            self.row_count == before.row_count,
            self.chunk_size == before.chunk_size,
            self.zone_stats == before.zone_stats,
            self.columns@.len() == t0.names.len(),
            0 <= idx <= t0.names.len(),
            row.len() == idx,
            forall|c: int|
                0 <= c < t0.names.len() ==> #[trigger] self.columns@[c].kind() == t0.kinds[c],
            forall|c: int| 0 <= c < idx ==> #[trigger] self.keeps(c, t0.cells[c].push(row[c])),
            forall|c: int| idx <= c < t0.names.len() ==> #[trigger] self.keeps(c, t0.cells[c]),
        ensures
            self@ == t0,
    {
        let t = self@;
        assert forall|c: int| 0 <= c < t0.names.len() implies #[trigger] t.cells[c]
            == t0.cells[c] by {
            if c < idx {
                let more = t0.cells[c].push(row[c]);
                assert(self.keeps(c, more));
                assert forall|r: int| 0 <= r < t0.rows implies #[trigger] t.cells[c][r]
                    == t0.cells[c][r] by {
                    assert(more[r] == t0.cells[c][r]);
                }
            } else {
                assert(self.keeps(c, t0.cells[c]));
            }
            assert(t.cells[c] =~= t0.cells[c]);
        }
        assert(t.kinds =~= t0.kinds);
        assert(t =~= t0);
    }
}

/// The rows without a value of a column whose rows took another order.
fn move_nulls(
    b: &RoaringBitmap,
    order: &Vec<usize>,
    places: &Vec<u32>,
    cells: Ghost<Seq<Cell>>,
) -> (r: RoaringBitmap)
    requires
        bitmap::rows_of(*b) == table::null_set(cells@),
        cells@.len() <= u32::MAX,
        table::permutation(order@, cells@.len()),
        places@.len() == order@.len(),
        forall|k: int| 0 <= k < order@.len() ==> places@[#[trigger] order@[k] as int] == k,
    ensures
        bitmap::rows_of(r) == table::null_set(table::arranged(cells@, order@)),
{
    let rows: Vec<u32> = bitmap::rows(b);
    let mut moved: Vec<u32> = Vec::new();
    let mut i: usize = 0;
    assert forall|x: int| 0 <= x < rows@.len() implies #[trigger] rows@[x] < cells@.len() by {
        assert(rows@.to_set().contains(rows@[x]));
    }
    while i < rows.len()
        invariant
            places@.len() == cells@.len(),
            forall|x: int| 0 <= x < rows@.len() ==> #[trigger] rows@[x] < cells@.len(),
            i <= rows@.len(),
            moved@.len() == i,
            forall|x: int| 0 <= x < i ==> #[trigger] moved@[x] == places@[rows@[x] as int],
        decreases rows@.len() - i,
    {
        moved.push(places[rows[i] as usize]);
        i += 1;
    }
    proof {
        let after = table::arranged(cells@, order@);
        let target = table::null_set(after);
        lemma_places(order@, places@);
        assert forall|r: u32| moved@.to_set().contains(r) <==> #[trigger] target.contains(r) by {
            if moved@.to_set().contains(r) {
                let x = choose|x: int| 0 <= x < moved@.len() && moved@[x] == r;
                assert(moved@[x] == places@[rows@[x] as int]);
                assert(rows@.to_set().contains(rows@[x]));
                let old_row = rows@[x] as int;
                assert(order@[places@[old_row] as int] == old_row);
                assert(after[r as int] == cells@[old_row]);
            }
            if target.contains(r) {
                let old_row = order@[r as int];
                assert(after[r as int] == cells@[old_row as int]);
                assert(table::null_set(cells@).contains(old_row as u32));
                assert(rows@.to_set().contains(old_row as u32));
                let x = choose|x: int| 0 <= x < rows@.len() && rows@[x] == old_row as u32;
                assert(moved@[x] == places@[rows@[x] as int]);
                assert(moved@[x] == r);
            }
        }
        assert(moved@.to_set() =~= target);
    }
    bitmap::from_rows(&moved)
}

/// What an order and the places that it gives to rows undo of each other.
proof fn lemma_places(order: Seq<usize>, places: Seq<u32>)
    requires
        table::permutation(order, order.len()),
        order.len() <= u32::MAX,
        places.len() == order.len(),
        forall|k: int| 0 <= k < order.len() ==> places[#[trigger] order[k] as int] == k,
    ensures
        forall|r: int|
            0 <= r < order.len() ==> #[trigger] places[r] < order.len() && order[places[r] as int]
                == r,
{
    assert forall|r: int| 0 <= r < order.len() implies #[trigger] places[r] < order.len()
        && order[places[r] as int] == r by {
        table::lemma_permutation_reaches(order, r as usize);
        let k = choose|k: int| 0 <= k < order.len() && order[k] == r as usize;
        assert(places[order[k] as int] == k);
    }
}

impl ColumnStore {
    /// Sorts the rows by a column, which must not be one of strings, and records
    /// the bounds of each chunk. Rows with equal values keep their order; rows
    /// without a value count as zero.
    pub fn sort_by(&mut self, partition_column: &str) -> (r: AppResult<()>)
        requires
            old(self).wf(),
        ensures
            final(self).wf(),
            match old(self)@.sort_fault(partition_column@) {
                None => r is Ok && old(self)@.sorted(partition_column@, final(self)@),
                Some(fault) => (r matches Err(e) && e@ == fault) && final(self)@ == old(self)@,
            },
    {
        let col_idx: usize = match self.find(partition_column) {
            Some(c) => c,
            None => {
                let mut m: String = "partition_column ".to_owned();
                m.append(text::quote(partition_column).as_str());
                m.append(" is not listed in [searchable]");
                return Err(AppError::Config(m));
            },
        };
        let ghost t0 = self@;
        let ghost name = partition_column@;
        proof {
            self.lemma_wf();
            assert(self.keeps(col_idx as int, t0.cells[col_idx as int]));
        }
        let (ranks, keys): (Vec<u64>, Vec<Float64>) = match column::sort_keys(
            &self.columns[col_idx],
            Ghost(self@.cells[col_idx as int]),
        ) {
            Some(found) => found,
            None => {
                let mut m: String = "partition_column ".to_owned();
                m.append(text::quote(partition_column).as_str());
                m.append(": string columns are not supported");
                return Err(AppError::Config(m));
            },
        };
        if self.row_count == 0 {
            return Ok(());
        }
        assert(ranks@ =~= t0.sort_ranks(name));
        assert(keys@ =~= t0.sort_keys(name));
        let order: Vec<usize> = partition::sort_order(&ranks);
        let places: Vec<u32> = partition::inverse(&order);
        let ghost before = *self;
        let mut c: usize = 0;
        while c < self.columns.len()
            invariant
                before.wf(),
                before@ == t0,
                t0.wf(),
                table::permutation(order@, t0.rows),
                places@.len() == order@.len(),
                forall|k: int| 0 <= k < order@.len() ==> places@[#[trigger] order@[k] as int] == k,
                self.names == before.names,
                self.lookup == before.lookup,
                self.hidden == before.hidden,
                self.row_count == before.row_count,
                self.chunk_size == before.chunk_size,
                self.zone_stats == before.zone_stats,
                self.columns@.len() == t0.names.len(),
                self.null_rows@.len() == t0.names.len(),
                c <= t0.names.len(),
                forall|d: int|
                    0 <= d < t0.names.len() ==> #[trigger] self.columns@[d].kind() == t0.kinds[d],
                forall|d: int|
                    0 <= d < c ==> #[trigger] self.keeps(d, table::arranged(t0.cells[d], order@)),
                forall|d: int| c <= d < t0.names.len() ==> #[trigger] self.keeps(d, t0.cells[d]),
            decreases t0.names.len() - c,
        {
            let ghost prior = *self;
            let ghost cells = t0.cells[c as int];
            let ghost moved = table::arranged(cells, order@);
            assert(self.keeps(c as int, cells));
            assert(self.columns@[c as int].kind() == t0.kinds[c as int]);
            apply_perm(&mut self.columns[c], &order, Ghost(cells));
            let nulls = match &self.null_rows[c] {
                Some(b) => Some(move_nulls(b, &order, &places, Ghost(cells))),
                None => None,
            };
            self.null_rows[c] = nulls;
            proof {
                lemma_nulls_moved(cells, order@);
                assert(self.nulls(c as int) =~= table::null_set(moved));
                assert(self.keeps(c as int, moved));
                assert forall|d: int| 0 <= d < c implies #[trigger] self.keeps(
                    d,
                    table::arranged(t0.cells[d], order@),
                ) by {
                    assert(prior.keeps(d, table::arranged(t0.cells[d], order@)));
                }
                assert forall|d: int| c < d < t0.names.len() implies #[trigger] self.keeps(
                    d,
                    t0.cells[d],
                ) by {
                    assert(prior.keeps(d, t0.cells[d]));
                }
                assert forall|d: int| 0 <= d < t0.names.len() implies #[trigger] self.columns@[d].kind()
                    == t0.kinds[d] by {
                    assert(prior.columns@[d].kind() == t0.kinds[d]);
                }
            }
            c += 1;
        }
        let sorted_keys: Vec<Float64> = column::arrange(&keys, &order);
        let zones: Vec<(Float64, Float64)> = partition::zone_bounds(&sorted_keys, self.chunk_size);
        let ghost moved = *self;
        self.zone_stats = Some((partition_column.to_owned(), zones));
        proof {
            let t = self@;
            let expected = t0.reordered(name, order@);
            assert forall|d: int| 0 <= d < t0.names.len() implies #[trigger] t.cells[d]
                == expected.cells[d] && self.keeps(d, t.cells[d]) by {
                assert(moved.keeps(d, table::arranged(t0.cells[d], order@)));
                assert(t.cells[d] =~= table::arranged(t0.cells[d], order@));
            }
            assert(t.kinds =~= t0.kinds);
            assert(t =~= expected);
            assert(table::sorting(order@, t0.sort_ranks(name)));
        }
        Ok(())
    }
}

/// Another order of the rows of a column moves its rows without a value, and
/// leaves none exactly if there were none.
proof fn lemma_nulls_moved(cells: Seq<Cell>, order: Seq<usize>)
    requires
        cells.len() <= u32::MAX,
        table::permutation(order, cells.len()),
    ensures
        table::null_set(cells) == Set::<u32>::empty() <==> table::null_set(
            table::arranged(cells, order),
        ) == Set::<u32>::empty(),
{
    let before = table::null_set(cells);
    let moved = table::arranged(cells, order);
    let after = table::null_set(moved);
    if before != Set::<u32>::empty() {
        assert(exists|r: u32| before.contains(r)) by {
            if forall|r: u32| !before.contains(r) {
                assert(before =~= Set::empty());
            }
        }
        let r = choose|r: u32| before.contains(r);
        table::lemma_permutation_reaches(order, r as usize);
        let k = choose|k: int| 0 <= k < order.len() && order[k] == r as usize;
        assert(moved[k] == cells[r as int]);
        assert(after.contains(k as u32));
    }
    if after != Set::<u32>::empty() {
        assert(exists|k: u32| after.contains(k)) by {
            if forall|k: u32| !after.contains(k) {
                assert(after =~= Set::empty());
            }
        }
        let k = choose|k: u32| after.contains(k);
        assert(moved[k as int] == cells[order[k as int] as int]);
        assert(before.contains(order[k as int] as u32));
    }
}

} // verus!
