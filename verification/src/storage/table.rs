//! What a column store holds, as a table of cells.
use vstd::prelude::*;

use crate::config::{AppConfig, ColumnType};
use crate::error::Fault;
use crate::float64::Float64;
use crate::storage::column::Cell;
use crate::storage::value;
use crate::storage::value::Raw;
use crate::text;

verus! {

/// A table: named and typed columns of cells, all of the same length, cut into
/// chunks of rows.
#[verifier::ext_equal]
pub struct Table {
    pub names: Seq<Seq<char>>,
    pub kinds: Seq<ColumnType>,
    pub hidden: Seq<bool>,
    /// The cells, by column and row.
    pub cells: Seq<Seq<Cell>>,
    pub rows: nat,
    /// How many rows a chunk has; the last may have fewer.
    pub chunk: nat,
    /// The column that rows were sorted by, and per chunk the first and the last
    /// key.
    pub zones: Option<(Seq<char>, Seq<(Float64, Float64)>)>,
}

/// The rows of a column that have no value.
pub open spec fn null_set(cells: Seq<Cell>) -> Set<u32> {
    Set::new(|r: u32| r < cells.len() && cells[r as int] is Null)
}

/// Whether a cell can stand in a column of a type.
pub open spec fn fits(kind: ColumnType, cell: Cell) -> bool {
    match cell {
        Cell::Null => true,
        Cell::Integer(_) => kind == ColumnType::Integer,
        Cell::Float(_) => kind == ColumnType::Float,
        Cell::Text(_) => kind == ColumnType::String,
        Cell::DateTime(_) => kind == ColumnType::DateTime,
    }
}

/// The cells of a column in another order of rows.
pub open spec fn arranged<T>(cells: Seq<T>, order: Seq<usize>) -> Seq<T> {
    Seq::new(order.len(), |k: int| cells[order[k] as int])
}

/// Whether `order` lists the numbers below `n`, each once.
pub open spec fn permutation(order: Seq<usize>, n: nat) -> bool {
    &&& order.len() == n
    &&& order.no_duplicates()
    &&& forall|k: int| 0 <= k < n ==> #[trigger] order[k] < n
}

/// Whether `order` sorts rows by their positions, rows with equal positions
/// staying in the order they had.
pub open spec fn sorting(order: Seq<usize>, ranks: Seq<u64>) -> bool {
    &&& permutation(order, ranks.len())
    &&& forall|a: int, b: int|
        0 <= a < b < order.len() ==> {
            let x = #[trigger] order[a];
            let y = #[trigger] order[b];
            ||| ranks[x as int] < ranks[y as int]
            ||| ranks[x as int] == ranks[y as int] && x < y
        }
}

/// How many chunks of `chunk` rows it takes to hold `rows` rows.
pub open spec fn chunks(rows: nat, chunk: nat) -> nat {
    if rows % chunk == 0 {
        rows / chunk
    } else {
        rows / chunk + 1
    }
}

/// Per chunk of `chunk` rows, the first and the last key.
pub open spec fn zones_of(keys: Seq<Float64>, chunk: nat) -> Seq<(Float64, Float64)> {
    Seq::new(
        chunks(keys.len(), chunk),
        |c: int| (keys[c * chunk], keys[last_row(keys.len(), chunk, c)]),
    )
}

/// The last row of chunk `c`.
pub open spec fn last_row(rows: nat, chunk: nat, c: int) -> int {
    if (c + 1) * chunk <= rows {
        (c + 1) * chunk - 1
    } else {
        rows - 1
    }
}

impl Table {
    pub open spec fn wf(self) -> bool {
        &&& self.names.no_duplicates()
        &&& self.kinds.len() == self.names.len()
        &&& self.hidden.len() == self.names.len()
        &&& self.cells.len() == self.names.len()
        &&& self.rows <= u32::MAX
        &&& 0 < self.chunk
        &&& forall|c: int| 0 <= c < self.cells.len() ==> #[trigger] self.cells[c].len() == self.rows
        &&& forall|c: int, r: int|
            0 <= c < self.cells.len() && 0 <= r < self.rows ==> fits(
                self.kinds[c],
                #[trigger] self.cells[c][r],
            )
    }

    /// The table without rows that a configuration asks for.
    pub open spec fn empty(cfg: AppConfig) -> Table {
        let n = cfg.searchable.keys().len();
        Table {
            names: cfg.searchable.keys(),
            kinds: Seq::new(n, |c: int| cfg.searchable.vals()[c].column_type),
            hidden: Seq::new(n, |c: int| cfg.searchable.vals()[c].hidden),
            cells: Seq::new(n, |c: int| Seq::empty()),
            rows: 0,
            chunk: if cfg.engine.chunk_size_rows > 0 {
                cfg.engine.chunk_size_rows as nat
            } else {
                1
            },
            zones: None,
        }
    }

    pub open spec fn has(self, name: Seq<char>) -> bool {
        self.names.contains(name)
    }

    /// The position of a column that the table has.
    pub open spec fn index(self, name: Seq<char>) -> int {
        self.names.index_of(name)
    }

    pub open spec fn kind(self, name: Seq<char>) -> ColumnType {
        self.kinds[self.index(name)]
    }

    pub open spec fn column(self, name: Seq<char>) -> Seq<Cell> {
        self.cells[self.index(name)]
    }

    pub open spec fn chunk_count(self) -> nat {
        chunks(self.rows, self.chunk)
    }

    /// The cells that the first `n` of some values become, or what is wrong with
    /// the first that cannot be stored.
    pub open spec fn row_cells(self, values: Seq<Raw>, n: nat) -> Result<Seq<Cell>, Fault>
        decreases n,
    {
        if n == 0 {
            Ok(Seq::empty())
        } else {
            match self.row_cells(values, (n - 1) as nat) {
                Err(e) => Err(e),
                Ok(cells) => match value::cell_of(
                    self.kinds[n - 1],
                    self.names[n - 1],
                    values[n - 1],
                ) {
                    Err(e) => Err(e),
                    Ok(cell) => Ok(cells.push(cell)),
                },
            }
        }
    }

    /// The table with one row of cells more.
    pub open spec fn extended(self, row: Seq<Cell>) -> Table {
        Table {
            cells: Seq::new(self.cells.len(), |c: int| self.cells[c].push(row[c])),
            rows: self.rows + 1,
            ..self
        }
    }

    /// The table once a row of values was pushed, or why the row was refused.
    pub open spec fn pushed(self, values: Seq<Raw>) -> Result<Table, Fault> {
        if values.len() != self.names.len() {
            Err(
                Fault::Ingestion(
                    "row has "@ + text::decimal(values.len()) + " values but schema declares "@
                        + text::decimal(self.names.len()) + " columns"@,
                ),
            )
        } else {
            match self.row_cells(values, values.len()) {
                Err(e) => Err(e),
                Ok(row) => if self.rows >= u32::MAX {
                    Err(Fault::Ingestion("row count exceeds u32::MAX"@))
                } else {
                    Ok(self.extended(row))
                },
            }
        }
    }

    /// The positions that rows are sorted by.
    pub open spec fn sort_ranks(self, name: Seq<char>) -> Seq<u64> {
        Seq::new(self.rows, |r: int| self.column(name)[r].rank())
    }

    /// The keys of the rows, of which the first and the last bound a chunk.
    pub open spec fn sort_keys(self, name: Seq<char>) -> Seq<Float64> {
        Seq::new(self.rows, |r: int| self.column(name)[r].sort_key())
    }

    /// The table with its rows in another order, and the zones of `name`.
    pub open spec fn reordered(self, name: Seq<char>, order: Seq<usize>) -> Table {
        Table {
            cells: Seq::new(self.cells.len(), |c: int| arranged(self.cells[c], order)),
            zones: Some(
                (name, zones_of(arranged(self.sort_keys(name), order), self.chunk)),
            ),
            ..self
        }
    }

    /// Why rows cannot be sorted by a column, if they cannot.
    pub open spec fn sort_fault(self, name: Seq<char>) -> Option<Fault> {
        if !self.has(name) {
            Some(
                Fault::Config(
                    "partition_column "@ + text::quoted(name) + " is not listed in [searchable]"@,
                ),
            )
        } else if self.kind(name) == ColumnType::String {
            Some(
                Fault::Config(
                    "partition_column "@ + text::quoted(name)
                        + ": string columns are not supported"@,
                ),
            )
        } else {
            None
        }
    }

    /// Whether `after` is this table with its rows sorted by a column.
    pub open spec fn sorted(self, name: Seq<char>, after: Table) -> bool {
        if self.rows == 0 {
            after == self
        } else {
            exists|order: Seq<usize>|
                #[trigger] sorting(order, self.sort_ranks(name)) && after == self.reordered(
                    name,
                    order,
                )
        }
    }

    /// The zones, if there are any, are those of the rows as they stand: per
    /// chunk the first and the last key, the rows in ascending order.
    pub open spec fn zoned(self) -> bool {
        self.zones matches Some((name, zones)) ==> {
            let ranks = self.sort_ranks(name);
            &&& self.has(name)
            &&& self.rows > 0
            &&& self.kind(name) != ColumnType::String
            &&& zones == zones_of(self.sort_keys(name), self.chunk)
            &&& forall|a: int, b: int|
                0 <= a <= b < ranks.len() ==> #[trigger] ranks[a] <= #[trigger] ranks[b]
        }
    }
}

impl Table {
    /// The first value that cannot be stored decides, whatever follows it.
    pub proof fn lemma_row_fault(self, values: Seq<Raw>, k: nat, n: nat)
        requires
            k <= n,
            self.row_cells(values, k) is Err,
        ensures
            self.row_cells(values, n) == self.row_cells(values, k),
        decreases n,
    {
        if k < n {
            self.lemma_row_fault(values, k, (n - 1) as nat);
        }
    }
}

/// A permutation reaches every number below its length.
pub proof fn lemma_permutation_reaches(order: Seq<usize>, r: usize)
    requires
        permutation(order, order.len()),
        r < order.len(),
    ensures
        exists|k: int| 0 <= k < order.len() && order[k] == r,
{
    if forall|k: int| 0 <= k < order.len() ==> order[k] != r {
        let n = order.len();
        let all = vstd::set_lib::set_int_range(0, n as int);
        vstd::set_lib::lemma_int_range(0, n as int);
        let hit = order.map_values(|x: usize| x as int);
        assert(hit.no_duplicates());
        hit.unique_seq_to_set();
        let reached = hit.to_set();
        assert(reached.subset_of(all.remove(r as int))) by {
            assert forall|x: int| reached.contains(x) implies all.remove(r as int).contains(x) by {
                let k = choose|k: int| 0 <= k < hit.len() && hit[k] == x;
                assert(order[k] as int == x);
            }
        }
        vstd::set_lib::lemma_len_subset(reached, all.remove(r as int));
        assert(false);
    }
}

} // verus!
