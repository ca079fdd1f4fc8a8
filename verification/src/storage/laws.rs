//! What holds of the store as a whole.
use vstd::prelude::*;

use crate::config::{AppConfig, ColumnType};
use crate::error::Fault;
use crate::float64::Float64;
use crate::storage::column;
use crate::storage::column::Cell;
use crate::storage::table;
use crate::storage::table::Table;
use crate::storage::value;
use crate::storage::value::Raw;

verus! {

/// A value leaves a cell empty exactly if it is missing: null, or a text of white
/// space alone. Missing values are never refused.
pub proof fn law_missing_values_become_null(kind: ColumnType, name: Seq<char>, v: Raw)
    ensures
        v.missing() <==> value::cell_of(kind, name, v) == Ok::<Cell, Fault>(Cell::Null),
{
}

/// What a value becomes fits the column.
pub proof fn law_values_fit_their_column(kind: ColumnType, name: Seq<char>, v: Raw)
    ensures
        value::cell_of(kind, name, v) matches Ok(cell) ==> table::fits(kind, cell),
{
}

/// A row that was pushed is the last row, with a cell for each of its values in
/// the order of the columns; rows pushed before stay as they were.
pub proof fn law_pushed_row_is_the_last(
    t: Table,
    values: Seq<Raw>,
    after: Table,
    c: int,
    r: int,
)
    requires
        t.wf(),
        t.pushed(values) == Ok::<Table, Fault>(after),
        0 <= c < t.names.len(),
    ensures
        after.wf(),
        after.rows == t.rows + 1,
        0 <= r < t.rows ==> after.cells[c][r] == t.cells[c][r],
        value::cell_of(t.kinds[c], t.names[c], values[c]) == Ok::<Cell, Fault>(
            after.cells[c][t.rows as int],
        ),
{
    let row = t.row_cells(values, values.len())->Ok_0;
    lemma_row_cells(t, values, values.len(), c);
    assert forall|d: int, x: int| 0 <= d < after.cells.len() && 0 <= x < after.rows implies table::fits(
        after.kinds[d],
        #[trigger] after.cells[d][x],
    ) by {
        if x < t.rows {
            assert(after.cells[d][x] == t.cells[d][x]);
        } else {
            lemma_row_cells(t, values, values.len(), d);
            assert(after.cells[d][x] == row[d]);
        }
    }
}

/// The cells of a row are what its values become, one by one.
proof fn lemma_row_cells(t: Table, values: Seq<Raw>, n: nat, c: int)
    requires
        t.row_cells(values, n) is Ok,
        0 <= c < n,
    ensures
        t.row_cells(values, n)->Ok_0.len() == n,
        value::cell_of(t.kinds[c], t.names[c], values[c]) == Ok::<Cell, Fault>(
            t.row_cells(values, n)->Ok_0[c],
        ),
    decreases n,
{
    let before = (n - 1) as nat;
    if c < before {
        lemma_row_cells(t, values, before, c);
    } else if before > 0 {
        lemma_row_cells(t, values, before, 0);
    }
}

/// The table once some rows of values were pushed, one after the other, or why the
/// first that was refused was.
pub open spec fn pushed_all(t: Table, rows: Seq<Seq<Raw>>) -> Result<Table, Fault>
    decreases rows.len(),
{
    if rows.len() == 0 {
        Ok(t)
    } else {
        match pushed_all(t, rows.drop_last()) {
            Ok(u) => u.pushed(rows.last()),
            Err(f) => Err(f),
        }
    }
}

/// Rows that were pushed stand in the order in which they were, after those that
/// were there, each cell what its value becomes; rows that were there stay as they
/// were.
pub proof fn law_pushed_rows_stand_in_order(
    t: Table,
    rows: Seq<Seq<Raw>>,
    after: Table,
    c: int,
    r: int,
)
    requires
        t.wf(),
        pushed_all(t, rows) == Ok::<Table, Fault>(after),
        0 <= c < t.names.len(),
    ensures
        after.wf(),
        after.names == t.names,
        after.kinds == t.kinds,
        after.rows == t.rows + rows.len(),
        0 <= r < t.rows ==> after.cells[c][r] == t.cells[c][r],
        0 <= r < rows.len() ==> rows[r].len() == t.names.len() && value::cell_of(
            t.kinds[c],
            t.names[c],
            rows[r][c],
        ) == Ok::<Cell, Fault>(after.cells[c][t.rows + r]),
    decreases rows.len(),
{
    if rows.len() > 0 {
        let first = rows.drop_last();
        let u = pushed_all(t, first)->Ok_0;
        law_pushed_rows_stand_in_order(t, first, u, c, r);
        law_pushed_row_is_the_last(u, rows.last(), after, c, r);
        if 0 <= r < first.len() {
            law_pushed_row_is_the_last(u, rows.last(), after, c, t.rows + r);
        }
    }
}

/// Sorting keeps the rows: every row of the table before is one of the table
/// after, cell for cell, and the other way round.
pub proof fn law_sorting_keeps_every_row(t: Table, name: Seq<char>, after: Table, r: int)
    requires
        t.wf(),
        t.sorted(name, after),
        0 <= r < t.rows,
    ensures
        after.wf(),
        after.rows == t.rows,
        exists|k: int|
            0 <= k < after.rows && #[trigger] same_row(t, r, after, k),
        exists|k: int|
            0 <= k < t.rows && #[trigger] same_row(t, k, after, r),
{
    let order = choose|order: Seq<usize>|
        #[trigger] table::sorting(order, t.sort_ranks(name)) && after == t.reordered(name, order);
    assert forall|c: int, x: int| 0 <= c < after.cells.len() && 0 <= x < after.rows implies table::fits(
        after.kinds[c],
        #[trigger] after.cells[c][x],
    ) by {
        assert(after.cells[c][x] == t.cells[c][order[x] as int]);
    }
    table::lemma_permutation_reaches(order, r as usize);
    let k = choose|k: int| 0 <= k < order.len() && order[k] == r as usize;
    assert(same_row(t, r, after, k));
    assert(same_row(t, order[r] as int, after, r));
}

/// Whether row `r` of one table is row `k` of another.
pub open spec fn same_row(t: Table, r: int, u: Table, k: int) -> bool {
    &&& t.names == u.names
    &&& forall|c: int| 0 <= c < t.cells.len() ==> #[trigger] t.cells[c][r] == u.cells[c][k]
}

/// Sorted rows are in ascending order, and the bounds of each chunk are the first
/// and the last key in it.
pub proof fn law_sorted_rows_are_zoned(t: Table, name: Seq<char>, after: Table)
    requires
        t.wf(),
        t.zoned(),
        t.sort_fault(name) is None,
        t.sorted(name, after),
    ensures
        after.zoned(),
        t.rows > 0 ==> after.zones is Some,
        forall|a: int, b: int|
            0 <= a <= b < after.rows ==> (#[trigger] after.column(name)[a]).rank() <= (
            #[trigger] after.column(name)[b]).rank(),
{
    if t.rows > 0 {
        let order = choose|order: Seq<usize>|
            #[trigger] table::sorting(order, t.sort_ranks(name)) && after == t.reordered(
                name,
                order,
            );
        let moved = table::arranged(t.sort_keys(name), order);
        let keys = after.sort_keys(name);
        let ranks = after.sort_ranks(name);
        assert forall|k: int| 0 <= k < keys.len() implies #[trigger] keys[k] == moved[k] by {
            assert(after.column(name)[k] == t.column(name)[order[k] as int]);
        }
        assert(keys =~= moved);
        assert forall|a: int, b: int| 0 <= a <= b < ranks.len() implies #[trigger] ranks[a]
            <= #[trigger] ranks[b] by {
            assert(after.column(name)[a] == t.column(name)[order[a] as int]);
            assert(after.column(name)[b] == t.column(name)[order[b] as int]);
            assert(ranks[a] == t.sort_ranks(name)[order[a] as int]);
            assert(ranks[b] == t.sort_ranks(name)[order[b] as int]);
        }
        assert forall|a: int, b: int| 0 <= a <= b < after.rows implies (
        #[trigger] after.column(name)[a]).rank() <= (#[trigger] after.column(name)[b]).rank() by {
            assert(ranks[a] <= ranks[b]);
        }
    }
}

/// The keys of rows that are in ascending order are so too.
pub proof fn lemma_zoned_keys(t: Table, name: Seq<char>, a: int, b: int)
    requires
        t.wf(),
        t.zoned(),
        t.zones matches Some((n, _)) && n == name,
        0 <= a <= b < t.rows,
    ensures
        t.sort_keys(name)[a].rank() <= t.sort_keys(name)[b].rank(),
{
    let i = t.index(name);
    let ranks = t.sort_ranks(name);
    assert(ranks[a] <= ranks[b]);
    assert(table::fits(t.kinds[i], t.cells[i][a]));
    assert(table::fits(t.kinds[i], t.cells[i][b]));
    column::lemma_keys_follow_ranks(t.kinds[i], t.cells[i][a], t.cells[i][b]);
}

/// There is only one way to sort rows that keeps rows with equal positions in
/// their order.
pub proof fn law_sorting_is_determined(a: Seq<usize>, b: Seq<usize>, ranks: Seq<u64>)
    requires
        table::sorting(a, ranks),
        table::sorting(b, ranks),
    ensures
        a == b,
{
    lemma_same_prefix(a, b, ranks, a.len() as int);
    assert(a.take(a.len() as int) =~= a);
    assert(b.take(a.len() as int) =~= b);
}

proof fn lemma_same_prefix(a: Seq<usize>, b: Seq<usize>, ranks: Seq<u64>, n: int)
    requires
        table::sorting(a, ranks),
        table::sorting(b, ranks),
        0 <= n <= a.len(),
    ensures
        a.take(n) == b.take(n),
    decreases n,
{
    if n > 0 {
        lemma_same_prefix(a, b, ranks, n - 1);
        let i = n - 1;
        let x = a[i];
        let y = b[i];
        if x != y {
            table::lemma_permutation_reaches(b, x);
            table::lemma_permutation_reaches(a, y);
            let j = choose|j: int| 0 <= j < b.len() && b[j] == x;
            let k = choose|k: int| 0 <= k < a.len() && a[k] == y;
            if j < i {
                assert(a.take(i)[j] == b.take(i)[j]);
                assert(a[j] == a[i]);
            }
            if k < i {
                assert(a.take(i)[k] == b.take(i)[k]);
                assert(b[k] == b[i]);
            }
            assert(b[i] == y && b[j] == x);
            assert(a[i] == x && a[k] == y);
            assert(false);
        }
        assert(a.take(n) =~= a.take(i).push(x));
        assert(b.take(n) =~= b.take(i).push(y));
    } else {
        assert(a.take(0) =~= b.take(0));
    }
}

/// The integer that a row is sorted by: that of its cell, or zero if it has none.
pub open spec fn sorted_by(cell: Cell) -> int {
    match cell {
        Cell::Integer(i) => i as int,
        Cell::DateTime(i) => i as int,
        _ => 0,
    }
}

/// Sorting by a column of integers or of points in time puts the rows into ascending
/// order of them, rows without a value counting as zero, and rows with the same
/// stay in the order they had; every row keeps its cells.
pub proof fn law_integers_ascend(t: Table, name: Seq<char>, after: Table)
    requires
        t.wf(),
        t.rows > 0,
        t.has(name),
        t.kind(name) == ColumnType::Integer || t.kind(name) == ColumnType::DateTime,
        t.sorted(name, after),
    ensures
        exists|from: Seq<usize>|
            {
                &&& from.len() == t.rows
                &&& from.no_duplicates()
                &&& #[trigger] moved_from(t, after, from)
                &&& forall|a: int, b: int|
                    0 <= a < b < t.rows ==> {
                        let x = #[trigger] from[a] as int;
                        let y = #[trigger] from[b] as int;
                        ||| sorted_by(t.column(name)[x]) < sorted_by(t.column(name)[y])
                        ||| sorted_by(t.column(name)[x]) == sorted_by(t.column(name)[y]) && x < y
                    }
            },
        forall|a: int, b: int|
            0 <= a <= b < after.rows ==> sorted_by(#[trigger] after.column(name)[a]) <= sorted_by(
                #[trigger] after.column(name)[b],
            ),
{
    let order = choose|order: Seq<usize>|
        #[trigger] table::sorting(order, t.sort_ranks(name)) && after == t.reordered(name, order);
    let i = t.index(name);
    let ranks = t.sort_ranks(name);
    assert forall|x: int| 0 <= x < t.rows implies #[trigger] ranks[x] == sorted_by(
        t.column(name)[x],
    ) + 0x8000_0000_0000_0000 by {
        assert(table::fits(t.kinds[i], t.cells[i][x]));
    }
    assert(moved_from(t, after, order));
    assert forall|a: int, b: int| 0 <= a < b < t.rows implies {
        let x = #[trigger] order[a] as int;
        let y = #[trigger] order[b] as int;
        ||| sorted_by(t.column(name)[x]) < sorted_by(t.column(name)[y])
        ||| sorted_by(t.column(name)[x]) == sorted_by(t.column(name)[y]) && x < y
    } by {
        assert(ranks[order[a] as int] <= ranks[order[b] as int]);
    }
    assert forall|a: int, b: int| 0 <= a <= b < after.rows implies sorted_by(
        #[trigger] after.column(name)[a],
    ) <= sorted_by(#[trigger] after.column(name)[b]) by {
        assert(after.column(name)[a] == t.column(name)[order[a] as int]);
        assert(after.column(name)[b] == t.column(name)[order[b] as int]);
        assert(ranks[order[a] as int] <= ranks[order[b] as int]);
    }
}

/// Whether each row of a table comes, cell for cell, from a row of another.
pub open spec fn moved_from(t: Table, after: Table, from: Seq<usize>) -> bool {
    &&& after.names == t.names
    &&& after.kinds == t.kinds
    &&& after.rows == t.rows
    &&& forall|c: int, k: int|
        0 <= c < t.cells.len() && 0 <= k < t.rows ==> from[k] < t.rows
            && #[trigger] after.cells[c][k] == t.cells[c][from[k] as int]
}

/// Sorting by a column of numbers puts the rows into ascending order of them, rows
/// without a value counting as zero. What is not a number stands at either end.
pub proof fn law_numbers_ascend(t: Table, name: Seq<char>, after: Table, a: int, b: int)
    requires
        t.wf(),
        t.has(name),
        t.kind(name) == ColumnType::Float,
        t.sorted(name, after),
        0 <= a <= b < after.rows,
    ensures
        ({
            let x = match after.column(name)[a] {
                Cell::Float(f) => f,
                _ => Float64 { bits: 0 },
            };
            let y = match after.column(name)[b] {
                Cell::Float(f) => f,
                _ => Float64 { bits: 0 },
            };
            &&& !x.nan() && !y.nan() ==> x.value() <= y.value()
            &&& x.nan() && !x.negative() ==> y.nan() && !y.negative()
            &&& y.nan() && y.negative() ==> x.nan() && x.negative()
        }),
{
    let order = choose|order: Seq<usize>|
        #[trigger] table::sorting(order, t.sort_ranks(name)) && after == t.reordered(name, order);
    let i = t.index(name);
    let ranks = t.sort_ranks(name);
    let p = t.column(name)[order[a] as int];
    let q = t.column(name)[order[b] as int];
    assert(after.column(name)[a] == p);
    assert(after.column(name)[b] == q);
    assert(table::fits(t.kinds[i], t.cells[i][order[a] as int]));
    assert(table::fits(t.kinds[i], t.cells[i][order[b] as int]));
    assert(ranks[order[a] as int] <= ranks[order[b] as int]);
    let x = match p {
        Cell::Float(f) => f,
        _ => Float64 { bits: 0 },
    };
    let y = match q {
        Cell::Float(f) => f,
        _ => Float64 { bits: 0 },
    };
    assert(x.rank() <= y.rank());
    if !x.nan() && !y.nan() {
        crate::float64::law_rank_agrees_with_order(x, y);
    }
}

/// A row is taken exactly if it has one value per column, each of which its column
/// takes, and there is room for it.
pub proof fn law_which_rows_are_taken(t: Table, values: Seq<Raw>)
    requires
        t.wf(),
    ensures
        t.pushed(values) is Ok <==> {
            &&& values.len() == t.names.len()
            &&& t.rows < u32::MAX
            &&& forall|c: int|
                0 <= c < values.len() ==> value::cell_of(
                    t.kinds[c],
                    t.names[c],
                    #[trigger] values[c],
                ) is Ok
        },
        t.pushed(values) matches Err(f) ==> f is Ingestion,
{
    lemma_cells_taken(t, values, values.len());
}

proof fn lemma_cells_taken(t: Table, values: Seq<Raw>, n: nat)
    requires
        n <= values.len(),
    ensures
        t.row_cells(values, n) is Ok <==> forall|c: int|
            0 <= c < n ==> value::cell_of(t.kinds[c], t.names[c], #[trigger] values[c]) is Ok,
        t.row_cells(values, n) matches Err(f) ==> f is Ingestion,
    decreases n,
{
    if n > 0 {
        lemma_cells_taken(t, values, (n - 1) as nat);
        value::law_empty_cells(t.kinds[n - 1], t.names[n - 1], values[n - 1]);
    }
}

/// Rows can be sorted by every column that there is but those of strings; anything
/// else is an error of the configuration.
pub proof fn law_which_columns_can_be_sorted_by(t: Table, name: Seq<char>)
    requires
        t.wf(),
    ensures
        t.sort_fault(name) is None <==> exists|c: int|
            0 <= c < t.names.len() && #[trigger] t.names[c] == name && t.kinds[c]
                != ColumnType::String,
        t.sort_fault(name) matches Some(f) ==> f is Config,
{
    if t.names.contains(name) {
        let c = t.names.index_of(name);
        assert(t.names[c] == name);
        assert forall|d: int| 0 <= d < t.names.len() && #[trigger] t.names[d] == name implies d
            == c by {}
    }
}

/// A new table has the columns that the configuration declares, each of the declared
/// type and hidden as declared, no rows, and chunks of the configured size.
pub proof fn law_new_table(cfg: AppConfig, c: int)
    requires
        cfg.searchable.wf(),
    ensures
        ({
            let t = Table::empty(cfg);
            &&& t.rows == 0
            &&& t.zones is None
            &&& cfg.engine.chunk_size_rows > 0 ==> t.chunk == cfg.engine.chunk_size_rows
            &&& t.names.len() == cfg.searchable.keys().len()
            &&& 0 <= c < t.names.len() ==> {
                let col = cfg.searchable@[t.names[c]];
                &&& cfg.searchable@.contains_key(t.names[c])
                &&& t.kinds[c] == col.column_type
                &&& t.hidden[c] == col.hidden
                &&& t.cells[c].len() == 0
            }
        }),
        forall|n: Seq<char>| #[trigger]
            cfg.searchable@.contains_key(n) ==> Table::empty(cfg).names.contains(n),
{
    if 0 <= c < cfg.searchable.keys().len() {
        cfg.searchable.lemma_at(c);
    }
}

} // verus!
