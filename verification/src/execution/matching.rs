//! What a query means: which rows match, and what is reported of them.
use vstd::prelude::*;

use crate::config::ColumnType;
use crate::name_map::NameMap;
use crate::query::{Answer, NumericStats, Query, RangeFilter, StringMatch};
use crate::storage::column::Cell;
use crate::storage::table::Table;
use crate::text;

verus! {

/// Whether a cell carries one of some texts.
pub open spec fn carries_one(cell: Cell, values: Seq<Seq<char>>) -> bool {
    cell matches Cell::Text(t) && values.contains(t)
}

/// Whether a cell has a number that is in one of some ranges.
pub open spec fn in_one(cell: Cell, filters: Seq<RangeFilter>) -> bool {
    cell.number() matches Some(v) && exists|i: int|
        0 <= i < filters.len() && (#[trigger] filters[i]).admits(v)
}

/// Whether a row carries one of the values in a column.
pub open spec fn hit(t: Table, name: Seq<char>, m: StringMatch, r: int) -> bool {
    t.has(name) && carries_one(t.column(name)[r], text::texts(m.values@))
}

/// Whether a row is in one of the ranges in a column.
pub open spec fn in_range(t: Table, name: Seq<char>, filters: Vec<RangeFilter>, r: int) -> bool {
    t.has(name) && in_one(t.column(name)[r], filters@)
}

/// Whether a row matches a query: in each column of `must` it carries one of the
/// values, in no column of `must_not` it does, and in each column of `ranges` it
/// has a number in one of the ranges.
pub open spec fn matches(t: Table, q: Query, r: int) -> bool {
    &&& forall|n: Seq<char>| #[trigger]
        q.must.0@.contains_key(n) ==> hit(t, n, q.must.0@[n], r)
    &&& forall|n: Seq<char>| #[trigger]
        q.must_not.0@.contains_key(n) ==> !hit(t, n, q.must_not.0@[n], r)
    &&& forall|n: Seq<char>| #[trigger] q.ranges@.contains_key(n) ==> in_range(t, n, q.ranges@[n], r)
}

/// The rows from `lo` up to, and without, `hi` that match a query.
pub open spec fn matching(t: Table, q: Query, lo: int, hi: int) -> Set<u32> {
    Set::new(|r: u32| lo <= r < hi && matches(t, q, r as int))
}

/// The aggregates of a column over the rows of a set, of the first `n` rows.
pub open spec fn tally(cells: Seq<Cell>, rows: Set<u32>, n: int) -> NumericStats
    decreases n,
{
    if n <= 0 {
        NumericStats::nothing()
    } else {
        let before = tally(cells, rows, n - 1);
        match cells[n - 1].number() {
            Some(v) => if rows.contains((n - 1) as u32) {
                before.observed(v)
            } else {
                before
            },
            None => before,
        }
    }
}

/// The texts that occur in a column.
pub open spec fn texts_in(cells: Seq<Cell>) -> Set<Seq<char>> {
    Set::new(|v: Seq<char>| exists|r: int| 0 <= r < cells.len() && #[trigger] cells[r] == Cell::Text(v))
}

/// The rows of a set that carry a text.
pub open spec fn rows_carrying(cells: Seq<Cell>, rows: Set<u32>, v: Seq<char>) -> Set<u32> {
    Set::new(
        |r: u32| rows.contains(r) && r < cells.len() && cells[r as int] == Cell::Text(v),
    )
}

/// How many rows of a set carry each text of a column.
pub open spec fn hits(cells: Seq<Cell>, rows: Set<u32>) -> Map<Seq<char>, u64> {
    Map::new(
        |v: Seq<char>| texts_in(cells).contains(v),
        |v: Seq<char>| rows_carrying(cells, rows, v).len() as u64,
    )
}

/// Whether a column is aggregated.
pub open spec fn aggregated(t: Table, name: Seq<char>) -> bool {
    t.has(name) && t.kind(name) != ColumnType::String
}

/// Whether the values of a column are counted.
pub open spec fn counted(t: Table, name: Seq<char>) -> bool {
    t.has(name) && t.kind(name) == ColumnType::String && !t.hidden[t.index(name)]
}

/// What is reported of a set of rows: how many there are, the aggregates of each
/// numeric column, and with `counting` the hits per value of each string column
/// that is not hidden.
pub open spec fn report(t: Table, rows: Set<u32>, counting: bool) -> Answer {
    Answer {
        matched: rows.len(),
        numeric: Map::new(
            |n: Seq<char>| aggregated(t, n),
            |n: Seq<char>| tally(t.column(n), rows, t.rows as int),
        ),
        kinds: Map::empty(),
        hits: Map::new(
            |n: Seq<char>| counting && counted(t, n),
            |n: Seq<char>| hits(t.column(n), rows),
        ),
    }
}

/// A row matches the first `i` columns of an inclusion filter.
pub open spec fn must_first(t: Table, m: NameMap<StringMatch>, i: int, r: int) -> bool {
    forall|j: int| 0 <= j < i ==> hit(t, #[trigger] m.keys()[j], m.vals()[j], r)
}

/// A row passes the first `i` columns of an exclusion filter.
pub open spec fn must_not_first(t: Table, m: NameMap<StringMatch>, i: int, r: int) -> bool {
    forall|j: int| 0 <= j < i ==> !hit(t, #[trigger] m.keys()[j], m.vals()[j], r)
}

/// A row passes the first `i` columns of the range filters.
pub open spec fn ranges_first(t: Table, m: NameMap<Vec<RangeFilter>>, i: int, r: int) -> bool {
    forall|j: int| 0 <= j < i ==> in_range(t, #[trigger] m.keys()[j], m.vals()[j], r)
}

/// A row that passes every column of every clause matches, and no other does.
pub proof fn lemma_matches(t: Table, q: Query, r: int)
    requires
        q.wf(),
    ensures
        matches(t, q, r) <==> must_first(t, q.must.0, q.must.0.keys().len() as int, r)
            && must_not_first(t, q.must_not.0, q.must_not.0.keys().len() as int, r) && ranges_first(
            t,
            q.ranges,
            q.ranges.keys().len() as int,
            r,
        ),
{
    let must = q.must.0;
    let must_not = q.must_not.0;
    let ranges = q.ranges;
    if matches(t, q, r) {
        assert forall|j: int| 0 <= j < must.keys().len() implies hit(
            t,
            #[trigger] must.keys()[j],
            must.vals()[j],
            r,
        ) by {
            must.lemma_at(j);
        }
        assert forall|j: int| 0 <= j < must_not.keys().len() implies !hit(
            t,
            #[trigger] must_not.keys()[j],
            must_not.vals()[j],
            r,
        ) by {
            must_not.lemma_at(j);
        }
        assert forall|j: int| 0 <= j < ranges.keys().len() implies in_range(
            t,
            #[trigger] ranges.keys()[j],
            ranges.vals()[j],
            r,
        ) by {
            ranges.lemma_at(j);
        }
    }
    if must_first(t, must, must.keys().len() as int, r) && must_not_first(
        t,
        must_not,
        must_not.keys().len() as int,
        r,
    ) && ranges_first(t, ranges, ranges.keys().len() as int, r) {
        assert forall|n: Seq<char>| #[trigger] must@.contains_key(n) implies hit(
            t,
            n,
            must@[n],
            r,
        ) by {
            let j = must.keys().index_of(n);
            assert(must.keys()[j] == n);
        }
        assert forall|n: Seq<char>| #[trigger] must_not@.contains_key(n) implies !hit(
            t,
            n,
            must_not@[n],
            r,
        ) by {
            let j = must_not.keys().index_of(n);
            assert(must_not.keys()[j] == n);
        }
        assert forall|n: Seq<char>| #[trigger] ranges@.contains_key(n) implies in_range(
            t,
            n,
            ranges@[n],
            r,
        ) by {
            let j = ranges.keys().index_of(n);
            assert(ranges.keys()[j] == n);
        }
    }
}

/// No more values are aggregated than there are rows.
pub proof fn lemma_tally_count(cells: Seq<Cell>, rows: Set<u32>, n: int)
    requires
        0 <= n <= u32::MAX,
    ensures
        tally(cells, rows, n).count <= n,
    decreases n,
{
    if n > 0 {
        lemma_tally_count(cells, rows, n - 1);
    }
}

/// A set of rows below `n` has at most `n` of them.
pub proof fn lemma_rows_below(rows: Set<u32>, n: int)
    requires
        0 <= n <= u32::MAX,
        forall|r: u32| #[trigger] rows.contains(r) ==> r < n,
    ensures
        rows.finite(),
        rows.len() <= n,
    decreases n,
{
    if n == 0 {
        assert(rows =~= Set::empty());
    } else {
        let last = (n - 1) as u32;
        let rest = rows.remove(last);
        assert forall|r: u32| #[trigger] rest.contains(r) implies r < n - 1 by {
            assert(rows.contains(r));
        }
        lemma_rows_below(rest, n - 1);
        if rows.contains(last) {
            assert(rows =~= rest.insert(last));
        } else {
            assert(rows =~= rest);
        }
    }
}

/// What is reported of a set of rows counts no more than there are rows.
pub proof fn lemma_report_bounded(t: Table, rows: Set<u32>, counting: bool)
    requires
        t.wf(),
        forall|r: u32| #[trigger] rows.contains(r) ==> r < t.rows,
    ensures
        report(t, rows, counting).bounded(t.rows as int),
{
    let a = report(t, rows, counting);
    lemma_rows_below(rows, t.rows as int);
    assert forall|n: Seq<char>| #[trigger] a.numeric.contains_key(n) implies a.numeric[n].count
        <= t.rows by {
        lemma_tally_count(t.column(n), rows, t.rows as int);
    }
    assert forall|n: Seq<char>, v: Seq<char>| #[trigger]
        a.hits[n].contains_key(v) && a.hits.contains_key(n) implies a.hits[n][v] <= t.rows by {
        lemma_rows_below(rows_carrying(t.column(n), rows, v), t.rows as int);
    }
}

} // verus!
