//! Evaluating a query over a range of rows.
use roaring::RoaringBitmap;
use std::ops::Range;
use std::sync::Arc;
use vstd::prelude::*;

use crate::bitmap;
use crate::config::ColumnType;
use crate::execution::aggregator::PartialResult;
use crate::execution::chunk::Task;
use crate::execution::matching;
use crate::float64::Float64;
use crate::name_map::NameMap;
use crate::query::{Answer, Comparison, NumericStats, Query, RangeFilter};
use crate::storage::column;
use crate::storage::column::{Cell, Column, StringColumn};
use crate::storage::table;
use crate::storage::table::Table;
use crate::storage::ColumnStore;
use crate::text;

verus! {

/// A CPU-bound worker: evaluates tasks against a store.
pub struct Worker {
    store: Arc<ColumnStore>,
    string_value_counts: bool,
}

impl Worker {
    pub closed spec fn store(&self) -> ColumnStore {
        *self.store
    }

    pub closed spec fn counting(&self) -> bool {
        self.string_value_counts
    }

    pub fn new(store: Arc<ColumnStore>, string_value_counts: bool) -> (r: Worker)
        ensures
            r.store() == *store,
            r.counting() == string_value_counts,
    {
        Worker { store, string_value_counts }
    }
}

/// Whether a number is in a range.
pub fn range_matches(value: Float64, rf: &RangeFilter) -> (r: bool)
    ensures
        r == rf.admits(value),
{
    if let Some(lower) = rf.lower {
        let ok = match lower.comparison {
            Comparison::Gt => lower.value.less(value),
            Comparison::Gte => lower.value.at_most(value),
            Comparison::Lt | Comparison::Lte => false,
        };
        if !ok {
            return false;
        }
    }
    if let Some(upper) = rf.upper {
        let ok = match upper.comparison {
            Comparison::Lt => value.less(upper.value),
            Comparison::Lte => value.at_most(upper.value),
            Comparison::Gt | Comparison::Gte => false,
        };
        if !ok {
            return false;
        }
    }
    true
}

/// Whether a number is in one of some ranges.
fn any_range_matches(value: Float64, filters: &Vec<RangeFilter>) -> (r: bool)
    ensures
        r == exists|i: int| 0 <= i < filters@.len() && (#[trigger] filters@[i]).admits(value),
{
    let mut i: usize = 0;
    while i < filters.len()
        invariant
            i <= filters@.len(),
            forall|j: int| 0 <= j < i ==> !(#[trigger] filters@[j]).admits(value),
        decreases filters@.len() - i,
    {
        if range_matches(value, &filters[i]) {
            assert(filters@[i as int].admits(value));
            return true;
        }
        i += 1;
    }
    false
}

/// The rows of a string column that carry one of some values.
fn rows_carrying_one(sc: &StringColumn, values: &Vec<String>, cells: Ghost<Seq<Cell>>) -> (r:
    RoaringBitmap)
    requires
        Column::String(*sc).holds(cells@),
        cells@.len() <= u32::MAX,
    ensures
        forall|row: u32| #[trigger]
            bitmap::rows_of(r).contains(row) <==> row < cells@.len() && matching::carries_one(
                cells@[row as int],
                text::texts(values@),
            ),
{
    let ghost l = sc.dictionary@;
    let ghost wanted = text::texts(values@);
    proof {
        sc.dictionary.lemma_wf();
    }
    let mut union = RoaringBitmap::new();
    let mut i: usize = 0;
    while i < values.len()
        invariant
            Column::String(*sc).holds(cells@),
            cells@.len() <= u32::MAX,
            l == sc.dictionary@,
            l.wf(),
            wanted == text::texts(values@),
            i <= values@.len(),
            forall|row: u32| #[trigger]
                bitmap::rows_of(union).contains(row) <==> row < cells@.len()
                    && matching::carries_one(cells@[row as int], wanted.take(i as int)),
        decreases values@.len() - i,
    {
        let ghost before = bitmap::rows_of(union);
        let ghost v = values@[i as int]@;
        assert(wanted[i as int] == v);
        assert(wanted.take(i + 1) =~= wanted.take(i as int).push(v));
        if let Some(code) = sc.dictionary.code_of(values[i].as_str()) {
            if let Some(p) = sc.dictionary.postings(code) {
                bitmap::unite(&mut union, p);
            }
        }
        assert forall|row: u32| #[trigger]
            bitmap::rows_of(union).contains(row) <==> row < cells@.len() && matching::carries_one(
                cells@[row as int],
                wanted.take(i + 1),
            ) by {
            lemma_contains_push(wanted.take(i as int), v);
            let _ = before.contains(row);
            column::lemma_words_occur(*sc, cells@, v);
            if l.words.contains(v) {
                column::lemma_postings(*sc, cells@, l.words.index_of(v), row);
            }
        }
        i += 1;
    }
    assert(wanted.take(i as int) =~= wanted);
    union
}

/// What one more element adds to a list.
proof fn lemma_contains_push(s: Seq<Seq<char>>, v: Seq<char>)
    ensures
        forall|x: Seq<char>| #[trigger] s.push(v).contains(x) <==> s.contains(x) || x == v,
{
    assert forall|x: Seq<char>| #[trigger] s.push(v).contains(x) <==> s.contains(x) || x == v by {
        if s.contains(x) {
            let k = s.index_of(x);
            assert(s.push(v)[k] == x);
        }
        if x == v {
            assert(s.push(v)[s.len() as int] == v);
        }
        if s.push(v).contains(x) && x != v {
            let k = s.push(v).index_of(x);
            assert(s[k] == x);
        }
    }
}

/// The rows of a bitmap whose number in a column is in one of some ranges.
fn retain_numeric(
    b: &RoaringBitmap,
    col: &Column,
    filters: &Vec<RangeFilter>,
) -> (r: RoaringBitmap)
    requires
        col.kind() != ColumnType::String,
        forall|row: u32| #[trigger] bitmap::rows_of(*b).contains(row) ==> row < col.stored(),
    ensures
        forall|row: u32| #[trigger]
            bitmap::rows_of(r).contains(row) <==> bitmap::rows_of(*b).contains(row) && exists|
                i: int,
            |
                0 <= i < filters@.len() && (#[trigger] filters@[i]).admits(
                    col.stored_number(row as int),
                ),
{
    let rows: Vec<u32> = bitmap::rows(b);
    let mut kept: Vec<u32> = Vec::new();
    let mut k: usize = 0;
    while k < rows.len()
        invariant
            col.kind() != ColumnType::String,
            forall|row: u32| #[trigger] bitmap::rows_of(*b).contains(row) ==> row < col.stored(),
            rows@.to_set() == bitmap::rows_of(*b),
            k <= rows@.len(),
            forall|row: u32| #[trigger]
                kept@.contains(row) <==> rows@.take(k as int).contains(row) && exists|i: int|
                    0 <= i < filters@.len() && (#[trigger] filters@[i]).admits(
                        col.stored_number(row as int),
                    ),
        decreases rows@.len() - k,
    {
        let row: u32 = rows[k];
        assert(rows@.to_set().contains(row));
        assert(bitmap::rows_of(*b).contains(row));
        let ghost before = kept@;
        let keep: bool = any_range_matches(col.number_at(row as usize), filters);
        if keep {
            kept.push(row);
        }
        assert(rows@.take(k + 1) =~= rows@.take(k as int).push(row));
        assert forall|x: u32| #[trigger] kept@.contains(x) <==> rows@.take(k + 1).contains(x)
            && exists|i: int|
            0 <= i < filters@.len() && (#[trigger] filters@[i]).admits(
                col.stored_number(x as int),
            ) by {
            lemma_member_push(rows@.take(k as int), row);
            lemma_member_push(before, row);
            let _ = before.contains(x);
        }
        k += 1;
    }
    assert(rows@.take(k as int) =~= rows@);
    let r = bitmap::from_rows(&kept);
    assert forall|row: u32| #[trigger]
        bitmap::rows_of(r).contains(row) <==> bitmap::rows_of(*b).contains(row) && exists|i: int|
            0 <= i < filters@.len() && (#[trigger] filters@[i]).admits(
                col.stored_number(row as int),
            ) by {
        assert(kept@.to_set().contains(row) <==> kept@.contains(row));
        assert(rows@.to_set().contains(row) <==> rows@.contains(row));
    }
    r
}

/// What one more row adds to a list.
proof fn lemma_member_push(s: Seq<u32>, v: u32)
    ensures
        forall|x: u32| #[trigger] s.push(v).contains(x) <==> s.contains(x) || x == v,
{
    assert forall|x: u32| #[trigger] s.push(v).contains(x) <==> s.contains(x) || x == v by {
        if s.contains(x) {
            let k = s.index_of(x);
            assert(s.push(v)[k] == x);
        }
        if x == v {
            assert(s.push(v)[s.len() as int] == v);
        }
        if s.push(v).contains(x) && x != v {
            let k = s.push(v).index_of(x);
            assert(s[k] == x);
        }
    }
}

/// The rows of a range that pass the first columns of each clause.
spec fn passing(t: Table, q: Query, lo: int, hi: int, i: int, j: int, k: int) -> Set<u32> {
    Set::new(
        |r: u32|
            {
                &&& lo <= r < hi
                &&& matching::must_first(t, q.must.0, i, r as int)
                &&& matching::must_not_first(t, q.must_not.0, j, r as int)
                &&& matching::ranges_first(t, q.ranges, k, r as int)
            },
    )
}

/// Rows that match pass whatever columns were looked at; with all columns looked
/// at, the rows that pass match.
proof fn lemma_passing(t: Table, q: Query, lo: int, hi: int, i: int, j: int, k: int)
    requires
        q.wf(),
        0 <= i <= q.must.0.keys().len(),
        0 <= j <= q.must_not.0.keys().len(),
        0 <= k <= q.ranges.keys().len(),
    ensures
        matching::matching(t, q, lo, hi).subset_of(passing(t, q, lo, hi, i, j, k)),
        i == q.must.0.keys().len() && j == q.must_not.0.keys().len() && k
            == q.ranges.keys().len() ==> matching::matching(t, q, lo, hi) == passing(
            t,
            q,
            lo,
            hi,
            i,
            j,
            k,
        ),
{
    let m = matching::matching(t, q, lo, hi);
    let p = passing(t, q, lo, hi, i, j, k);
    assert forall|r: u32| #[trigger] m.contains(r) implies p.contains(r) by {
        matching::lemma_matches(t, q, r as int);
    }
    if i == q.must.0.keys().len() && j == q.must_not.0.keys().len() && k == q.ranges.keys().len() {
        assert forall|r: u32| #[trigger] p.contains(r) implies m.contains(r) by {
            matching::lemma_matches(t, q, r as int);
        }
        assert(m =~= p);
    }
}

/// The rows of a range that match a query.
pub fn evaluate_filter(query: &Query, store: &ColumnStore, rows: &Range<usize>) -> (r:
    RoaringBitmap)
    requires
        query.wf(),
        store.wf(),
        rows.start <= u32::MAX,
        rows.end <= store@.rows,
    ensures
        bitmap::rows_of(r) == matching::matching(
            store@,
            *query,
            rows.start as int,
            rows.end as int,
        ),
{
    let ghost t = store@;
    let ghost q = *query;
    let ghost lo = rows.start as int;
    let ghost hi = rows.end as int;
    let ghost wanted = matching::matching(t, q, lo, hi);
    proof {
        store.lemma_wf();
    }
    let mut bm = RoaringBitmap::new();
    bitmap::insert_range(&mut bm, rows.start as u32, rows.end as u32);
    assert(bitmap::rows_of(bm) =~= passing(t, q, lo, hi, 0, 0, 0));

    let must = &query.must.0;
    let mut i: usize = 0;
    while i < must.len()
        invariant
            q == *query,
            q.wf(),
            *must == q.must.0,
            store.wf(),
            t == store@,
            t.wf(),
            hi <= t.rows,
            wanted == matching::matching(t, q, lo, hi),
            lo == rows.start,
            hi == rows.end,
            i <= must.keys().len(),
            bitmap::rows_of(bm) == passing(t, q, lo, hi, i as int, 0, 0),
        decreases must.keys().len() - i,
    {
        let name: &String = must.name_at(i);
        let sm = must.value_at(i);
        let ghost before = bitmap::rows_of(bm);
        let ghost n = name@;
        let found = store.column(name.as_str());
        let sc: &StringColumn = match found {
            Some(Column::String(sc)) => sc,
            _ => {
                proof {
                    lemma_passing(t, q, lo, hi, i + 1, 0, 0);
                    assert forall|r: u32| !wanted.contains(r) by {
                        if wanted.contains(r) {
                            assert(passing(t, q, lo, hi, i + 1, 0, 0).contains(r));
                            assert(matching::hit(t, must.keys()[i as int], *sm, r as int));
                            assert(table::fits(t.kinds[t.index(n)], t.cells[t.index(n)][r as int]));
                        }
                    }
                    assert(wanted =~= Set::empty());
                }
                return RoaringBitmap::new();
            },
        };
        let union = rows_carrying_one(sc, &sm.values, Ghost(t.column(n)));
        bitmap::intersect(&mut bm, union);
        proof {
            let after = passing(t, q, lo, hi, i + 1, 0, 0);
            assert forall|r: u32| #[trigger] bitmap::rows_of(bm).contains(r) <==> after.contains(
                r,
            ) by {
                let _ = before.contains(r);
                if after.contains(r) {
                    assert(matching::hit(t, must.keys()[i as int], *sm, r as int));
                }
                if before.contains(r) && matching::hit(t, n, *sm, r as int) {
                    assert forall|j: int| 0 <= j < i + 1 implies matching::hit(
                        t,
                        #[trigger] must.keys()[j],
                        must.vals()[j],
                        r as int,
                    ) by {}
                }
            }
            assert(bitmap::rows_of(bm) =~= after);
            lemma_passing(t, q, lo, hi, i + 1, 0, 0);
        }
        if bm.is_empty() {
            assert(wanted =~= Set::empty());
            return bm;
        }
        i += 1;
    }

    let must_not = &query.must_not.0;
    let mut j: usize = 0;
    while j < must_not.len()
        invariant
            q == *query,
            q.wf(),
            *must_not == q.must_not.0,
            i == q.must.0.keys().len(),
            store.wf(),
            t == store@,
            t.wf(),
            hi <= t.rows,
            wanted == matching::matching(t, q, lo, hi),
            lo == rows.start,
            hi == rows.end,
            j <= must_not.keys().len(),
            bitmap::rows_of(bm) == passing(t, q, lo, hi, i as int, j as int, 0),
        decreases must_not.keys().len() - j,
    {
        let name: &String = must_not.name_at(j);
        let sm = must_not.value_at(j);
        let ghost before = bitmap::rows_of(bm);
        let ghost after = passing(t, q, lo, hi, i as int, j + 1, 0);
        let ghost n = name@;
        let found = store.column(name.as_str());
        if let Some(Column::String(sc)) = found {
            let union = rows_carrying_one(sc, &sm.values, Ghost(t.column(n)));
            bitmap::subtract(&mut bm, &union);
            proof {
                assert forall|r: u32| #[trigger] bitmap::rows_of(bm).contains(r) <==> after.contains(
                    r,
                ) by {
                    let _ = before.contains(r);
                    if after.contains(r) {
                        assert(!matching::hit(t, must_not.keys()[j as int], *sm, r as int));
                    }
                }
                assert(bitmap::rows_of(bm) =~= after);
                lemma_passing(t, q, lo, hi, i as int, j + 1, 0);
            }
            if bm.is_empty() {
                assert(wanted =~= Set::empty());
                return bm;
            }
        } else {
            proof {
                assert forall|r: u32| #[trigger] before.contains(r) implies after.contains(r) by {
                    if matching::hit(t, n, *sm, r as int) {
                        assert(table::fits(t.kinds[t.index(n)], t.cells[t.index(n)][r as int]));
                    }
                }
                assert(before =~= after);
            }
        }
        j += 1;
    }

    let ranges = &query.ranges;
    let mut k: usize = 0;
    while k < ranges.len()
        invariant
            q == *query,
            q.wf(),
            *ranges == q.ranges,
            i == q.must.0.keys().len(),
            j == q.must_not.0.keys().len(),
            store.wf(),
            t == store@,
            t.wf(),
            hi <= t.rows,
            wanted == matching::matching(t, q, lo, hi),
            lo == rows.start,
            hi == rows.end,
            k <= ranges.keys().len(),
            bitmap::rows_of(bm) == passing(t, q, lo, hi, i as int, j as int, k as int),
        decreases ranges.keys().len() - k,
    {
        let name: &String = ranges.name_at(k);
        let filters = ranges.value_at(k);
        let ghost before = bitmap::rows_of(bm);
        let ghost after = passing(t, q, lo, hi, i as int, j as int, k + 1);
        let ghost n = name@;
        let found = store.column(name.as_str());
        let col: &Column = match found {
            Some(Column::String(_)) | None => {
                proof {
                    lemma_passing(t, q, lo, hi, i as int, j as int, k + 1);
                    assert forall|r: u32| !wanted.contains(r) by {
                        if wanted.contains(r) {
                            assert(after.contains(r));
                            assert(matching::in_range(
                                t,
                                ranges.keys()[k as int],
                                *filters,
                                r as int,
                            ));
                            assert(table::fits(t.kinds[t.index(n)], t.cells[t.index(n)][r as int]));
                        }
                    }
                    assert(wanted =~= Set::empty());
                }
                return RoaringBitmap::new();
            },
            Some(col) => col,
        };
        let kept = retain_numeric(&bm, col, filters);
        bm = kept;
        // Rows without a value hold placeholders that must not match any range.
        if let Some(nulls) = store.null_rows_for(name.as_str()) {
            bitmap::subtract(&mut bm, nulls);
        }
        proof {
            let cells = t.column(n);
            assert forall|r: u32| #[trigger] bitmap::rows_of(bm).contains(r) <==> after.contains(
                r,
            ) by {
                let _ = before.contains(r);
                if before.contains(r) {
                    column::lemma_stored_number(*col, cells, r as int);
                    assert(table::null_set(cells).contains(r) <==> cells[r as int] is Null);
                }
                if after.contains(r) {
                    assert(matching::in_range(t, ranges.keys()[k as int], *filters, r as int));
                }
            }
            assert(bitmap::rows_of(bm) =~= after);
            lemma_passing(t, q, lo, hi, i as int, j as int, k + 1);
        }
        if bm.is_empty() {
            assert(wanted =~= Set::empty());
            return bm;
        }
        k += 1;
    }
    proof {
        lemma_passing(t, q, lo, hi, i as int, j as int, k as int);
    }
    bm
}

/// Rows that are not in the set change no aggregate.
proof fn lemma_tally_gap(cells: Seq<Cell>, rows: Set<u32>, a: int, b: int)
    requires
        0 <= a <= b <= u32::MAX,
        forall|r: u32| a <= r < b ==> !rows.contains(r),
    ensures
        matching::tally(cells, rows, b) == matching::tally(cells, rows, a),
    decreases b,
{
    if a < b {
        lemma_tally_gap(cells, rows, a, b - 1);
        assert(!rows.contains((b - 1) as u32));
    }
}

/// The aggregates of a numeric column over a set of rows.
fn fold(
    matched: &Vec<u32>,
    col: &Column,
    nulls: Option<&RoaringBitmap>,
    cells: Ghost<Seq<Cell>>,
) -> (s: NumericStats)
    requires
        col.kind() != ColumnType::String,
        col.holds(cells@),
        cells@.len() <= u32::MAX,
        bitmap::ascending(matched@),
        forall|k: int| 0 <= k < matched@.len() ==> #[trigger] matched@[k] < cells@.len(),
        match nulls {
            Some(b) => bitmap::rows_of(*b) == table::null_set(cells@),
            None => table::null_set(cells@) == Set::<u32>::empty(),
        },
    ensures
        s == matching::tally(cells@, matched@.to_set(), cells@.len() as int),
{
    let ghost set = matched@.to_set();
    let ghost n = cells@.len() as int;
    let mut s = NumericStats::empty();
    let mut k: usize = 0;
    let ghost mut seen: int = 0;
    while k < matched.len()
        invariant
            col.kind() != ColumnType::String,
            col.holds(cells@),
            n == cells@.len(),
            n <= u32::MAX,
            set == matched@.to_set(),
            bitmap::ascending(matched@),
            forall|x: int| 0 <= x < matched@.len() ==> #[trigger] matched@[x] < n,
            match nulls {
                Some(b) => bitmap::rows_of(*b) == table::null_set(cells@),
                None => table::null_set(cells@) == Set::<u32>::empty(),
            },
            k <= matched@.len(),
            0 <= seen <= n,
            k < matched@.len() ==> seen <= matched@[k as int],
            forall|x: int| 0 <= x < k ==> #[trigger] matched@[x] < seen,
            s == matching::tally(cells@, set, seen),
        decreases matched@.len() - k,
    {
        let row: u32 = matched[k];
        proof {
            assert forall|r: u32| seen <= r < row implies !set.contains(r) by {
                if set.contains(r) {
                    let x = choose|x: int| 0 <= x < matched@.len() && matched@[x] == r;
                    if x > k {
                        assert(matched@[k as int] < matched@[x]);
                    }
                }
            }
            lemma_tally_gap(cells@, set, seen, row as int);
            matching::lemma_tally_count(cells@, set, row as int);
            assert(set.contains(matched@[k as int]));
            column::lemma_stored_number(*col, cells@, row as int);
            assert(table::null_set(cells@).contains(row) <==> cells@[row as int] is Null);
        }
        let missing: bool = match nulls {
            Some(b) => b.contains(row),
            None => false,
        };
        if !missing {
            s.observe(col.number_at(row as usize));
        }
        proof {
            seen = row + 1;
            assert(((seen - 1) as u32) == row);
        }
        k += 1;
    }
    proof {
        assert forall|r: u32| seen <= r < n implies !set.contains(r) by {
            if set.contains(r) {
                let x = choose|x: int| 0 <= x < matched@.len() && matched@[x] == r;
                assert(matched@[x] < seen);
            }
        }
        lemma_tally_gap(cells@, set, seen, n);
    }
    s
}

/// How many rows of a set carry each value of a string column.
fn count_values(matched: &RoaringBitmap, sc: &StringColumn, cells: Ghost<Seq<Cell>>) -> (r:
    NameMap<u64>)
    requires
        Column::String(*sc).holds(cells@),
        cells@.len() <= u32::MAX,
    ensures
        r.wf(),
        r@ == matching::hits(cells@, bitmap::rows_of(*matched)),
{
    let ghost l = sc.dictionary@;
    let ghost rows = bitmap::rows_of(*matched);
    let ghost all = matching::hits(cells@, rows);
    proof {
        sc.dictionary.lemma_wf();
    }
    let mut r: NameMap<u64> = NameMap::new();
    let total: usize = sc.dictionary.cardinality();
    let mut code: u32 = 0;
    while (code as usize) < total
        invariant
            Column::String(*sc).holds(cells@),
            cells@.len() <= u32::MAX,
            l == sc.dictionary@,
            l.wf(),
            rows == bitmap::rows_of(*matched),
            all == matching::hits(cells@, rows),
            total == l.words.len(),
            total <= u32::MAX,
            code <= total,
            r.wf(),
            forall|v: Seq<char>| #[trigger]
                r@.contains_key(v) <==> l.words.take(code as int).contains(v),
            forall|v: Seq<char>| #[trigger] r@.contains_key(v) ==> r@[v] == all[v],
        decreases total - code,
    {
        let ghost before = r@;
        let ghost word = l.words[code as int];
        if let (Some(value), Some(postings)) = (
            sc.dictionary.value_of(code),
            sc.dictionary.postings(code),
        ) {
            let hits: u64 = matched.intersection_len(postings);
            r.insert(value.to_owned(), hits);
            proof {
                let carrying = matching::rows_carrying(cells@, rows, word);
                assert forall|x: u32| #[trigger] carrying.contains(x) <==> rows.intersect(
                    l.postings[code as int],
                ).contains(x) by {
                    column::lemma_postings(*sc, cells@, code as int, x);
                }
                assert(carrying =~= rows.intersect(l.postings[code as int]));
                column::lemma_words_occur(*sc, cells@, word);
                assert(l.words.contains(word));
                assert(all.contains_key(word));
                assert(hits == all[word]);
            }
        }
        proof {
            assert(l.words.take(code + 1) =~= l.words.take(code as int).push(word));
            lemma_contains_push(l.words.take(code as int), word);
        }
        code += 1;
    }
    proof {
        assert(l.words.take(code as int) =~= l.words);
        assert forall|v: Seq<char>| #[trigger] r@.contains_key(v) <==> all.contains_key(v) by {
            column::lemma_words_occur(*sc, cells@, v);
        }
        assert(r@ =~= all);
    }
    r
}

/// What is reported of a set of rows.
pub fn aggregate(matched: &RoaringBitmap, store: &ColumnStore, string_value_counts: bool) -> (r:
    PartialResult)
    requires
        store.wf(),
        forall|row: u32| #[trigger] bitmap::rows_of(*matched).contains(row) ==> row < store@.rows,
    ensures
        r.wf(),
        r@ == matching::report(store@, bitmap::rows_of(*matched), string_value_counts),
        r@.bounded(store@.rows as int),
{
    let ghost t = store@;
    let ghost set = bitmap::rows_of(*matched);
    let ghost all = matching::report(t, set, string_value_counts);
    proof {
        store.lemma_wf();
    }
    let rows: Vec<u32> = bitmap::rows(matched);
    proof {
        assert forall|k: int| 0 <= k < rows@.len() implies #[trigger] rows@[k] < t.rows by {
            assert(rows@.to_set().contains(rows@[k]));
        }
    }
    let names = store.column_names();
    let mut numeric: NameMap<NumericStats> = NameMap::new();
    let mut string_counts: NameMap<NameMap<u64>> = NameMap::new();
    let mut c: usize = 0;
    while c < names.len()
        invariant
            store.wf(),
            t == store@,
            t.wf(),
            set == bitmap::rows_of(*matched),
            all == matching::report(t, set, string_value_counts),
            bitmap::ascending(rows@),
            rows@.to_set() == set,
            forall|k: int| 0 <= k < rows@.len() ==> #[trigger] rows@[k] < t.rows,
            text::texts(names@) == t.names,
            c <= names@.len(),
            numeric.wf(),
            string_counts.wf(),
            forall|n: Seq<char>| #[trigger]
                numeric@.contains_key(n) <==> t.names.take(c as int).contains(n)
                    && matching::aggregated(t, n),
            forall|n: Seq<char>| #[trigger]
                numeric@.contains_key(n) ==> numeric@[n] == all.numeric[n],
            forall|n: Seq<char>| #[trigger]
                string_counts@.contains_key(n) <==> t.names.take(c as int).contains(n)
                    && string_value_counts && matching::counted(t, n),
            forall|n: Seq<char>| #[trigger]
                string_counts@.contains_key(n) ==> string_counts@[n].wf() && string_counts@[n]@
                    == all.hits[n],
        decreases names@.len() - c,
    {
        let name: &String = &names[c];
        let ghost n = t.names[c as int];
        proof {
            assert(text::texts(names@)[c as int] == name@);
            assert(name@ == n);
            assert(t.names.contains(n));
            assert(t.index(n) == c);
            assert(t.names.take(c + 1) =~= t.names.take(c as int).push(n));
            lemma_contains_push(t.names.take(c as int), n);
        }
        if let Some(col) = store.column(name.as_str()) {
            match col {
                Column::String(sc) => {
                    if string_value_counts && !store.is_hidden(name.as_str()) {
                        let counts = count_values(matched, sc, Ghost(t.column(n)));
                        string_counts.insert(name.as_str().to_owned(), counts);
                    }
                },
                _ => {
                    let nulls = store.null_rows_for(name.as_str());
                    let stats = fold(&rows, col, nulls, Ghost(t.column(n)));
                    numeric.insert(name.as_str().to_owned(), stats);
                },
            }
        }
        c += 1;
    }
    let r = PartialResult {
        matched_rows: matched.len(),
        numeric,
        column_types: NameMap::new(),
        string_counts,
    };
    proof {
        assert(t.names.take(c as int) =~= t.names);
        assert(r@.numeric =~= all.numeric);
        assert(r@.hits =~= all.hits);
        assert(r@ =~= all);
        matching::lemma_report_bounded(t, set, string_value_counts);
    }
    r
}

/// What is reported of the rows of a task that match its query.
pub open spec fn result_of(t: Table, task: Task, counting: bool) -> Answer {
    matching::report(
        t,
        matching::matching(t, *task.query, task.rows.start as int, task.rows.end as int),
        counting,
    )
}

/// Evaluates a task: filters its rows and reports those that match.
pub fn execute(task: &Task, store: &ColumnStore, string_value_counts: bool) -> (r: PartialResult)
    requires
        task.query.wf(),
        store.wf(),
        task.rows.start <= u32::MAX,
        task.rows.end <= store@.rows,
    ensures
        r.wf(),
        r@ == result_of(store@, *task, string_value_counts),
        r@.bounded(store@.rows as int),
{
    let matched = evaluate_filter(&task.query, store, &task.rows);
    proof {
        store.lemma_wf();
    }
    aggregate(&matched, store, string_value_counts)
}

impl Worker {
    /// Evaluates a task against the worker's store.
    pub fn execute(&self, task: &Task) -> (r: PartialResult)
        requires
            task.query.wf(),
            self.store().wf(),
            task.rows.start <= u32::MAX,
            task.rows.end <= self.store()@.rows,
        ensures
            r.wf(),
            r@ == result_of(self.store()@, *task, self.counting()),
            r@.bounded(self.store()@.rows as int),
    {
        execute(task, &self.store, self.string_value_counts)
    }
}

/// A number is found in a range exactly if it lies between the bounds, by exact
/// values: `Gte` and `Lte` take their bound in, `Gt` and `Lt` do not.
pub proof fn law_numbers_in_a_range(value: Float64, rf: RangeFilter, r: bool)
    requires
        call_ensures(range_matches, (value, &rf), r),
        rf.lower matches Some(b) ==> b.comparison == Comparison::Gt || b.comparison
            == Comparison::Gte,
        rf.upper matches Some(b) ==> b.comparison == Comparison::Lt || b.comparison
            == Comparison::Lte,
    ensures
        r <==> {
            &&& rf.lower matches Some(b) ==> {
                &&& !value.nan() && !b.value.nan()
                &&& b.value.value() < value.value() || (b.comparison == Comparison::Gte
                    && b.value.value() == value.value())
            }
            &&& rf.upper matches Some(b) ==> {
                &&& !value.nan() && !b.value.nan()
                &&& value.value() < b.value.value() || (b.comparison == Comparison::Lte
                    && b.value.value() == value.value())
            }
        },
{
}

} // verus!
