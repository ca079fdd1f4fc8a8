//! What holds of queries as a whole: how rows are cut into chunks, which chunks
//! may be left out, and that partial results add up.
use vstd::prelude::*;

use crate::config::ColumnType;
use crate::execution::chunk::Task;
use crate::execution::matching;
use crate::execution::planning;
use crate::float64;
use crate::float64::{Float64, STEP};
use crate::query;
use crate::query::{Answer, NumericStats, Query, QueryId};
use crate::storage::column::Cell;
use crate::storage::laws as storage_laws;
use crate::storage::partition;
use crate::storage::table;
use crate::storage::table::Table;

verus! {

/// Every row lies in one of the chunks, and in no other.
pub proof fn law_every_row_is_in_one_chunk(t: Table, r: int, d: int)
    requires
        t.wf(),
        0 <= r < t.rows,
        0 <= d < t.chunk_count(),
    ensures
        0 <= r / (t.chunk as int) < t.chunk_count(),
        d * t.chunk <= r <= table::last_row(t.rows, t.chunk, d) <==> d == r / (t.chunk as int),
{
    let chunk = t.chunk as int;
    let c = r / chunk;
    vstd::arithmetic::div_mod::lemma_fundamental_div_mod(r, chunk);
    let m = r % chunk;
    assert(0 <= c) by (nonlinear_arith)
        requires
            c == r / chunk,
            0 <= r,
            0 < chunk,
    ;
    assert(c * chunk == chunk * c) by (nonlinear_arith);
    assert(c * chunk <= r);
    partition::lemma_chunk_end(t.rows, t.chunk, c);
    assert((d + 1) * chunk == d * chunk + chunk) by (nonlinear_arith);
    if d < c {
        assert((d + 1) * chunk <= c * chunk) by (nonlinear_arith)
            requires
                d + 1 <= c,
                0 < chunk,
        ;
    }
    if d > c {
        assert((c + 1) * chunk <= d * chunk) by (nonlinear_arith)
            requires
                c + 1 <= d,
                0 < chunk,
        ;
    }
}

/// Chunk `c` starts at a row of the table and ends with one.
proof fn lemma_chunk_bounds(t: Table, c: int)
    requires
        t.wf(),
        0 <= c < t.chunk_count(),
    ensures
        0 <= c * t.chunk <= table::last_row(t.rows, t.chunk, c) < t.rows,
{
    let chunk = t.chunk as int;
    let q = t.rows as int / chunk;
    let m = t.rows as int % chunk;
    vstd::arithmetic::div_mod::lemma_fundamental_div_mod(t.rows as int, chunk);
    assert(0 <= c * chunk && c * chunk < t.rows) by (nonlinear_arith)
        requires
            0 <= c,
            0 < chunk,
            t.rows == chunk * q + m,
            0 <= m < chunk,
            c < q || (c == q && m > 0),
    ;
    assert((c + 1) * chunk == c * chunk + chunk) by (nonlinear_arith);
}

/// The chunks that are handed out are those that are not skipped, each once, in
/// ascending order.
pub proof fn lemma_dispatched(t: Table, q: Query, n: int)
    requires
        0 <= n,
    ensures
        forall|k: int|
            0 <= k < planning::dispatched(t, q, n).len() ==> 0 <= (
            #[trigger] planning::dispatched(t, q, n)[k]) < n && !planning::skipped(
                t,
                q,
                planning::dispatched(t, q, n)[k],
            ),
        forall|j: int, k: int|
            0 <= j < k < planning::dispatched(t, q, n).len() ==> planning::dispatched(t, q, n)[j]
                < planning::dispatched(t, q, n)[k],
        forall|c: int|
            0 <= c < n && !planning::skipped(t, q, c) ==> #[trigger] planning::dispatched(
                t,
                q,
                n,
            ).contains(c),
    decreases n,
{
    if n > 0 {
        lemma_dispatched(t, q, n - 1);
        let before = planning::dispatched(t, q, n - 1);
        let all = planning::dispatched(t, q, n);
        assert forall|c: int| 0 <= c < n && !planning::skipped(t, q, c) implies #[trigger] all.contains(
            c,
        ) by {
            if c < n - 1 {
                assert(before.contains(c));
                let k = before.index_of(c);
                assert(all[k] == c);
            } else {
                assert(all[before.len() as int] == c);
            }
        }
    }
}

/// The tasks of a query stay within the table, and none is empty.
pub proof fn law_tasks_stay_within_the_table(t: Table, q: Query, id: QueryId, tasks: Seq<Task>, k: int)
    requires
        t.wf(),
        planning::are_tasks(t, q, id, tasks),
        0 <= k < tasks.len(),
    ensures
        tasks[k].rows.start < tasks[k].rows.end <= t.rows,
{
    let chunks = planning::dispatched(t, q, t.chunk_count() as int);
    lemma_dispatched(t, q, t.chunk_count() as int);
    assert(planning::is_task(t, q, id, chunks[k], tasks[k]));
    lemma_chunk_bounds(t, chunks[k]);
}

/// No two tasks of a query look at the same row.
pub proof fn law_tasks_are_disjoint(
    t: Table,
    q: Query,
    id: QueryId,
    tasks: Seq<Task>,
    j: int,
    k: int,
)
    requires
        t.wf(),
        planning::are_tasks(t, q, id, tasks),
        0 <= j < tasks.len(),
        0 <= k < tasks.len(),
        j != k,
    ensures
        tasks[j].rows.end <= tasks[k].rows.start || tasks[k].rows.end <= tasks[j].rows.start,
{
    let chunks = planning::dispatched(t, q, t.chunk_count() as int);
    lemma_dispatched(t, q, t.chunk_count() as int);
    let c = chunks[j];
    let d = chunks[k];
    assert(planning::is_task(t, q, id, c, tasks[j]));
    assert(planning::is_task(t, q, id, d, tasks[k]));
    lemma_chunk_bounds(t, c);
    lemma_chunk_bounds(t, d);
    let chunk = t.chunk as int;
    assert(c < d ==> (c + 1) * chunk <= d * chunk) by (nonlinear_arith)
        requires
            0 < chunk,
    ;
    assert(d < c ==> (d + 1) * chunk <= c * chunk) by (nonlinear_arith)
        requires
            0 < chunk,
    ;
    if j < k {
        assert(c < d);
    } else {
        assert(d < c);
    }
}

/// Leaving chunks out is sound: no row of a chunk that is skipped matches.
pub proof fn law_skipped_chunk_has_no_match(t: Table, q: Query, c: int, r: int)
    requires
        t.wf(),
        t.zoned(),
        0 <= c < t.chunk_count(),
        planning::skipped(t, q, c),
        c * t.chunk <= r <= table::last_row(t.rows, t.chunk, c),
    ensures
        !matching::matches(t, q, r),
{
    let (name, zones) = t.zones->0;
    let keys = t.sort_keys(name);
    let filters = q.ranges@[name];
    let first = c * t.chunk;
    let last = table::last_row(t.rows, t.chunk, c);
    lemma_chunk_bounds(t, c);
    let lo = keys[first];
    let hi = keys[last];
    assert(zones[c] == (lo, hi));
    if matching::matches(t, q, r) {
        assert(q.ranges@.contains_key(name));
        assert(matching::in_range(t, name, filters, r));
        let v = t.column(name)[r].number()->0;
        assert(keys[r] == v);
        let i = choose|i: int| 0 <= i < filters@.len() && (#[trigger] filters@[i]).admits(v);
        storage_laws::lemma_zoned_keys(t, name, first, r);
        storage_laws::lemma_zoned_keys(t, name, r, last);
        if filters@[i].upper is Some && !lo.nan() && !v.nan() {
            float64::law_rank_agrees_with_order(lo, v);
        }
        if filters@[i].lower is Some && !hi.nan() && !v.nan() {
            float64::law_rank_agrees_with_order(v, hi);
        }
        assert(planning::overlaps(lo, hi, filters@[i]));
        assert(false);
    }
}

/// Every row that matches is looked at by one of the tasks.
pub proof fn law_every_match_has_a_task(t: Table, q: Query, id: QueryId, tasks: Seq<Task>, r: int)
    requires
        t.wf(),
        t.zoned(),
        planning::are_tasks(t, q, id, tasks),
        0 <= r < t.rows,
        matching::matches(t, q, r),
    ensures
        exists|k: int|
            0 <= k < tasks.len() && (#[trigger] tasks[k]).rows.start <= r < tasks[k].rows.end,
{
    let c = r / (t.chunk as int);
    partition::lemma_chunk_end(t.rows, t.chunk, 0);
    law_every_row_is_in_one_chunk(t, r, 0);
    law_every_row_is_in_one_chunk(t, r, c);
    if planning::skipped(t, q, c) {
        law_skipped_chunk_has_no_match(t, q, c, r);
    }
    let chunks = planning::dispatched(t, q, t.chunk_count() as int);
    lemma_dispatched(t, q, t.chunk_count() as int);
    assert(chunks.contains(c));
    let k = chunks.index_of(c);
    assert(planning::is_task(t, q, id, chunks[k], tasks[k]));
    assert(tasks[k].rows.start <= r < tasks[k].rows.end);
}

/// What the partial results over some sets of rows fold to.
pub open spec fn folded(t: Table, sets: Seq<Set<u32>>, counting: bool) -> Answer
    decreases sets.len(),
{
    if sets.len() == 0 {
        Answer::blank()
    } else {
        folded(t, sets.drop_last(), counting).merged(matching::report(t, sets.last(), counting))
    }
}

/// Folding goes on step by step: merging what is reported of one more set of rows
/// into what was folded so far is folding one set more.
pub proof fn law_folding_goes_on(
    t: Table,
    sets: Seq<Set<u32>>,
    rows: Set<u32>,
    counting: bool,
    so_far: Answer,
)
    requires
        so_far == folded(t, sets, counting),
    ensures
        so_far.merged(matching::report(t, rows, counting)) == folded(t, sets.push(rows), counting),
{
    assert(sets.push(rows).drop_last() =~= sets);
}

/// The rows that are in one of some sets.
pub open spec fn united(sets: Seq<Set<u32>>) -> Set<u32> {
    Set::new(|r: u32| exists|i: int| 0 <= i < sets.len() && (#[trigger] sets[i]).contains(r))
}

/// Sets of rows of a table, no two with a row in common.
pub open spec fn apart(t: Table, sets: Seq<Set<u32>>) -> bool {
    &&& forall|i: int, r: u32|
        0 <= i < sets.len() && #[trigger] sets[i].contains(r) ==> r < t.rows
    &&& forall|i: int, j: int, r: u32|
        0 <= i < sets.len() && 0 <= j < sets.len() && #[trigger] sets[i].contains(r)
            && #[trigger] sets[j].contains(r) ==> i == j
}

/// Whether two numbers are the same, `-0` and `+0` included.
pub open spec fn same_number(a: Float64, b: Float64) -> bool {
    !a.nan() && !b.nan() && a.value() == b.value()
}

/// Whether two answers agree but for the sums.
pub open spec fn agree(a: Answer, b: Answer) -> bool {
    &&& a.matched == b.matched
    &&& a.hits == b.hits
    &&& a.numeric.dom() == b.numeric.dom()
    &&& forall|n: Seq<char>| #[trigger]
        a.numeric.contains_key(n) ==> {
            &&& a.numeric[n].count == b.numeric[n].count
            &&& same_number(a.numeric[n].min, b.numeric[n].min)
            &&& same_number(a.numeric[n].max, b.numeric[n].max)
        }
}

/// Whether `x` is a lower end of the numbers in a set of rows: none is below it,
/// and it is one of them, or infinite.
pub open spec fn least(cells: Seq<Cell>, rows: Set<u32>, n: int, x: Float64) -> bool {
    &&& !x.nan()
    &&& forall|r: int|
        0 <= r < n && rows.contains(r as u32) ==> (#[trigger] cells[r].number() matches Some(v)
            ==> !v.below(x))
    &&& x.bits == float64::INFINITE || exists|r: int|
        0 <= r < n && rows.contains(r as u32) && #[trigger] cells[r].number() == Some(x)
}

/// Whether `x` is an upper end of the numbers in a set of rows.
pub open spec fn greatest(cells: Seq<Cell>, rows: Set<u32>, n: int, x: Float64) -> bool {
    &&& !x.nan()
    &&& forall|r: int|
        0 <= r < n && rows.contains(r as u32) ==> (#[trigger] cells[r].number() matches Some(v)
            ==> !x.below(v))
    &&& x.bits == query::NEGATIVE_INFINITE || exists|r: int|
        0 <= r < n && rows.contains(r as u32) && #[trigger] cells[r].number() == Some(x)
}

/// The aggregates hold a lower and an upper end.
pub proof fn lemma_tally_ends(cells: Seq<Cell>, rows: Set<u32>, n: int)
    requires
        0 <= n <= u32::MAX,
    ensures
        least(cells, rows, n, matching::tally(cells, rows, n).min),
        greatest(cells, rows, n, matching::tally(cells, rows, n).max),
    decreases n,
{
    if n > 0 {
        lemma_tally_ends(cells, rows, n - 1);
        let before = matching::tally(cells, rows, n - 1);
        let s = matching::tally(cells, rows, n);
        if rows.contains((n - 1) as u32) {
            if let Some(v) = cells[n - 1].number() {
                assert forall|r: int|
                    0 <= r < n && rows.contains(r as u32) implies (#[trigger] cells[r].number() matches Some(
                    w,
                ) ==> !w.below(s.min) && !s.max.below(w)) by {}
                if s.min != before.min {
                    assert(cells[n - 1].number() == Some(s.min));
                } else if s.min.bits != float64::INFINITE {
                    let r = choose|r: int|
                        0 <= r < n - 1 && rows.contains(r as u32) && #[trigger] cells[r].number()
                            == Some(s.min);
                    assert(cells[r].number() == Some(s.min));
                }
                if s.max != before.max {
                    assert(cells[n - 1].number() == Some(s.max));
                } else if s.max.bits != query::NEGATIVE_INFINITE {
                    let r = choose|r: int|
                        0 <= r < n - 1 && rows.contains(r as u32) && #[trigger] cells[r].number()
                            == Some(s.max);
                    assert(cells[r].number() == Some(s.max));
                }
            }
        }
    }
}

/// Two lower ends of the same numbers are the same number, and so are two upper
/// ends.
pub proof fn lemma_ends_are_unique(cells: Seq<Cell>, rows: Set<u32>, n: int, x: Float64, y: Float64)
    ensures
        least(cells, rows, n, x) && least(cells, rows, n, y) ==> same_number(x, y),
        greatest(cells, rows, n, x) && greatest(cells, rows, n, y) ==> same_number(x, y),
{
    lemma_infinite_is_extreme(x);
    lemma_infinite_is_extreme(y);
}

/// Nothing is above infinity, and nothing below negative infinity.
pub proof fn lemma_infinite_is_extreme(x: Float64)
    ensures
        !x.nan() ==> {
            &&& x.value() <= (Float64 { bits: float64::INFINITE }).value()
            &&& (Float64 { bits: query::NEGATIVE_INFINITE }).value() <= x.value()
        },
{
    if !x.nan() {
        let top = float64::INFINITE as nat;
        float64::lemma_magnitude_order(x.low(), top);
        float64::lemma_magnitude_order(0, x.low());
        float64::lemma_magnitude_order(0, top);
    }
}

/// Counts of disjoint sets of rows add up.
proof fn lemma_tally_counts_add(cells: Seq<Cell>, a: Set<u32>, b: Set<u32>, n: int)
    requires
        0 <= n <= u32::MAX,
        a.disjoint(b),
    ensures
        matching::tally(cells, a.union(b), n).count == matching::tally(cells, a, n).count
            + matching::tally(cells, b, n).count,
    decreases n,
{
    if n > 0 {
        lemma_tally_counts_add(cells, a, b, n - 1);
        matching::lemma_tally_count(cells, a.union(b), n - 1);
        matching::lemma_tally_count(cells, a, n - 1);
        matching::lemma_tally_count(cells, b, n - 1);
    }
}

/// Sets whose rows the first sets have, and the last adds to them.
pub proof fn lemma_united(t: Table, sets: Seq<Set<u32>>)
    requires
        t.wf(),
        apart(t, sets),
        sets.len() > 0,
    ensures
        apart(t, sets.drop_last()),
        united(sets) == united(sets.drop_last()).union(sets.last()),
        united(sets.drop_last()).disjoint(sets.last()),
        united(sets).finite(),
        united(sets.drop_last()).finite(),
        sets.last().finite(),
        forall|r: u32| #[trigger] united(sets).contains(r) ==> r < t.rows,
        forall|r: u32| #[trigger] united(sets.drop_last()).contains(r) ==> r < t.rows,
        forall|r: u32| #[trigger] sets.last().contains(r) ==> r < t.rows,
{
    let first = sets.drop_last();
    let last = sets.last();
    let k = sets.len() - 1;
    assert forall|i: int, r: u32| 0 <= i < first.len() && #[trigger] first[i].contains(r) implies r
        < t.rows by {
        assert(sets[i].contains(r));
    }
    assert forall|i: int, j: int, r: u32|
        0 <= i < first.len() && 0 <= j < first.len() && #[trigger] first[i].contains(r)
            && #[trigger] first[j].contains(r) implies i == j by {
        assert(sets[i].contains(r) && sets[j].contains(r));
    }
    assert forall|r: u32| #[trigger] united(sets).contains(r) <==> united(first).union(
        last,
    ).contains(r) by {
        if united(sets).contains(r) {
            let i = choose|i: int| 0 <= i < sets.len() && (#[trigger] sets[i]).contains(r);
            if i < k {
                assert(first[i].contains(r));
            }
        }
        if united(first).contains(r) {
            let i = choose|i: int| 0 <= i < first.len() && (#[trigger] first[i]).contains(r);
            assert(sets[i].contains(r));
        }
        if last.contains(r) {
            assert(sets[k].contains(r));
        }
    }
    assert(united(sets) =~= united(first).union(last));
    assert forall|r: u32| #[trigger] united(first).contains(r) implies !last.contains(r) by {
        let i = choose|i: int| 0 <= i < first.len() && (#[trigger] first[i]).contains(r);
        assert(sets[i].contains(r));
        if last.contains(r) {
            assert(sets[k].contains(r));
        }
    }
    assert forall|r: u32| #[trigger] united(sets).contains(r) implies r < t.rows by {
        let i = choose|i: int| 0 <= i < sets.len() && (#[trigger] sets[i]).contains(r);
        assert(sets[i].contains(r));
    }
    assert forall|r: u32| #[trigger] united(first).contains(r) implies r < t.rows by {
        assert(united(sets).contains(r));
    }
    assert forall|r: u32| #[trigger] last.contains(r) implies r < t.rows by {
        assert(united(sets).contains(r));
    }
    matching::lemma_rows_below(united(sets), t.rows as int);
    matching::lemma_rows_below(united(first), t.rows as int);
    matching::lemma_rows_below(last, t.rows as int);
}

/// The aggregates of a column over disjoint sets of rows merge to those over all
/// of them, but for the sum.
proof fn lemma_merge_stats(
    cells: Seq<Cell>,
    a: Set<u32>,
    b: Set<u32>,
    n: int,
    s: NumericStats,
)
    requires
        0 <= n <= u32::MAX,
        a.disjoint(b),
        s.count == matching::tally(cells, a, n).count,
        least(cells, a, n, s.min),
        greatest(cells, a, n, s.max),
    ensures
        ({
            let m = s.merged(matching::tally(cells, b, n));
            let all = matching::tally(cells, a.union(b), n);
            &&& m.count == all.count
            &&& least(cells, a.union(b), n, m.min)
            &&& greatest(cells, a.union(b), n, m.max)
        }),
{
    let u = a.union(b);
    let tb = matching::tally(cells, b, n);
    let m = s.merged(tb);
    lemma_tally_counts_add(cells, a, b, n);
    lemma_tally_ends(cells, b, n);
    matching::lemma_tally_count(cells, a, n);
    matching::lemma_tally_count(cells, b, n);
    if m.min.bits != float64::INFINITE {
        if tb.min.below(s.min) {
            let r = choose|r: int|
                0 <= r < n && b.contains(r as u32) && #[trigger] cells[r].number() == Some(tb.min);
            assert(cells[r].number() == Some(m.min) && u.contains(r as u32));
        } else {
            let r = choose|r: int|
                0 <= r < n && a.contains(r as u32) && #[trigger] cells[r].number() == Some(s.min);
            assert(cells[r].number() == Some(m.min) && u.contains(r as u32));
        }
    }
    if m.max.bits != query::NEGATIVE_INFINITE {
        if s.max.below(tb.max) {
            let r = choose|r: int|
                0 <= r < n && b.contains(r as u32) && #[trigger] cells[r].number() == Some(tb.max);
            assert(cells[r].number() == Some(m.max) && u.contains(r as u32));
        } else {
            let r = choose|r: int|
                0 <= r < n && a.contains(r as u32) && #[trigger] cells[r].number() == Some(s.max);
            assert(cells[r].number() == Some(m.max) && u.contains(r as u32));
        }
    }
    assert forall|r: int|
        0 <= r < n && u.contains(r as u32) implies (#[trigger] cells[r].number() matches Some(v)
        ==> !v.below(m.min) && !m.max.below(v)) by {
        if a.contains(r as u32) {
        } else {
            assert(b.contains(r as u32));
        }
    }
}

/// The hits of a column over disjoint sets of rows merge to those over all of
/// them.
proof fn lemma_merge_hits(cells: Seq<Cell>, a: Set<u32>, b: Set<u32>)
    requires
        cells.len() <= u32::MAX,
        a.disjoint(b),
    ensures
        query::merged_hits(matching::hits(cells, a), matching::hits(cells, b)) == matching::hits(
            cells,
            a.union(b),
        ),
{
    let u = a.union(b);
    let m = query::merged_hits(matching::hits(cells, a), matching::hits(cells, b));
    let all = matching::hits(cells, u);
    let n = cells.len() as int;
    assert forall|v: Seq<char>| all.contains_key(v) implies #[trigger] m[v] == all[v] by {
        let ra = matching::rows_carrying(cells, a, v);
        let rb = matching::rows_carrying(cells, b, v);
        let ru = matching::rows_carrying(cells, u, v);
        matching::lemma_rows_below(ra, n);
        matching::lemma_rows_below(rb, n);
        matching::lemma_rows_below(ru, n);
        assert(ru =~= ra + rb);
        vstd::set_lib::lemma_set_disjoint_lens(ra, rb);
    }
    assert(m.dom() =~= all.dom());
    assert(m =~= all);
}

/// What is known of a fold: it reports what a single pass over all rows would,
/// but for the sums.
spec fn folds_to(t: Table, a: Answer, rows: Set<u32>, counting: bool) -> bool {
    &&& a.matched == rows.len()
    &&& forall|n: Seq<char>| #[trigger]
        a.numeric.contains_key(n) <==> matching::aggregated(t, n)
    &&& forall|n: Seq<char>| #[trigger]
        a.numeric.contains_key(n) ==> {
            let cells = t.column(n);
            &&& a.numeric[n].count == matching::tally(cells, rows, t.rows as int).count
            &&& least(cells, rows, t.rows as int, a.numeric[n].min)
            &&& greatest(cells, rows, t.rows as int, a.numeric[n].max)
        }
    &&& a.hits == matching::report(t, rows, counting).hits
}

proof fn lemma_folded(t: Table, sets: Seq<Set<u32>>, counting: bool)
    requires
        t.wf(),
        apart(t, sets),
        sets.len() > 0,
    ensures
        folds_to(t, folded(t, sets, counting), united(sets), counting),
    decreases sets.len(),
{
    let first = sets.drop_last();
    let last = sets.last();
    let u = united(sets);
    let n = t.rows as int;
    lemma_united(t, sets);
    let whole = matching::report(t, u, counting);
    let part = matching::report(t, last, counting);
    let a = folded(t, sets, counting);
    if first.len() == 0 {
        assert(united(first) =~= Set::empty());
        assert(u =~= last);
        assert(folded(t, first, counting) == Answer::blank());
        assert(a.numeric =~= part.numeric);
        assert(a.hits =~= part.hits);
        assert forall|c: Seq<char>| #[trigger] a.numeric.contains_key(c) implies least(
            t.column(c),
            u,
            n,
            a.numeric[c].min,
        ) && greatest(t.column(c), u, n, a.numeric[c].max) by {
            lemma_tally_ends(t.column(c), last, n);
        }
    } else {
        lemma_folded(t, first, counting);
        let before = folded(t, first, counting);
        let uf = united(first);
        vstd::set_lib::lemma_set_disjoint_lens(uf, last);
        assert(uf + last =~= u);
        assert forall|c: Seq<char>| #[trigger] a.numeric.contains_key(c) implies {
            let cells = t.column(c);
            &&& a.numeric[c].count == matching::tally(cells, u, n).count
            &&& least(cells, u, n, a.numeric[c].min)
            &&& greatest(cells, u, n, a.numeric[c].max)
        } by {
            assert(before.numeric.contains_key(c));
            lemma_merge_stats(t.column(c), uf, last, n, before.numeric[c]);
        }
        assert(a.hits.dom() =~= whole.hits.dom());
        assert forall|c: Seq<char>| whole.hits.contains_key(c) implies #[trigger] a.hits[c]
            == whole.hits[c] by {
            assert(before.hits.contains_key(c) && part.hits.contains_key(c));
            lemma_merge_hits(t.column(c), uf, last);
        }
        assert(a.hits =~= whole.hits);
    }
}

/// Partial results add up: folding what is reported of disjoint sets of rows, in
/// any order, gives what is reported of all of them at once. Sums are left out:
/// the addition of binary numbers rounds, so their last digits may depend on the
/// order.
pub proof fn law_partial_results_add_up(t: Table, sets: Seq<Set<u32>>, counting: bool)
    requires
        t.wf(),
        apart(t, sets),
        sets.len() > 0,
    ensures
        agree(folded(t, sets, counting), matching::report(t, united(sets), counting)),
{
    lemma_folded(t, sets, counting);
    let a = folded(t, sets, counting);
    let u = united(sets);
    let b = matching::report(t, u, counting);
    let n = t.rows as int;
    assert(a.numeric.dom() =~= b.numeric.dom());
    assert forall|c: Seq<char>| #[trigger] a.numeric.contains_key(c) implies same_number(
        a.numeric[c].min,
        b.numeric[c].min,
    ) && same_number(a.numeric[c].max, b.numeric[c].max) by {
        lemma_tally_ends(t.column(c), u, n);
        lemma_ends_are_unique(t.column(c), u, n, a.numeric[c].min, b.numeric[c].min);
        lemma_ends_are_unique(t.column(c), u, n, a.numeric[c].max, b.numeric[c].max);
    }
}

/// The rows that match within a task.
pub open spec fn task_rows(t: Table, q: Query, task: Task) -> Set<u32> {
    matching::matching(t, q, task.rows.start as int, task.rows.end as int)
}

/// The sets of rows that match within some tasks, in some order.
pub open spec fn in_order(t: Table, q: Query, tasks: Seq<Task>, order: Seq<int>) -> Seq<Set<u32>> {
    Seq::new(order.len(), |k: int| task_rows(t, q, tasks[order[k]]))
}

/// How rows are cut into chunks, which chunks are left out, and in which order
/// workers report does not show in the answer: but for the sums it is what is
/// reported of all rows that match.
pub proof fn law_answer_is_that_of_all_matching_rows(
    t: Table,
    q: Query,
    id: QueryId,
    tasks: Seq<Task>,
    order: Seq<int>,
    counting: bool,
)
    requires
        t.wf(),
        t.zoned(),
        planning::are_tasks(t, q, id, tasks),
        tasks.len() > 0,
        order.len() == tasks.len(),
        order.no_duplicates(),
        forall|k: int| 0 <= k < order.len() ==> 0 <= #[trigger] order[k] < tasks.len(),
    ensures
        agree(
            folded(t, in_order(t, q, tasks, order), counting),
            matching::report(t, matching::matching(t, q, 0, t.rows as int), counting),
        ),
{
    lemma_tasks_cover(t, q, id, tasks, order);
    law_partial_results_add_up(t, in_order(t, q, tasks, order), counting);
}

/// The tasks of a query cover the rows that match, each once.
pub proof fn lemma_tasks_cover(
    t: Table,
    q: Query,
    id: QueryId,
    tasks: Seq<Task>,
    order: Seq<int>,
)
    requires
        t.wf(),
        t.zoned(),
        planning::are_tasks(t, q, id, tasks),
        order.len() == tasks.len(),
        order.no_duplicates(),
        forall|k: int| 0 <= k < order.len() ==> 0 <= #[trigger] order[k] < tasks.len(),
    ensures
        apart(t, in_order(t, q, tasks, order)),
        united(in_order(t, q, tasks, order)) == matching::matching(t, q, 0, t.rows as int),
{
    let sets = in_order(t, q, tasks, order);
    let all = matching::matching(t, q, 0, t.rows as int);
    assert forall|i: int, r: u32| 0 <= i < sets.len() && #[trigger] sets[i].contains(r) implies r
        < t.rows by {
        law_tasks_stay_within_the_table(t, q, id, tasks, order[i]);
    }
    assert forall|i: int, j: int, r: u32|
        0 <= i < sets.len() && 0 <= j < sets.len() && #[trigger] sets[i].contains(r)
            && #[trigger] sets[j].contains(r) implies i == j by {
        if i != j {
            assert(order[i] != order[j]);
            law_tasks_are_disjoint(t, q, id, tasks, order[i], order[j]);
        }
    }
    assert forall|r: u32| #[trigger] united(sets).contains(r) <==> all.contains(r) by {
        if united(sets).contains(r) {
            let i = choose|i: int| 0 <= i < sets.len() && (#[trigger] sets[i]).contains(r);
            assert(sets[i].contains(r));
        }
        if all.contains(r) {
            law_every_match_has_a_task(t, q, id, tasks, r as int);
            let k = choose|k: int|
                0 <= k < tasks.len() && (#[trigger] tasks[k]).rows.start <= r < tasks[k].rows.end;
            lemma_order_reaches(order, k);
            let i = choose|i: int| 0 <= i < order.len() && order[i] == k;
            assert(sets[i].contains(r));
        }
    }
    assert(united(sets) =~= all);
}

/// An order without repetitions reaches every number below its length.
proof fn lemma_order_reaches(order: Seq<int>, x: int)
    requires
        order.no_duplicates(),
        forall|k: int| 0 <= k < order.len() ==> 0 <= #[trigger] order[k] < order.len(),
        0 <= x < order.len(),
    ensures
        exists|i: int| 0 <= i < order.len() && order[i] == x,
{
    if forall|i: int| 0 <= i < order.len() ==> order[i] != x {
        let n = order.len() as int;
        let all = vstd::set_lib::set_int_range(0, n);
        vstd::set_lib::lemma_int_range(0, n);
        order.unique_seq_to_set();
        let reached = order.to_set();
        assert(reached.subset_of(all.remove(x)));
        vstd::set_lib::lemma_len_subset(reached, all.remove(x));
        assert(false);
    }
}

/// A query of which no task is handed out matches no row, so that its answer,
/// which is what is reported of no row, is that of all rows that match.
pub proof fn law_no_task_no_match(t: Table, q: Query, counting: bool)
    requires
        t.wf(),
        t.zoned(),
        planning::dispatched(t, q, t.chunk_count() as int).len() == 0,
    ensures
        forall|r: int| 0 <= r < t.rows ==> !#[trigger] matching::matches(t, q, r),
        matching::report(t, Set::empty(), counting) == matching::report(
            t,
            matching::matching(t, q, 0, t.rows as int),
            counting,
        ),
{
    assert forall|r: int| 0 <= r < t.rows implies !#[trigger] matching::matches(t, q, r) by {
        let c = r / (t.chunk as int);
        partition::lemma_chunk_end(t.rows, t.chunk, 0);
        law_every_row_is_in_one_chunk(t, r, 0);
        law_every_row_is_in_one_chunk(t, r, c);
        lemma_dispatched(t, q, t.chunk_count() as int);
        if !planning::skipped(t, q, c) {
            assert(planning::dispatched(t, q, t.chunk_count() as int).contains(c));
        }
        law_skipped_chunk_has_no_match(t, q, c, r);
    }
    assert(matching::matching(t, q, 0, t.rows as int) =~= Set::empty());
}

/// A query without clauses matches every row.
pub proof fn law_empty_query_matches_every_row(t: Table, q: Query, r: int)
    requires
        q.must.0@.dom().is_empty(),
        q.must_not.0@.dom().is_empty(),
        q.ranges@.dom().is_empty(),
    ensures
        matching::matches(t, q, r),
{
    assert forall|n: Seq<char>| !q.must.0@.contains_key(n) && !q.must_not.0@.contains_key(n)
        && !q.ranges@.contains_key(n) by {
        assert(!q.must.0@.dom().contains(n));
        assert(!q.must_not.0@.dom().contains(n));
        assert(!q.ranges@.dom().contains(n));
    }
}

/// A row without a value in a column never matches a `must` or range filter on
/// it, and no `must_not` filter on it keeps the row out.
pub proof fn law_missing_values_in_filters(t: Table, q: Query, n: Seq<char>, r: int)
    requires
        t.has(n),
        t.column(n)[r] is Null,
    ensures
        q.must.0@.contains_key(n) ==> !matching::matches(t, q, r),
        q.ranges@.contains_key(n) ==> !matching::matches(t, q, r),
        q.must_not.0@.contains_key(n) ==> !matching::hit(t, n, q.must_not.0@[n], r),
{
}

/// No more values are aggregated, and no value has more hits, than rows match.
pub proof fn law_counts_never_exceed_matches(
    t: Table,
    rows: Set<u32>,
    counting: bool,
    n: Seq<char>,
    v: Seq<char>,
)
    requires
        t.wf(),
        forall|r: u32| #[trigger] rows.contains(r) ==> r < t.rows,
    ensures
        ({
            let a = matching::report(t, rows, counting);
            &&& a.numeric.contains_key(n) ==> a.numeric[n].count <= a.matched
            &&& a.hits.contains_key(n) && a.hits[n].contains_key(v) ==> a.hits[n][v] <= a.matched
        }),
{
    let a = matching::report(t, rows, counting);
    matching::lemma_rows_below(rows, t.rows as int);
    if a.numeric.contains_key(n) {
        lemma_tally_count_rows(t.column(n), rows, t.rows as int);
    }
    if a.hits.contains_key(n) && a.hits[n].contains_key(v) {
        let c = matching::rows_carrying(t.column(n), rows, v);
        vstd::set_lib::lemma_len_subset(c, rows);
    }
}

proof fn lemma_tally_count_rows(cells: Seq<Cell>, rows: Set<u32>, n: int)
    requires
        0 <= n <= u32::MAX,
        forall|r: u32| #[trigger] rows.contains(r) ==> r < n,
    ensures
        matching::tally(cells, rows, n).count <= rows.len(),
    decreases n,
{
    matching::lemma_rows_below(rows, n);
    if n > 0 {
        let last = (n - 1) as u32;
        let rest = rows.remove(last);
        assert forall|r: u32| #[trigger] rest.contains(r) implies r < n - 1 by {
            assert(rows.contains(r));
        }
        lemma_tally_count_rows(cells, rest, n - 1);
        lemma_tally_same(cells, rows, rest, n - 1);
        matching::lemma_tally_count(cells, rows, n - 1);
    }
}

/// The aggregates of the first rows do not depend on rows behind them.
proof fn lemma_tally_same(cells: Seq<Cell>, a: Set<u32>, b: Set<u32>, n: int)
    requires
        0 <= n <= u32::MAX,
        forall|r: u32| r < n ==> (a.contains(r) <==> b.contains(r)),
    ensures
        matching::tally(cells, a, n) == matching::tally(cells, b, n),
    decreases n,
{
    if n > 0 {
        lemma_tally_same(cells, a, b, n - 1);
        assert(a.contains((n - 1) as u32) <==> b.contains((n - 1) as u32));
    }
}

/// The integer in a cell; zero if there is none.
pub open spec fn integer_in(cell: Cell) -> int {
    match cell {
        Cell::Integer(i) => i as int,
        Cell::DateTime(i) => i as int,
        _ => 0,
    }
}

/// The exact total of the integers in the rows of a set, of the first `n` rows.
pub open spec fn total(cells: Seq<Cell>, rows: Set<u32>, n: int) -> int
    decreases n,
{
    if n <= 0 {
        0
    } else {
        total(cells, rows, n - 1) + if rows.contains((n - 1) as u32) {
            integer_in(cells[n - 1])
        } else {
            0
        }
    }
}

/// The total of the integers in the first `n` rows without their signs.
pub open spec fn size(cells: Seq<Cell>, n: int) -> int
    decreases n,
{
    if n <= 0 {
        0
    } else {
        let i = integer_in(cells[n - 1]);
        size(cells, n - 1) + if i < 0 {
            -i
        } else {
            i
        }
    }
}

/// Small integers are added exactly.
proof fn lemma_integers_add(x: int, y: int)
    requires
        -2 * STEP <= x <= 2 * STEP,
        -2 * STEP <= y <= 2 * STEP,
        -2 * STEP <= x + y <= 2 * STEP,
    ensures
        float64::sum(float64::of_int(x as i64), float64::of_int(y as i64)) == float64::of_int(
            (x + y) as i64,
        ),
{
    let a = float64::of_int(x as i64);
    let b = float64::of_int(y as i64);
    let one = float64::one();
    float64::law_small_integers_are_exact(x as i64);
    float64::law_small_integers_are_exact(y as i64);
    assert(a.value() + b.value() == (x + y) * one) by (nonlinear_arith)
        requires
            a.value() == x * one,
            b.value() == y * one,
    ;
    vstd::arithmetic::power2::lemma_pow2_pos(1074);
    lemma_negative_only_below_zero(x);
    lemma_negative_only_below_zero(y);
    if x + y == 0 {
        vstd::arithmetic::power2::lemma2_to64();
        assert(0 * one == 0) by (nonlinear_arith);
    } else {
        assert((x + y) * one != 0) by (nonlinear_arith)
            requires
                x + y != 0,
                one > 0,
        ;
    }
}

/// An integer that is not negative turns into a number without a sign.
proof fn lemma_negative_only_below_zero(x: int)
    requires
        -2 * STEP <= x <= 2 * STEP,
    ensures
        float64::of_int(x as i64).negative() ==> x < 0,
{
    let one = float64::one();
    vstd::arithmetic::power2::lemma_pow2_pos(1074);
    if x >= 0 {
        assert(x * one >= 0) by (nonlinear_arith)
            requires
                x >= 0,
                one > 0,
        ;
        float64::lemma_nearest_bound((x * one) as nat);
    }
}

/// Small integers are summed exactly, and so far within their size.
proof fn lemma_tally_sum(cells: Seq<Cell>, rows: Set<u32>, n: int)
    requires
        0 <= n <= u32::MAX,
        forall|r: int| 0 <= r < n ==> !(#[trigger] cells[r] is Float),
        size(cells, n) <= 2 * STEP,
    ensures
        matching::tally(cells, rows, n).sum == float64::of_int(total(cells, rows, n) as i64),
        -size(cells, n) <= total(cells, rows, n) <= size(cells, n),
    decreases n,
{
    if n == 0 {
        vstd::arithmetic::power2::lemma2_to64();
        let one = float64::one();
        assert(0 * one == 0) by (nonlinear_arith);
    } else {
        lemma_size_grows(cells, n - 1, n);
        lemma_tally_sum(cells, rows, n - 1);
        let before = total(cells, rows, n - 1);
        let i = integer_in(cells[n - 1]);
        assert(!(cells[n - 1] is Float));
        if rows.contains((n - 1) as u32) && cells[n - 1].number() is Some {
            lemma_integers_add(before, i);
        }
    }
}

proof fn lemma_size_grows(cells: Seq<Cell>, a: int, b: int)
    requires
        0 <= a <= b,
    ensures
        0 <= size(cells, a) <= size(cells, b),
    decreases b,
{
    if a < b {
        lemma_size_grows(cells, a, b - 1);
    } else if b > 0 {
        lemma_size_grows(cells, b - 1, b - 1);
    }
}

proof fn lemma_totals_add(cells: Seq<Cell>, a: Set<u32>, b: Set<u32>, n: int)
    requires
        0 <= n <= u32::MAX,
        a.disjoint(b),
    ensures
        total(cells, a.union(b), n) == total(cells, a, n) + total(cells, b, n),
    decreases n,
{
    if n > 0 {
        lemma_totals_add(cells, a, b, n - 1);
    }
}

/// Sums of integers do not depend on how rows were cut into chunks either, and are
/// exact, as long as the integers of the column add up to no more than 53 binary
/// places even without their signs.
pub proof fn law_small_integer_sums_add_up(
    t: Table,
    sets: Seq<Set<u32>>,
    counting: bool,
    n: Seq<char>,
)
    requires
        t.wf(),
        apart(t, sets),
        sets.len() > 0,
        t.has(n),
        t.kind(n) == ColumnType::Integer || t.kind(n) == ColumnType::DateTime,
        size(t.column(n), t.rows as int) <= 2 * STEP,
    ensures
        folded(t, sets, counting).numeric[n].sum == float64::of_int(
            total(t.column(n), united(sets), t.rows as int) as i64,
        ),
        folded(t, sets, counting).numeric[n].sum == matching::report(
            t,
            united(sets),
            counting,
        ).numeric[n].sum,
    decreases sets.len(),
{
    let cells = t.column(n);
    let rows = t.rows as int;
    let first = sets.drop_last();
    let last = sets.last();
    lemma_united(t, sets);
    assert forall|r: int| 0 <= r < rows implies !(#[trigger] cells[r] is Float) by {
        assert(table::fits(t.kinds[t.index(n)], t.cells[t.index(n)][r]));
    }
    lemma_tally_sum(cells, last, rows);
    lemma_tally_sum(cells, united(sets), rows);
    let part = matching::report(t, last, counting);
    assert(part.numeric.contains_key(n));
    if first.len() == 0 {
        assert(united(first) =~= Set::empty());
        assert(united(sets) =~= last);
        assert(folded(t, first, counting) == Answer::blank());
    } else {
        law_small_integer_sums_add_up(t, first, counting, n);
        lemma_folded(t, first, counting);
        assert(folded(t, first, counting).numeric.contains_key(n));
        lemma_totals_add(cells, united(first), last, rows);
        lemma_tally_sum(cells, united(first), rows);
        lemma_integers_add(
            total(cells, united(first), rows),
            total(cells, last, rows),
        );
    }
}

} // verus!
