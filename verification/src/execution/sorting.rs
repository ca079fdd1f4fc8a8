//! How rows are sorted and cut into chunks does not show in an answer.
use vstd::prelude::*;

use crate::execution::chunk::Task;
use crate::execution::laws;
use crate::execution::matching;
use crate::execution::planning;
use crate::query::{Answer, Query, QueryId};
use crate::storage::column::Cell;
use crate::storage::laws as storage_laws;
use crate::storage::table;
use crate::storage::table::Table;

verus! {

/// All rows of a table that match a query.
pub open spec fn all_matching(t: Table, q: Query) -> Set<u32> {
    matching::matching(t, q, 0, t.rows as int)
}

/// Sorting rows does not show: but for the sums, what is reported of the rows that
/// match a query is the same before and after.
pub proof fn law_sorting_does_not_show(
    t: Table,
    name: Seq<char>,
    after: Table,
    q: Query,
    counting: bool,
)
    requires
        t.wf(),
        t.sorted(name, after),
    ensures
        laws::agree(
            matching::report(t, all_matching(t, q), counting),
            matching::report(after, all_matching(after, q), counting),
        ),
{
    let a = matching::report(t, all_matching(t, q), counting);
    let b = matching::report(after, all_matching(after, q), counting);
    let n = t.rows as int;
    if t.rows == 0 {
        assert forall|c: Seq<char>| #[trigger] a.numeric.contains_key(c) implies laws::same_number(
            a.numeric[c].min,
            a.numeric[c].min,
        ) && laws::same_number(a.numeric[c].max, a.numeric[c].max) by {
            laws::lemma_tally_ends(t.column(c), all_matching(t, q), n);
        }
    } else {
        let order = choose|order: Seq<usize>|
            #[trigger] table::sorting(order, t.sort_ranks(name)) && after == t.reordered(
                name,
                order,
            );
        let x = all_matching(t, q);
        let y = all_matching(after, q);
        assert forall|c: Seq<char>| t.has(c) implies #[trigger] after.column(c) == table::arranged(
            t.column(c),
            order,
        ) by {}
        assert forall|k: u32| k < n implies (#[trigger] y.contains(k) <==> x.contains(
            order[k as int] as u32,
        )) by {
            lemma_matches_moved(t, after, order, q, k as int);
        }
        assert(moved(order, x, y, t.rows));
        lemma_same_size(order, x, y, t.rows);
        assert(a.numeric.dom() =~= b.numeric.dom());
        assert forall|c: Seq<char>| #[trigger] a.numeric.contains_key(c) implies {
            &&& a.numeric[c].count == b.numeric[c].count
            &&& laws::same_number(a.numeric[c].min, b.numeric[c].min)
            &&& laws::same_number(a.numeric[c].max, b.numeric[c].max)
        } by {
            assert(after.column(c) == table::arranged(t.column(c), order));
            assert(t.column(c).len() == t.rows);
            lemma_column_moved(t.column(c), order, x, y);
        }
        assert(a.hits.dom() =~= b.hits.dom());
        assert forall|c: Seq<char>| a.hits.contains_key(c) implies #[trigger] a.hits[c]
            == b.hits[c] by {
            assert(after.column(c) == table::arranged(t.column(c), order));
            assert(t.column(c).len() == t.rows);
            lemma_hits_moved(t.column(c), order, x, y);
        }
        assert(a.hits =~= b.hits);
    }
}

/// A row matches wherever it stands.
proof fn lemma_matches_moved(t: Table, after: Table, order: Seq<usize>, q: Query, k: int)
    requires
        t.wf(),
        after.names == t.names,
        0 <= k < order.len(),
        forall|c: Seq<char>|
            t.has(c) ==> #[trigger] after.column(c) == table::arranged(t.column(c), order),
    ensures
        matching::matches(after, q, k) <==> matching::matches(t, q, order[k] as int),
{
    let r = order[k] as int;
    assert forall|c: Seq<char>| t.has(c) implies #[trigger] after.column(c)[k]
        == t.column(c)[r] by {
        assert(after.column(c) == table::arranged(t.column(c), order));
    }
    assert forall|c: Seq<char>| #[trigger] q.must.0@.contains_key(c) implies matching::hit(
        after,
        c,
        q.must.0@[c],
        k,
    ) == matching::hit(t, c, q.must.0@[c], r) by {
        if t.has(c) {
            assert(after.column(c)[k] == t.column(c)[r]);
        }
    }
    assert forall|c: Seq<char>| #[trigger] q.must_not.0@.contains_key(c) implies matching::hit(
        after,
        c,
        q.must_not.0@[c],
        k,
    ) == matching::hit(t, c, q.must_not.0@[c], r) by {
        if t.has(c) {
            assert(after.column(c)[k] == t.column(c)[r]);
        }
    }
    assert forall|c: Seq<char>| #[trigger] q.ranges@.contains_key(c) implies matching::in_range(
        after,
        c,
        q.ranges@[c],
        k,
    ) == matching::in_range(t, c, q.ranges@[c], r) by {
        if t.has(c) {
            assert(after.column(c)[k] == t.column(c)[r]);
        }
    }
}

/// Whether `b` are the rows of `a` where they stand in another order.
spec fn moved(order: Seq<usize>, a: Set<u32>, b: Set<u32>, n: nat) -> bool {
    &&& table::permutation(order, n)
    &&& n <= u32::MAX
    &&& forall|r: u32| #[trigger] a.contains(r) ==> r < n
    &&& forall|r: u32| #[trigger] b.contains(r) ==> r < n
    &&& forall|k: u32| k < n ==> (#[trigger] b.contains(k) <==> a.contains(order[k as int] as u32))
}

/// Rows are as many wherever they stand.
proof fn lemma_same_size(order: Seq<usize>, a: Set<u32>, b: Set<u32>, n: nat)
    requires
        moved(order, a, b, n),
    ensures
        a.len() == b.len(),
{
    let f = |k: u32| order[k as int] as u32;
    matching::lemma_rows_below(b, n as int);
    assert forall|r: u32| #[trigger] a.contains(r) <==> b.map(f).contains(r) by {
        if a.contains(r) {
            lemma_place(order, a, b, n, r);
            let k = choose|k: u32| b.contains(k) && #[trigger] order[k as int] == r as usize;
            assert(f(k) == r);
        }
    }
    assert(b.map(f) =~= a);
    assert forall|j: u32, k: u32| b.contains(j) && b.contains(k) && #[trigger] f(j)
        == #[trigger] f(k) implies j == k by {
        assert(order[j as int] < n && order[k as int] < n);
        assert(order[j as int] == order[k as int]);
    }
    vstd::set_lib::lemma_map_size(b, a, f);
}

/// Where a row stands in another order.
proof fn lemma_place(order: Seq<usize>, a: Set<u32>, b: Set<u32>, n: nat, r: u32)
    requires
        moved(order, a, b, n),
        a.contains(r),
    ensures
        exists|k: u32| b.contains(k) && #[trigger] order[k as int] == r as usize,
{
    table::lemma_permutation_reaches(order, r as usize);
    let k = choose|k: int| 0 <= k < order.len() && order[k] == r as usize;
    assert(b.contains(k as u32));
    assert(order[k as u32 as int] == r as usize);
}

/// The rows of a set that have a number.
spec fn rows_with_number(cells: Seq<Cell>, rows: Set<u32>, n: int) -> Set<u32> {
    Set::new(|r: u32| r < n && rows.contains(r) && cells[r as int].number() is Some)
}

/// The aggregates count the rows that have a number.
proof fn lemma_tally_counts(cells: Seq<Cell>, rows: Set<u32>, n: int)
    requires
        0 <= n <= u32::MAX,
    ensures
        matching::tally(cells, rows, n).count == rows_with_number(cells, rows, n).len(),
    decreases n,
{
    let now = rows_with_number(cells, rows, n);
    matching::lemma_rows_below(now, n);
    if n == 0 {
        assert(now =~= Set::empty());
    } else {
        lemma_tally_counts(cells, rows, n - 1);
        matching::lemma_tally_count(cells, rows, n - 1);
        let before = rows_with_number(cells, rows, n - 1);
        matching::lemma_rows_below(before, n - 1);
        let last = (n - 1) as u32;
        if now.contains(last) {
            assert(now =~= before.insert(last));
        } else {
            assert(now =~= before);
        }
    }
}

/// The aggregates of a column are the same wherever its rows stand, but for the
/// sum.
proof fn lemma_column_moved(cells: Seq<Cell>, order: Seq<usize>, a: Set<u32>, b: Set<u32>)
    requires
        moved(order, a, b, cells.len()),
    ensures
        ({
            let n = cells.len() as int;
            let s = matching::tally(cells, a, n);
            let u = matching::tally(table::arranged(cells, order), b, n);
            &&& s.count == u.count
            &&& laws::same_number(s.min, u.min)
            &&& laws::same_number(s.max, u.max)
        }),
{
    let n = cells.len() as int;
    let after = table::arranged(cells, order);
    let s = matching::tally(cells, a, n);
    let u = matching::tally(after, b, n);
    lemma_tally_counts(cells, a, n);
    lemma_tally_counts(after, b, n);
    lemma_same_size(
        order,
        rows_with_number(cells, a, n),
        rows_with_number(after, b, n),
        cells.len(),
    );
    laws::lemma_tally_ends(cells, a, n);
    laws::lemma_tally_ends(after, b, n);
    assert forall|k: int| 0 <= k < n && b.contains(k as u32) implies a.contains(
        (#[trigger] order[k]) as u32,
    ) && after[k] == cells[order[k] as int] by {}
    assert(laws::least(cells, a, n, u.min) && laws::greatest(cells, a, n, u.max)) by {
        assert forall|r: int| 0 <= r < n && a.contains(r as u32) implies (
        #[trigger] cells[r].number() matches Some(v) ==> !v.below(u.min) && !u.max.below(v)) by {
            lemma_place(order, a, b, cells.len(), r as u32);
            let k = choose|k: u32| b.contains(k) && #[trigger] order[k as int] == r as u32 as usize;
            assert(after[k as int] == cells[r]);
            assert(after[k as int].number() == cells[r].number());
        }
        if u.min.bits != crate::float64::INFINITE {
            let k = choose|k: int|
                0 <= k < n && b.contains(k as u32) && #[trigger] after[k].number() == Some(u.min);
            assert(a.contains(order[k] as u32));
            assert(cells[order[k] as int].number() == Some(u.min));
        }
        if u.max.bits != crate::query::NEGATIVE_INFINITE {
            let k = choose|k: int|
                0 <= k < n && b.contains(k as u32) && #[trigger] after[k].number() == Some(u.max);
            assert(a.contains(order[k] as u32));
            assert(cells[order[k] as int].number() == Some(u.max));
        }
    }
    laws::lemma_ends_are_unique(cells, a, n, s.min, u.min);
    laws::lemma_ends_are_unique(cells, a, n, s.max, u.max);
}

/// The hits of a column are the same wherever its rows stand.
proof fn lemma_hits_moved(cells: Seq<Cell>, order: Seq<usize>, a: Set<u32>, b: Set<u32>)
    requires
        moved(order, a, b, cells.len()),
    ensures
        matching::hits(cells, a) == matching::hits(table::arranged(cells, order), b),
{
    let after = table::arranged(cells, order);
    let x = matching::hits(cells, a);
    let y = matching::hits(after, b);
    assert forall|v: Seq<char>| #[trigger] matching::texts_in(cells).contains(v)
        <==> matching::texts_in(after).contains(v) by {
        if matching::texts_in(cells).contains(v) {
            let r = choose|r: int| 0 <= r < cells.len() && #[trigger] cells[r] == Cell::Text(v);
            table::lemma_permutation_reaches(order, r as usize);
            let k = choose|k: int| 0 <= k < order.len() && order[k] == r as usize;
            assert(after[k] == Cell::Text(v));
        }
        if matching::texts_in(after).contains(v) {
            let k = choose|k: int| 0 <= k < after.len() && #[trigger] after[k] == Cell::Text(v);
            assert(cells[order[k] as int] == Cell::Text(v));
        }
    }
    assert(x.dom() =~= y.dom());
    assert forall|v: Seq<char>| x.contains_key(v) implies #[trigger] x[v] == y[v] by {
        lemma_same_size(
            order,
            matching::rows_carrying(cells, a, v),
            matching::rows_carrying(after, b, v),
            cells.len(),
        );
    }
    assert(x =~= y);
}

/// Whether two tables hold the same rows, however they are cut into chunks.
pub open spec fn same_rows(t: Table, u: Table) -> bool {
    &&& t.names == u.names
    &&& t.kinds == u.kinds
    &&& t.hidden == u.hidden
    &&& t.cells == u.cells
    &&& t.rows == u.rows
}

/// Whether `after` is a table as it is queried: sorted by the partition column, if
/// there is one.
pub open spec fn prepared(t: Table, partition: Option<Seq<char>>, after: Table) -> bool {
    match partition {
        Some(name) => t.sort_fault(name) is None && t.sorted(name, after),
        None => after == t,
    }
}

/// Whether `order` lists the numbers below `n`, each once.
pub open spec fn any_order(order: Seq<int>, n: nat) -> bool {
    &&& order.len() == n
    &&& order.no_duplicates()
    &&& forall|k: int| 0 <= k < n ==> 0 <= #[trigger] order[k] < n
}

/// Whether a query may be answered so: at once if there is no task, else once the
/// results of the tasks were folded, in any order.
pub open spec fn answers(t: Table, q: Query, counting: bool, a: Answer) -> bool {
    if planning::dispatched(t, q, t.chunk_count() as int).len() == 0 {
        a == matching::report(t, Set::empty(), counting)
    } else {
        exists|id: QueryId, tasks: Seq<Task>, order: Seq<int>| #[trigger]
            planning::are_tasks(t, q, id, tasks) && #[trigger] any_order(order, tasks.len()) && a
                == laws::folded(t, laws::in_order(t, q, tasks, order), counting)
    }
}

/// Neither the size of chunks nor the partition column nor the order in which
/// workers report shows: two engines over the same rows answer a query with the
/// same number of rows, and with the same number of values, minimum, maximum and
/// hits per column: those of the rows that match.
pub proof fn law_engines_agree(
    t: Table,
    u: Table,
    t_partition: Option<Seq<char>>,
    u_partition: Option<Seq<char>>,
    t_after: Table,
    u_after: Table,
    q: Query,
    counting: bool,
    a: Answer,
    b: Answer,
)
    requires
        t.wf(),
        t.zoned(),
        u.wf(),
        u.zoned(),
        same_rows(t, u),
        prepared(t, t_partition, t_after),
        prepared(u, u_partition, u_after),
        answers(t_after, q, counting, a),
        answers(u_after, q, counting, b),
    ensures
        laws::agree(a, b),
        laws::agree(a, matching::report(t, all_matching(t, q), counting)),
{
    let x = matching::report(t, all_matching(t, q), counting);
    let y = matching::report(u, all_matching(u, q), counting);
    lemma_answer_is_right(t, t_partition, t_after, q, counting, a);
    lemma_answer_is_right(u, u_partition, u_after, q, counting, b);
    lemma_same_report(t, u, q, counting);
    assert(x == y);
}

/// What is reported does not depend on how rows are cut into chunks.
proof fn lemma_same_report(t: Table, u: Table, q: Query, counting: bool)
    requires
        same_rows(t, u),
    ensures
        matching::report(t, all_matching(t, q), counting) == matching::report(
            u,
            all_matching(u, q),
            counting,
        ),
{
    assert forall|r: u32| #[trigger] all_matching(t, q).contains(r) <==> all_matching(
        u,
        q,
    ).contains(r) by {
        let row = r as int;
        assert forall|c: Seq<char>| #[trigger] q.must.0@.contains_key(c) implies matching::hit(
            t,
            c,
            q.must.0@[c],
            row,
        ) == matching::hit(u, c, q.must.0@[c], row) by {}
        assert forall|c: Seq<char>| #[trigger] q.must_not.0@.contains_key(c) implies matching::hit(
            t,
            c,
            q.must_not.0@[c],
            row,
        ) == matching::hit(u, c, q.must_not.0@[c], row) by {}
        assert forall|c: Seq<char>| #[trigger] q.ranges@.contains_key(c) implies matching::in_range(
            t,
            c,
            q.ranges@[c],
            row,
        ) == matching::in_range(u, c, q.ranges@[c], row) by {}
    }
    assert(all_matching(t, q) =~= all_matching(u, q));
    let x = matching::report(t, all_matching(t, q), counting);
    let y = matching::report(u, all_matching(u, q), counting);
    assert(x.numeric =~= y.numeric);
    assert(x.hits =~= y.hits);
    assert(x =~= y);
}

/// An answer agrees with what is reported of the rows as they were loaded.
pub proof fn lemma_answer_is_right(
    t: Table,
    partition: Option<Seq<char>>,
    after: Table,
    q: Query,
    counting: bool,
    a: Answer,
)
    requires
        t.wf(),
        t.zoned(),
        prepared(t, partition, after),
        answers(after, q, counting, a),
    ensures
        laws::agree(a, matching::report(t, all_matching(t, q), counting)),
{
    if let Some(name) = partition {
        storage_laws::law_sorted_rows_are_zoned(t, name, after);
        if t.rows > 0 {
            storage_laws::law_sorting_keeps_every_row(t, name, after, 0);
        }
        law_sorting_does_not_show(t, name, after, q, counting);
    }
    let b = matching::report(after, all_matching(after, q), counting);
    if planning::dispatched(after, q, after.chunk_count() as int).len() == 0 {
        laws::law_no_task_no_match(after, q, counting);
        assert forall|c: Seq<char>| #[trigger] a.numeric.contains_key(c) implies laws::same_number(
            a.numeric[c].min,
            a.numeric[c].min,
        ) && laws::same_number(a.numeric[c].max, a.numeric[c].max) by {
            laws::lemma_tally_ends(after.column(c), Set::empty(), after.rows as int);
        }
    } else {
        let (id, tasks, order) = choose|id: QueryId, tasks: Seq<Task>, order: Seq<int>| #[trigger]
            planning::are_tasks(after, q, id, tasks) && #[trigger] any_order(order, tasks.len())
                && a == laws::folded(after, laws::in_order(after, q, tasks, order), counting);
        laws::law_answer_is_that_of_all_matching_rows(after, q, id, tasks, order, counting);
    }
    assert(laws::agree(a, b));
}

} // verus!
