//! What queries and their answers mean, told from the cells of the table.
use vstd::arithmetic::power2::*;
use vstd::prelude::*;

use crate::config::ColumnType;
use crate::execution::laws;
use crate::execution::matching;
use crate::execution::planning;
use crate::execution::sorting;
use crate::float64;
use crate::float64::{Float64, STEP};
use crate::query;
use crate::query::{Answer, Comparison, Query, RangeFilter};
use crate::storage::column::Cell;
use crate::storage::table::Table;

verus! {

/// Which rows match: in every column of `must` the row carries one of the texts,
/// in every column of `must_not` it carries none of them, and in every column of
/// the ranges it has a number that lies between the bounds of one of them.
pub proof fn law_which_rows_match(t: Table, q: Query, r: int)
    requires
        t.wf(),
        0 <= r < t.rows,
        bounds_point_inward(q),
    ensures
        matching::matches(t, q, r) <==> {
            &&& forall|n: Seq<char>| #[trigger]
                q.must.0@.contains_key(n) ==> exists|c: int, i: int|
                    0 <= c < t.names.len() && t.names[c] == n && 0 <= i
                        < q.must.0@[n].values@.len() && #[trigger] t.cells[c][r] == Cell::Text(
                        #[trigger] q.must.0@[n].values@[i]@,
                    )
            &&& forall|n: Seq<char>, c: int, i: int|
                q.must_not.0@.contains_key(n) && 0 <= c < t.names.len() && t.names[c] == n && 0 <= i
                    < q.must_not.0@[n].values@.len() ==> #[trigger] t.cells[c][r] != Cell::Text(
                    #[trigger] q.must_not.0@[n].values@[i]@,
                )
            &&& forall|n: Seq<char>| #[trigger]
                q.ranges@.contains_key(n) ==> exists|c: int, i: int, v: Float64|
                    0 <= c < t.names.len() && t.names[c] == n && 0 <= i < q.ranges@[n]@.len()
                        && #[trigger] stands_in(v, t.cells[c][r]) && #[trigger] lies_between(
                        v,
                        q.ranges@[n]@[i],
                    )
        },
{
    if matching::matches(t, q, r) {
        assert forall|n: Seq<char>| #[trigger] q.must.0@.contains_key(n) implies exists|
            c: int,
            i: int,
        |
            0 <= c < t.names.len() && t.names[c] == n && 0 <= i < q.must.0@[n].values@.len()
                && #[trigger] t.cells[c][r] == Cell::Text(
                #[trigger] q.must.0@[n].values@[i]@,
            ) by {
            let c = t.names.index_of(n);
            let texts = crate::text::texts(q.must.0@[n].values@);
            assert(matching::hit(t, n, q.must.0@[n], r));
            let s = t.cells[c][r]->Text_0;
            let i = texts.index_of(s);
            assert(texts[i] == q.must.0@[n].values@[i]@);
            assert(t.cells[c][r] == Cell::Text(q.must.0@[n].values@[i]@));
        }
        assert forall|n: Seq<char>, c: int, i: int|
            q.must_not.0@.contains_key(n) && 0 <= c < t.names.len() && t.names[c] == n && 0 <= i
                < q.must_not.0@[n].values@.len() implies #[trigger] t.cells[c][r] != Cell::Text(
            #[trigger] q.must_not.0@[n].values@[i]@,
        ) by {
            let texts = crate::text::texts(q.must_not.0@[n].values@);
            assert(texts[i] == q.must_not.0@[n].values@[i]@);
            assert(texts.contains(texts[i]));
            assert(t.names.index_of(n) == c);
        }
        assert forall|n: Seq<char>| #[trigger] q.ranges@.contains_key(n) implies exists|
            c: int,
            i: int,
            v: Float64,
        |
            0 <= c < t.names.len() && t.names[c] == n && 0 <= i < q.ranges@[n]@.len()
                && #[trigger] stands_in(v, t.cells[c][r]) && #[trigger] lies_between(
                v,
                q.ranges@[n]@[i],
            ) by {
            let c = t.names.index_of(n);
            assert(matching::in_range(t, n, q.ranges@[n], r));
            let v = t.cells[c][r].number()->0;
            let i = choose|i: int|
                0 <= i < q.ranges@[n]@.len() && (#[trigger] q.ranges@[n]@[i]).admits(v);
            query::law_range_admits_what_lies_between(q.ranges@[n]@[i], v);
            assert(stands_in(v, t.cells[c][r]));
            assert(lies_between(v, q.ranges@[n]@[i]));
        }
    } else {
        let missing = choose|n: Seq<char>|
            q.must.0@.contains_key(n) && !#[trigger] matching::hit(t, n, q.must.0@[n], r);
        let excluded = choose|n: Seq<char>|
            q.must_not.0@.contains_key(n) && #[trigger] matching::hit(t, n, q.must_not.0@[n], r);
        let outside = choose|n: Seq<char>|
            q.ranges@.contains_key(n) && !#[trigger] matching::in_range(t, n, q.ranges@[n], r);
        if q.must.0@.contains_key(missing) && !matching::hit(t, missing, q.must.0@[missing], r) {
            let n = missing;
            let texts = crate::text::texts(q.must.0@[n].values@);
            assert forall|c: int, i: int|
                0 <= c < t.names.len() && t.names[c] == n && 0 <= i
                    < q.must.0@[n].values@.len() implies #[trigger] t.cells[c][r] != Cell::Text(
                #[trigger] q.must.0@[n].values@[i]@,
            ) by {
                assert(texts[i] == q.must.0@[n].values@[i]@);
                assert(texts.contains(texts[i]));
                assert(t.names.index_of(n) == c);
            }
        } else if q.must_not.0@.contains_key(excluded) && matching::hit(
            t,
            excluded,
            q.must_not.0@[excluded],
            r,
        ) {
            let n = excluded;
            let c = t.names.index_of(n);
            let texts = crate::text::texts(q.must_not.0@[n].values@);
            let i = texts.index_of(t.cells[c][r]->Text_0);
            assert(texts[i] == q.must_not.0@[n].values@[i]@);
            assert(t.cells[c][r] == Cell::Text(q.must_not.0@[n].values@[i]@));
        } else {
            let n = outside;
            assert(q.ranges@.contains_key(n) && !matching::in_range(t, n, q.ranges@[n], r));
            assert forall|c: int, i: int, v: Float64|
                0 <= c < t.names.len() && t.names[c] == n && 0 <= i < q.ranges@[n]@.len()
                    && #[trigger] stands_in(v, t.cells[c][r]) implies !#[trigger] lies_between(
                v,
                q.ranges@[n]@[i],
            ) by {
                assert(t.names.index_of(n) == c);
                query::law_range_admits_what_lies_between(q.ranges@[n]@[i], v);
                assert(q.ranges@[n]@[i].admits(v) ==> matching::in_range(t, n, q.ranges@[n], r));
            }
        }
    }
}

/// Whether lower bounds are `Gt` or `Gte`, and upper bounds `Lt` or `Lte`.
pub open spec fn bounds_point_inward(q: Query) -> bool {
    forall|n: Seq<char>, i: int|
        q.ranges@.contains_key(n) && 0 <= i < q.ranges@[n]@.len() ==> {
            let f = #[trigger] q.ranges@[n]@[i];
            &&& f.lower matches Some(b) ==> b.comparison == Comparison::Gt || b.comparison
                == Comparison::Gte
            &&& f.upper matches Some(b) ==> b.comparison == Comparison::Lt || b.comparison
                == Comparison::Lte
        }
}

/// Whether a cell has this number: its own, or the one nearest to its integer or
/// its epoch second.
pub open spec fn stands_in(v: Float64, cell: Cell) -> bool {
    match cell {
        Cell::Float(f) => v == f,
        Cell::Integer(i) => v == float64::of_int(i),
        Cell::DateTime(i) => v == float64::of_int(i),
        _ => false,
    }
}

/// Whether a number lies between the bounds of a range, by exact values.
pub open spec fn lies_between(v: Float64, f: RangeFilter) -> bool {
    &&& f.lower matches Some(b) ==> {
        &&& !v.nan() && !b.value.nan()
        &&& b.value.value() < v.value() || (b.comparison == Comparison::Gte && b.value.value()
            == v.value())
    }
    &&& f.upper matches Some(b) ==> {
        &&& !v.nan() && !b.value.nan()
        &&& v.value() < b.value.value() || (b.comparison == Comparison::Lte && b.value.value()
            == v.value())
    }
}

/// The numbers of a column in the rows of a set, in the order of the rows, of the
/// first `n` rows.
pub open spec fn numbers_in(cells: Seq<Cell>, rows: Set<u32>, n: int) -> Seq<Float64>
    decreases n,
{
    if n <= 0 {
        Seq::empty()
    } else {
        let before = numbers_in(cells, rows, n - 1);
        if rows.contains((n - 1) as u32) {
            match cells[n - 1] {
                Cell::Float(f) => before.push(f),
                Cell::Integer(i) => before.push(float64::of_int(i)),
                Cell::DateTime(i) => before.push(float64::of_int(i)),
                _ => before,
            }
        } else {
            before
        }
    }
}

/// Numbers added up one after the other, from zero on.
pub open spec fn added_up(numbers: Seq<Float64>) -> Float64 {
    numbers.fold_left(Float64 { bits: 0 }, |s: Float64, v: Float64| float64::sum(s, v))
}

/// What is reported of a column: how many numbers the rows have in it, their sum
/// from the first row to the last, and the least and the greatest of them. Where
/// there are none, or none but not-a-numbers, the ends are infinite.
pub proof fn law_what_is_reported_of_a_column(t: Table, rows: Set<u32>, counting: bool, c: int)
    requires
        t.wf(),
        0 <= c < t.names.len(),
        t.kinds[c] != ColumnType::String,
    ensures
        ({
            let a = matching::report(t, rows, counting);
            let numbers = numbers_in(t.cells[c], rows, t.rows as int);
            let s = a.numeric[t.names[c]];
            &&& a.numeric.contains_key(t.names[c])
            &&& s.count == numbers.len()
            &&& s.sum == added_up(numbers)
            &&& !s.min.nan() && !s.max.nan()
            &&& forall|k: int|
                0 <= k < numbers.len() && !(#[trigger] numbers[k]).nan() ==> s.min.value()
                    <= numbers[k].value() <= s.max.value()
            &&& s.min.bits == float64::INFINITE || numbers.contains(s.min)
            &&& s.max.bits == query::NEGATIVE_INFINITE || numbers.contains(s.max)
        }),
{
    let name = t.names[c];
    assert(t.names.index_of(name) == c);
    assert(t.names.contains(name));
    lemma_tally(t.cells[c], rows, t.rows as int);
}

/// The aggregates of the first rows, told from their numbers.
proof fn lemma_tally(cells: Seq<Cell>, rows: Set<u32>, n: int)
    requires
        0 <= n <= u32::MAX,
    ensures
        ({
            let s = matching::tally(cells, rows, n);
            let numbers = numbers_in(cells, rows, n);
            &&& s.count == numbers.len()
            &&& numbers.len() <= n
            &&& s.sum == added_up(numbers)
            &&& !s.min.nan() && !s.max.nan()
            &&& forall|k: int|
                0 <= k < numbers.len() && !(#[trigger] numbers[k]).nan() ==> s.min.value()
                    <= numbers[k].value() <= s.max.value()
            &&& s.min.bits == float64::INFINITE || numbers.contains(s.min)
            &&& s.max.bits == query::NEGATIVE_INFINITE || numbers.contains(s.max)
        }),
    decreases n,
{
    let s = matching::tally(cells, rows, n);
    let numbers = numbers_in(cells, rows, n);
    if n > 0 {
        lemma_tally(cells, rows, n - 1);
        let before = numbers_in(cells, rows, n - 1);
        let p = matching::tally(cells, rows, n - 1);
        if rows.contains((n - 1) as u32) && cells[n - 1].number() is Some {
            let v = cells[n - 1].number()->0;
            query::law_observing_takes_the_value_in(p, v);
            assert(numbers == before.push(v));
            assert(numbers.drop_last() =~= before);
            assert(numbers[before.len() as int] == v);
            assert forall|k: int|
                0 <= k < numbers.len() && !(#[trigger] numbers[k]).nan() implies s.min.value()
                <= numbers[k].value() <= s.max.value() by {
                if k < before.len() {
                    assert(numbers[k] == before[k]);
                }
            }
            if before.contains(p.min) {
                let k = before.index_of(p.min);
                assert(numbers[k] == p.min);
            }
            if before.contains(p.max) {
                let k = before.index_of(p.max);
                assert(numbers[k] == p.max);
            }
        }
    }
}

/// What is reported as a whole: the number of rows, the columns of numbers and
/// points in time, and with counting the texts of every string column that is not
/// hidden, each with the number of rows that carry it.
pub proof fn law_what_is_reported(
    t: Table,
    rows: Set<u32>,
    counting: bool,
    n: Seq<char>,
    v: Seq<char>,
)
    requires
        t.wf(),
        forall|r: u32| #[trigger] rows.contains(r) ==> r < t.rows,
    ensures
        ({
            let a = matching::report(t, rows, counting);
            &&& rows.finite() && a.matched == rows.len()
            &&& a.numeric.contains_key(n) <==> exists|c: int|
                0 <= c < t.names.len() && #[trigger] t.names[c] == n && t.kinds[c]
                    != ColumnType::String
            &&& a.hits.contains_key(n) <==> counting && exists|c: int|
                0 <= c < t.names.len() && #[trigger] t.names[c] == n && t.kinds[c]
                    == ColumnType::String && !t.hidden[c]
            &&& forall|c: int|
                0 <= c < t.names.len() && #[trigger] t.names[c] == n && a.hits.contains_key(n) ==> {
                    &&& a.hits[n].contains_key(v) <==> exists|r: int|
                        0 <= r < t.rows && #[trigger] t.cells[c][r] == Cell::Text(v)
                    &&& a.hits[n].contains_key(v) ==> a.hits[n][v] == rows.filter(
                        |r: u32| t.cells[c][r as int] == Cell::Text(v),
                    ).len()
                }
        }),
{
    let a = matching::report(t, rows, counting);
    matching::lemma_rows_below(rows, t.rows as int);
    if t.names.contains(n) {
        let c = t.names.index_of(n);
        assert(t.names[c] == n);
        assert forall|d: int| 0 <= d < t.names.len() && #[trigger] t.names[d] == n implies d == c by {}
        let carrying = matching::rows_carrying(t.cells[c], rows, v);
        assert(carrying =~= rows.filter(|r: u32| t.cells[c][r as int] == Cell::Text(v)));
        matching::lemma_rows_below(carrying, t.rows as int);
    }
}

/// The exact total of the values of a column in the rows of a set, in units of the
/// smallest positive number, of the first `n` rows.
pub open spec fn exact_total(cells: Seq<Cell>, rows: Set<u32>, n: int) -> int
    decreases n,
{
    if n <= 0 {
        0
    } else {
        exact_total(cells, rows, n - 1) + if rows.contains((n - 1) as u32) {
            exact_value(cells[n - 1])
        } else {
            0
        }
    }
}

/// The value of the number in a cell; zero if there is none.
pub open spec fn exact_value(cell: Cell) -> int {
    match cell {
        Cell::Float(f) => f.value(),
        Cell::Integer(i) => float64::of_int(i).value(),
        Cell::DateTime(i) => float64::of_int(i).value(),
        _ => 0,
    }
}

/// The total of the values of a column without their signs, of the first `n` rows.
pub open spec fn exact_size(cells: Seq<Cell>, n: int) -> int
    decreases n,
{
    if n <= 0 {
        0
    } else {
        exact_size(cells, n - 1) + float64::apart(exact_value(cells[n - 1]), 0)
    }
}

/// Whether the numbers of a column add up exactly: all are finite multiples of one
/// power of two, of which even without their signs they make no more than 53
/// binary places hold.
pub open spec fn adds_up_exactly(cells: Seq<Cell>, k: nat) -> bool {
    &&& k <= 2000
    &&& forall|r: int|
        0 <= r < cells.len() ==> (#[trigger] cells[r] matches Cell::Float(f) ==> f.finite())
    &&& forall|r: int| 0 <= r < cells.len() ==> exact_value(#[trigger] cells[r]) % pow2(k) as int == 0
    &&& exact_size(cells, cells.len() as int) <= 2 * STEP * pow2(k)
}

/// Wherever the numbers of a column add up exactly, the sum that a query is answered
/// with is their exact total over the rows that match, however the rows were cut
/// into chunks and in whatever order the results came in.
pub proof fn law_exact_sums_show(
    t: Table,
    q: Query,
    counting: bool,
    a: Answer,
    c: int,
    k: nat,
)
    requires
        t.wf(),
        t.zoned(),
        sorting::answers(t, q, counting, a),
        0 <= c < t.names.len(),
        t.kinds[c] != ColumnType::String,
        adds_up_exactly(t.cells[c], k),
    ensures
        a.numeric.contains_key(t.names[c]),
        a.numeric[t.names[c]].sum.finite(),
        a.numeric[t.names[c]].sum.value() == exact_total(
            t.cells[c],
            sorting::all_matching(t, q),
            t.rows as int,
        ),
{
    let name = t.names[c];
    let all = sorting::all_matching(t, q);
    assert(t.names.contains(name));
    assert(t.names.index_of(name) == c);
    if planning::dispatched(t, q, t.chunk_count() as int).len() == 0 {
        laws::law_no_task_no_match(t, q, counting);
        lemma_exact_tally(t.cells[c], all, t.rows as int, k);
    } else {
        let (id, tasks, order) = choose|
            id: crate::query::QueryId,
            tasks: Seq<crate::execution::chunk::Task>,
            order: Seq<int>,
        | #[trigger]
            planning::are_tasks(t, q, id, tasks) && #[trigger] sorting::any_order(
                order,
                tasks.len(),
            ) && a == laws::folded(t, laws::in_order(t, q, tasks, order), counting);
        let sets = laws::in_order(t, q, tasks, order);
        laws::lemma_tasks_cover(t, q, id, tasks, order);
        lemma_exact_fold(t, sets, counting, c, k);
    }
}

/// The exact total of some rows is a multiple of the power of two, and within the
/// size of the column.
proof fn lemma_exact_bounds(cells: Seq<Cell>, rows: Set<u32>, n: int, k: nat)
    requires
        adds_up_exactly(cells, k),
        0 <= n <= cells.len(),
        cells.len() <= u32::MAX,
    ensures
        exact_total(cells, rows, n) % pow2(k) as int == 0,
        -exact_size(cells, n) <= exact_total(cells, rows, n) <= exact_size(cells, n),
        0 <= exact_size(cells, n) <= exact_size(cells, cells.len() as int),
    decreases n,
{
    let p = pow2(k) as int;
    lemma_pow2_pos(k);
    lemma_exact_size_grows(cells, n, cells.len() as int);
    vstd::arithmetic::div_mod::lemma_mod_multiples_basic(0, p);
    if n > 0 {
        lemma_exact_bounds(cells, rows, n - 1, k);
        let x = exact_total(cells, rows, n - 1);
        let y = exact_value(cells[n - 1]);
        assert(y % p == 0);
        lemma_multiples_add(x, y, p);
    }
}

proof fn lemma_multiples_add(x: int, y: int, p: int)
    requires
        p > 0,
        x % p == 0,
        y % p == 0,
    ensures
        (x + y) % p == 0,
        x == (x / p) * p,
{
    vstd::arithmetic::div_mod::lemma_fundamental_div_mod(x, p);
    vstd::arithmetic::div_mod::lemma_fundamental_div_mod(y, p);
    let a = x / p;
    let b = y / p;
    assert(x + y == (a + b) * p && x == a * p) by (nonlinear_arith)
        requires
            x == p * a,
            y == p * b,
    ;
    vstd::arithmetic::div_mod::lemma_mod_multiples_basic(a + b, p);
}

proof fn lemma_exact_size_grows(cells: Seq<Cell>, a: int, b: int)
    requires
        0 <= a <= b,
    ensures
        0 <= exact_size(cells, a) <= exact_size(cells, b),
    decreases b,
{
    if a < b {
        lemma_exact_size_grows(cells, a, b - 1);
    } else if b > 0 {
        lemma_exact_size_grows(cells, b - 1, b - 1);
    }
}

/// Two exact numbers add up exactly within the bounds.
proof fn lemma_exact_step(a: Float64, b: Float64, k: nat)
    requires
        k <= 2000,
        a.finite(),
        b.finite(),
        a.value() % pow2(k) as int == 0,
        b.value() % pow2(k) as int == 0,
        -(2 * STEP * pow2(k)) <= a.value() + b.value() <= 2 * STEP * pow2(k),
    ensures
        float64::sum(a, b).finite(),
        float64::sum(a, b).value() == a.value() + b.value(),
{
    let p = pow2(k) as int;
    lemma_pow2_pos(k);
    lemma_multiples_add(a.value(), b.value(), p);
    lemma_multiples_add(b.value(), a.value(), p);
    let x = a.value() / p;
    let y = b.value() / p;
    assert(-2 * STEP <= x + y <= 2 * STEP) by (nonlinear_arith)
        requires
            -(2 * STEP * p) <= x * p + y * p <= 2 * STEP * p,
            p > 0,
    ;
    float64::law_multiples_add_exactly(a, b, x, y, k);
}

proof fn lemma_exact_tally(cells: Seq<Cell>, rows: Set<u32>, n: int, k: nat)
    requires
        adds_up_exactly(cells, k),
        0 <= n <= cells.len(),
        cells.len() <= u32::MAX,
    ensures
        matching::tally(cells, rows, n).sum.finite(),
        matching::tally(cells, rows, n).sum.value() == exact_total(cells, rows, n),
    decreases n,
{
    if n == 0 {
        lemma2_to64();
        assert(float64::magnitude_of(0) == 0);
    } else {
        lemma_exact_tally(cells, rows, n - 1, k);
        lemma_exact_bounds(cells, rows, n - 1, k);
        lemma_exact_bounds(cells, rows, n, k);
        let before = matching::tally(cells, rows, n - 1);
        if rows.contains((n - 1) as u32) && cells[n - 1].number() is Some {
            let v = cells[n - 1].number()->0;
            assert(v.finite()) by {
                match cells[n - 1] {
                    Cell::Integer(i) => {
                        float64::law_integer_becomes_the_nearest(i, Float64 { bits: 0 });
                    },
                    Cell::DateTime(i) => {
                        float64::law_integer_becomes_the_nearest(i, Float64 { bits: 0 });
                    },
                    _ => {},
                }
            }
            assert(exact_value(cells[n - 1]) == v.value());
            lemma_exact_step(before.sum, v, k);
        }
    }
}

proof fn lemma_exact_totals_add(cells: Seq<Cell>, a: Set<u32>, b: Set<u32>, n: int)
    requires
        0 <= n <= u32::MAX,
        a.disjoint(b),
    ensures
        exact_total(cells, a.union(b), n) == exact_total(cells, a, n) + exact_total(cells, b, n),
    decreases n,
{
    if n > 0 {
        lemma_exact_totals_add(cells, a, b, n - 1);
    }
}

proof fn lemma_exact_fold(t: Table, sets: Seq<Set<u32>>, counting: bool, c: int, k: nat)
    requires
        t.wf(),
        laws::apart(t, sets),
        sets.len() > 0,
        0 <= c < t.names.len(),
        t.kinds[c] != ColumnType::String,
        adds_up_exactly(t.cells[c], k),
    ensures
        laws::folded(t, sets, counting).numeric.contains_key(t.names[c]),
        laws::folded(t, sets, counting).numeric[t.names[c]].sum.finite(),
        laws::folded(t, sets, counting).numeric[t.names[c]].sum.value() == exact_total(
            t.cells[c],
            laws::united(sets),
            t.rows as int,
        ),
    decreases sets.len(),
{
    let name = t.names[c];
    let cells = t.cells[c];
    let n = t.rows as int;
    assert(t.names.contains(name));
    assert(t.names.index_of(name) == c);
    let first = sets.drop_last();
    let last = sets.last();
    laws::lemma_united(t, sets);
    lemma_exact_tally(cells, last, n, k);
    let part = matching::report(t, last, counting);
    assert(part.numeric.contains_key(name));
    if first.len() == 0 {
        assert(laws::united(first) =~= Set::empty());
        assert(laws::united(sets) =~= last);
        assert(laws::folded(t, first, counting) == Answer::blank());
    } else {
        lemma_exact_fold(t, first, counting, c, k);
        let uf = laws::united(first);
        lemma_exact_totals_add(cells, uf, last, n);
        lemma_exact_bounds(cells, uf, n, k);
        lemma_exact_bounds(cells, last, n, k);
        lemma_exact_bounds(cells, laws::united(sets), n, k);
        let before = laws::folded(t, first, counting);
        lemma_exact_step(before.numeric[name].sum, part.numeric[name].sum, k);
    }
}

/// Which queries are admitted: those whose `must` and `must_not` filters are on
/// string columns that there are, and whose ranges are on columns of numbers or
/// points in time that there are. Any other is refused as a query that is wrong.
pub proof fn law_which_queries_are_admitted(t: Table, q: Query)
    requires
        t.wf(),
        q.wf(),
    ensures
        planning::query_fault(t, q) is None <==> {
            &&& forall|n: Seq<char>| #[trigger]
                q.must.0@.contains_key(n) ==> exists|c: int|
                    0 <= c < t.names.len() && #[trigger] t.names[c] == n && t.kinds[c]
                        == ColumnType::String
            &&& forall|n: Seq<char>| #[trigger]
                q.must_not.0@.contains_key(n) ==> exists|c: int|
                    0 <= c < t.names.len() && #[trigger] t.names[c] == n && t.kinds[c]
                        == ColumnType::String
            &&& forall|n: Seq<char>| #[trigger]
                q.ranges@.contains_key(n) ==> exists|c: int|
                    0 <= c < t.names.len() && #[trigger] t.names[c] == n && t.kinds[c]
                        != ColumnType::String
        },
        planning::query_fault(t, q) matches Some(f) ==> f is Query,
{
    lemma_string_faults(t, q.must.0.keys(), "must"@);
    lemma_string_faults(t, q.must_not.0.keys(), "must_not"@);
    lemma_numeric_faults(t, q.ranges.keys());
    let must = q.must.0;
    let must_not = q.must_not.0;
    let ranges = q.ranges;
    assert forall|n: Seq<char>| #[trigger] must@.contains_key(n) == must.keys().contains(n) by {}
    assert forall|n: Seq<char>| #[trigger]
        must_not@.contains_key(n) == must_not.keys().contains(n) by {}
    assert forall|n: Seq<char>| #[trigger] ranges@.contains_key(n) == ranges.keys().contains(n) by {}
    assert forall|n: Seq<char>| #[trigger] t.has(n) <==> exists|c: int|
        0 <= c < t.names.len() && #[trigger] t.names[c] == n by {
        if t.has(n) {
            assert(t.names[t.index(n)] == n);
        }
    }
    assert forall|c: int| 0 <= c < t.names.len() implies t.kind(#[trigger] t.names[c])
        == t.kinds[c] by {
        assert(t.names.contains(t.names[c]));
        assert(t.names.index_of(t.names[c]) == c);
    }
    if planning::query_fault(t, q) is None {
        assert forall|n: Seq<char>| #[trigger] must@.contains_key(n) implies exists|c: int|
            0 <= c < t.names.len() && #[trigger] t.names[c] == n && t.kinds[c]
                == ColumnType::String by {
            assert(must.keys().contains(n));
            assert(t.names[t.index(n)] == n);
        }
        assert forall|n: Seq<char>| #[trigger] must_not@.contains_key(n) implies exists|c: int|
            0 <= c < t.names.len() && #[trigger] t.names[c] == n && t.kinds[c]
                == ColumnType::String by {
            assert(must_not.keys().contains(n));
            assert(t.names[t.index(n)] == n);
        }
        assert forall|n: Seq<char>| #[trigger] ranges@.contains_key(n) implies exists|c: int|
            0 <= c < t.names.len() && #[trigger] t.names[c] == n && t.kinds[c]
                != ColumnType::String by {
            assert(ranges.keys().contains(n));
            assert(t.names[t.index(n)] == n);
        }
    } else if planning::string_faults(t, must.keys(), "must"@) is Some {
        let n = choose|n: Seq<char>| #[trigger]
            must.keys().contains(n) && !(t.has(n) && t.kind(n) == ColumnType::String);
        assert(must@.contains_key(n));
    } else if planning::string_faults(t, must_not.keys(), "must_not"@) is Some {
        let n = choose|n: Seq<char>| #[trigger]
            must_not.keys().contains(n) && !(t.has(n) && t.kind(n) == ColumnType::String);
        assert(must_not@.contains_key(n));
    } else {
        let n = choose|n: Seq<char>| #[trigger]
            ranges.keys().contains(n) && !(t.has(n) && t.kind(n) != ColumnType::String);
        assert(ranges@.contains_key(n));
    }
}

proof fn lemma_string_faults(t: Table, names: Seq<Seq<char>>, clause: Seq<char>)
    ensures
        planning::string_faults(t, names, clause) is None <==> forall|n: Seq<char>| #[trigger]
            names.contains(n) ==> t.has(n) && t.kind(n) == ColumnType::String,
        planning::string_faults(t, names, clause) matches Some(f) ==> f is Query,
    decreases names.len(),
{
    if names.len() > 0 {
        let first = names.drop_last();
        lemma_string_faults(t, first, clause);
        assert(names.contains(names.last()));
        assert forall|n: Seq<char>| #[trigger] names.contains(n) implies first.contains(n) || n
            == names.last() by {
            let i = names.index_of(n);
            if i < first.len() {
                assert(first[i] == n);
            }
        }
        assert forall|n: Seq<char>| #[trigger] first.contains(n) implies names.contains(n) by {
            let i = first.index_of(n);
            assert(names[i] == n);
        }
    }
}

proof fn lemma_numeric_faults(t: Table, names: Seq<Seq<char>>)
    ensures
        planning::numeric_faults(t, names) is None <==> forall|n: Seq<char>| #[trigger]
            names.contains(n) ==> t.has(n) && t.kind(n) != ColumnType::String,
        planning::numeric_faults(t, names) matches Some(f) ==> f is Query,
    decreases names.len(),
{
    if names.len() > 0 {
        let first = names.drop_last();
        lemma_numeric_faults(t, first);
        assert(names.contains(names.last()));
        assert forall|n: Seq<char>| #[trigger] names.contains(n) implies first.contains(n) || n
            == names.last() by {
            let i = names.index_of(n);
            if i < first.len() {
                assert(first[i] == n);
            }
        }
        assert forall|n: Seq<char>| #[trigger] first.contains(n) implies names.contains(n) by {
            let i = first.index_of(n);
            assert(names[i] == n);
        }
    }
}

/// The rows that are looked for are all rows in the bounds that match, and no other.
pub proof fn law_no_matching_row_is_left_out(t: Table, q: Query, lo: int, hi: int, r: u32)
    ensures
        matching::matching(t, q, lo, hi).contains(r) <==> lo <= r < hi && matching::matches(
            t,
            q,
            r as int,
        ),
        sorting::all_matching(t, q).contains(r) <==> r < t.rows && matching::matches(
            t,
            q,
            r as int,
        ),
{
}

/// The numbers of a column are those that stand in the rows of the set.
pub proof fn lemma_numbers_in(cells: Seq<Cell>, rows: Set<u32>, n: int, v: Float64)
    requires
        0 <= n <= u32::MAX,
    ensures
        numbers_in(cells, rows, n).contains(v) <==> exists|r: int|
            0 <= r < n && rows.contains(r as u32) && #[trigger] stands_in(v, cells[r]),
    decreases n,
{
    let numbers = numbers_in(cells, rows, n);
    if n > 0 {
        lemma_numbers_in(cells, rows, n - 1, v);
        let before = numbers_in(cells, rows, n - 1);
        if before.contains(v) {
            let k = before.index_of(v);
            assert(numbers[k] == v);
        }
        if rows.contains((n - 1) as u32) && stands_in(v, cells[n - 1]) {
            assert(numbers == before.push(v));
            assert(numbers[before.len() as int] == v);
        }
        if numbers.contains(v) {
            let k = numbers.index_of(v);
            if k < before.len() {
                assert(before[k] == v);
            } else {
                assert(stands_in(v, cells[n - 1]));
            }
        }
        if exists|r: int|
            0 <= r < n && rows.contains(r as u32) && #[trigger] stands_in(v, cells[r]) {
            let r = choose|r: int|
                0 <= r < n && rows.contains(r as u32) && #[trigger] stands_in(v, cells[r]);
            if r < n - 1 {
                assert(stands_in(v, cells[r]));
            }
        }
    }
}

} // verus!
