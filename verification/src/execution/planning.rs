//! Admitting a query and cutting it into tasks.
use std::sync::Arc;
use vstd::prelude::*;
use vstd::string::*;

use crate::config::ColumnType;
use crate::error::{AppError, AppResult, Fault};
use crate::execution::chunk::{ChunkId, Task};
use crate::float64::Float64;
use crate::query::{Comparison, Query, QueryId, RangeFilter};
use crate::storage::column;
use crate::storage::column::Column;
use crate::storage::partition;
use crate::storage::table;
use crate::storage::table::Table;
use crate::storage::ColumnStore;
use crate::text;

verus! {

/// What is wrong with a `must` or `must_not` filter on a column.
pub open spec fn string_fault(t: Table, name: Seq<char>, clause: Seq<char>) -> Option<Fault> {
    if !t.has(name) {
        Some(Fault::Query(clause + " filter references unknown column "@ + text::quoted(name)))
    } else if t.kind(name) != ColumnType::String {
        Some(
            Fault::Query(
                clause + " filter on "@ + text::quoted(name) + ": column is "@ + column::kind_text(
                    t.kind(name),
                ) + ", expected string"@,
            ),
        )
    } else {
        None
    }
}

/// What is wrong with a range filter on a column.
pub open spec fn numeric_fault(t: Table, name: Seq<char>) -> Option<Fault> {
    if !t.has(name) {
        Some(Fault::Query("range filter references unknown column "@ + text::quoted(name)))
    } else if t.kind(name) == ColumnType::String {
        Some(
            Fault::Query(
                "range filter on "@ + text::quoted(name)
                    + ": column is string, expected numeric or date-time"@,
            ),
        )
    } else {
        None
    }
}

/// The first thing that is wrong with a clause over string columns.
pub open spec fn string_faults(t: Table, names: Seq<Seq<char>>, clause: Seq<char>) -> Option<Fault>
    decreases names.len(),
{
    if names.len() == 0 {
        None
    } else {
        match string_faults(t, names.drop_last(), clause) {
            Some(f) => Some(f),
            None => string_fault(t, names.last(), clause),
        }
    }
}

/// The first thing that is wrong with the ranges.
pub open spec fn numeric_faults(t: Table, names: Seq<Seq<char>>) -> Option<Fault>
    decreases names.len(),
{
    if names.len() == 0 {
        None
    } else {
        match numeric_faults(t, names.drop_last()) {
            Some(f) => Some(f),
            None => numeric_fault(t, names.last()),
        }
    }
}

/// Why a query is refused, if it is: the first fault in `must`, then `must_not`,
/// then the ranges.
pub open spec fn query_fault(t: Table, q: Query) -> Option<Fault> {
    match string_faults(t, q.must.0.keys(), "must"@) {
        Some(f) => Some(f),
        None => match string_faults(t, q.must_not.0.keys(), "must_not"@) {
            Some(f) => Some(f),
            None => numeric_faults(t, q.ranges.keys()),
        },
    }
}

fn require_string_column(store: &ColumnStore, name: &str, clause: &str) -> (r: AppResult<()>)
    requires
        store.wf(),
    ensures
        match string_fault(store@, name@, clause@) {
            None => r is Ok,
            Some(f) => r matches Err(e) && e@ == f,
        },
{
    match store.column(name) {
        Some(Column::String(_)) => Ok(()),
        Some(col) => {
            let mut m: String = clause.to_owned();
            m.append(" filter on ");
            m.append(text::quote(name).as_str());
            m.append(": column is ");
            m.append(col.kind_name());
            m.append(", expected string");
            Err(AppError::Query(m))
        },
        None => {
            let mut m: String = clause.to_owned();
            m.append(" filter references unknown column ");
            m.append(text::quote(name).as_str());
            Err(AppError::Query(m))
        },
    }
}

fn require_numeric_column(store: &ColumnStore, name: &str) -> (r: AppResult<()>)
    requires
        store.wf(),
    ensures
        match numeric_fault(store@, name@) {
            None => r is Ok,
            Some(f) => r matches Err(e) && e@ == f,
        },
{
    match store.column(name) {
        Some(Column::String(_)) => {
            let mut m: String = "range filter on ".to_owned();
            m.append(text::quote(name).as_str());
            m.append(": column is string, expected numeric or date-time");
            Err(AppError::Query(m))
        },
        Some(_) => Ok(()),
        None => {
            let mut m: String = "range filter references unknown column ".to_owned();
            m.append(text::quote(name).as_str());
            Err(AppError::Query(m))
        },
    }
}

/// A clause that is wrong up to some column is wrong as a whole, for the same
/// reason.
proof fn lemma_string_faults(t: Table, names: Seq<Seq<char>>, clause: Seq<char>, k: int)
    requires
        0 <= k <= names.len(),
        string_faults(t, names.take(k), clause) is Some,
    ensures
        string_faults(t, names, clause) == string_faults(t, names.take(k), clause),
    decreases names.len(),
{
    if k < names.len() {
        assert(names.drop_last().take(k) =~= names.take(k));
        lemma_string_faults(t, names.drop_last(), clause, k);
    } else {
        assert(names.take(k) =~= names);
    }
}

/// Ranges that are wrong up to some column are wrong as a whole, for the same
/// reason.
proof fn lemma_numeric_faults(t: Table, names: Seq<Seq<char>>, k: int)
    requires
        0 <= k <= names.len(),
        numeric_faults(t, names.take(k)) is Some,
    ensures
        numeric_faults(t, names) == numeric_faults(t, names.take(k)),
    decreases names.len(),
{
    if k < names.len() {
        assert(names.drop_last().take(k) =~= names.take(k));
        lemma_numeric_faults(t, names.drop_last(), k);
    } else {
        assert(names.take(k) =~= names);
    }
}

/// Whether the columns of a query exist and have the types that its clauses
/// need.
pub fn validate(query: &Query, store: &ColumnStore) -> (r: AppResult<()>)
    requires
        query.wf(),
        store.wf(),
    ensures
        match query_fault(store@, *query) {
            None => r is Ok,
            Some(f) => r matches Err(e) && e@ == f,
        },
{
    let ghost t = store@;
    let must = &query.must.0;
    let ghost keys = must.keys();
    let mut i: usize = 0;
    while i < must.len()
        invariant
            query.wf(),
            store.wf(),
            t == store@,
            *must == query.must.0,
            keys == must.keys(),
            i <= keys.len(),
            string_faults(t, keys.take(i as int), "must"@) is None,
        decreases keys.len() - i,
    {
        assert(keys.take(i + 1).drop_last() =~= keys.take(i as int));
        let checked = require_string_column(store, must.name_at(i).as_str(), "must");
        if checked.is_err() {
            proof {
                lemma_string_faults(t, keys, "must"@, i + 1);
            }
            return checked;
        }
        i += 1;
    }
    assert(keys.take(i as int) =~= keys);
    let must_not = &query.must_not.0;
    let ghost keys = must_not.keys();
    let mut i: usize = 0;
    while i < must_not.len()
        invariant
            query.wf(),
            store.wf(),
            t == store@,
            *must_not == query.must_not.0,
            keys == must_not.keys(),
            i <= keys.len(),
            string_faults(t, query.must.0.keys(), "must"@) is None,
            string_faults(t, keys.take(i as int), "must_not"@) is None,
        decreases keys.len() - i,
    {
        assert(keys.take(i + 1).drop_last() =~= keys.take(i as int));
        let checked = require_string_column(store, must_not.name_at(i).as_str(), "must_not");
        if checked.is_err() {
            proof {
                lemma_string_faults(t, keys, "must_not"@, i + 1);
            }
            return checked;
        }
        i += 1;
    }
    assert(keys.take(i as int) =~= keys);
    let ranges = &query.ranges;
    let ghost keys = ranges.keys();
    let mut i: usize = 0;
    while i < ranges.len()
        invariant
            query.wf(),
            store.wf(),
            t == store@,
            *ranges == query.ranges,
            keys == ranges.keys(),
            i <= keys.len(),
            string_faults(t, query.must.0.keys(), "must"@) is None,
            string_faults(t, query.must_not.0.keys(), "must_not"@) is None,
            numeric_faults(t, keys.take(i as int)) is None,
        decreases keys.len() - i,
    {
        assert(keys.take(i + 1).drop_last() =~= keys.take(i as int));
        let checked = require_numeric_column(store, ranges.name_at(i).as_str());
        if checked.is_err() {
            proof {
                lemma_numeric_faults(t, keys, i + 1);
            }
            return checked;
        }
        i += 1;
    }
    assert(keys.take(i as int) =~= keys);
    Ok(())
}

/// Whether a chunk whose keys run from `lo` to `hi` may hold a key in a range. A
/// bound that points the wrong way rules nothing out, and neither does an end of
/// the chunk that is not a number.
pub open spec fn overlaps(lo: Float64, hi: Float64, f: RangeFilter) -> bool {
    &&& f.upper matches Some(b) ==> lo.nan() || match b.comparison {
        Comparison::Lt => lo.below(b.value),
        Comparison::Lte => lo.up_to(b.value),
        _ => true,
    }
    &&& f.lower matches Some(b) ==> hi.nan() || match b.comparison {
        Comparison::Gt => b.value.below(hi),
        Comparison::Gte => b.value.up_to(hi),
        _ => true,
    }
}

/// Whether a chunk is left out: the query has ranges on the partition column,
/// and the chunk overlaps none of them.
pub open spec fn skipped(t: Table, q: Query, c: int) -> bool {
    t.zones matches Some((name, zones)) && q.ranges@.contains_key(name) && forall|i: int|
        0 <= i < q.ranges@[name]@.len() ==> !overlaps(
            zones[c].0,
            zones[c].1,
            #[trigger] q.ranges@[name]@[i],
        )
}

/// Whether a chunk whose keys run from `chunk_min` to `chunk_max` may hold a key
/// in a range.
pub fn zone_overlaps(chunk_min: Float64, chunk_max: Float64, rf: &RangeFilter) -> (r: bool)
    ensures
        r == overlaps(chunk_min, chunk_max, *rf),
{
    if let Some(upper) = rf.upper {
        let in_range = chunk_min.is_nan() || match upper.comparison {
            Comparison::Lt => chunk_min.less(upper.value),
            Comparison::Lte => chunk_min.at_most(upper.value),
            _ => true,
        };
        if !in_range {
            return false;
        }
    }
    if let Some(lower) = rf.lower {
        let in_range = chunk_max.is_nan() || match lower.comparison {
            Comparison::Gt => lower.value.less(chunk_max),
            Comparison::Gte => lower.value.at_most(chunk_max),
            _ => true,
        };
        if !in_range {
            return false;
        }
    }
    true
}

/// Whether a chunk overlaps one of some ranges.
fn any_overlaps(zone: (Float64, Float64), filters: &Vec<RangeFilter>) -> (r: bool)
    ensures
        r == exists|i: int|
            0 <= i < filters@.len() && overlaps(zone.0, zone.1, #[trigger] filters@[i]),
{
    let mut i: usize = 0;
    while i < filters.len()
        invariant
            i <= filters@.len(),
            forall|j: int| 0 <= j < i ==> !overlaps(zone.0, zone.1, #[trigger] filters@[j]),
        decreases filters@.len() - i,
    {
        if zone_overlaps(zone.0, zone.1, &filters[i]) {
            assert(overlaps(zone.0, zone.1, filters@[i as int]));
            return true;
        }
        i += 1;
    }
    false
}

/// Which chunks are left out.
pub fn build_skip_mask(chunk_count: usize, store: &ColumnStore, query: &Query) -> (r: Vec<bool>)
    requires
        query.wf(),
        store@.zoned(),
        chunk_count == store@.chunk_count(),
    ensures
        r@.len() == chunk_count,
        forall|c: int| 0 <= c < chunk_count ==> #[trigger] r@[c] == skipped(store@, *query, c),
{
    let ghost t = store@;
    let mut mask: Vec<bool> = Vec::new();
    if let Some((col, zones)) = store.zone_stats() {
        if let Some(filters) = query.ranges.get(col) {
            assert(zones@.len() == chunk_count);
            let mut c: usize = 0;
            while c < zones.len()
                invariant
                    t == store@,
                    t.zones == Some((col@, zones@)),
                    query.ranges@.contains_key(col@),
                    query.ranges@[col@] == *filters,
                    c <= zones@.len(),
                    mask@.len() == c,
                    forall|d: int| 0 <= d < c ==> #[trigger] mask@[d] == skipped(t, *query, d),
                decreases zones@.len() - c,
            {
                mask.push(!any_overlaps(zones[c], filters));
                c += 1;
            }
            return mask;
        }
    }
    let mut c: usize = 0;
    while c < chunk_count
        invariant
            t == store@,
            c <= chunk_count,
            mask@.len() == c,
            forall|d: int| 0 <= d < c ==> #[trigger] mask@[d] == false,
        decreases chunk_count - c,
    {
        mask.push(false);
        c += 1;
    }
    mask
}

/// The chunks below `n` that are handed out, in order.
pub open spec fn dispatched(t: Table, q: Query, n: int) -> Seq<int>
    decreases n,
{
    if n <= 0 {
        Seq::empty()
    } else if skipped(t, q, n - 1) {
        dispatched(t, q, n - 1)
    } else {
        dispatched(t, q, n - 1).push(n - 1)
    }
}

/// Whether a task asks for a chunk of a query.
pub open spec fn is_task(t: Table, q: Query, id: QueryId, c: int, task: Task) -> bool {
    &&& task.chunk_id.0 == c
    &&& task.query_id == id
    &&& *task.query == q
    &&& task.rows.start == c * t.chunk
    &&& task.rows.end == table::last_row(t.rows, t.chunk, c) + 1
}

/// Whether some tasks ask for the chunks of a query that are not left out, in
/// order.
pub open spec fn are_tasks(t: Table, q: Query, id: QueryId, tasks: Seq<Task>) -> bool {
    let chunks = dispatched(t, q, t.chunk_count() as int);
    &&& tasks.len() == chunks.len()
    &&& forall|k: int| 0 <= k < tasks.len() ==> is_task(t, q, id, chunks[k], #[trigger] tasks[k])
}

/// How many chunks are handed out.
pub(crate) fn count_dispatched(mask: &Vec<bool>, store: &ColumnStore, query: &Query) -> (n: usize)
    requires
        forall|c: int| 0 <= c < mask@.len() ==> #[trigger] mask@[c] == skipped(store@, *query, c),
    ensures
        n == dispatched(store@, *query, mask@.len() as int).len(),
        n <= mask@.len(),
{
    let mut n: usize = 0;
    let mut c: usize = 0;
    while c < mask.len()
        invariant
            forall|d: int|
                0 <= d < mask@.len() ==> #[trigger] mask@[d] == skipped(store@, *query, d),
            c <= mask@.len(),
            n <= c,
            n == dispatched(store@, *query, c as int).len(),
        decreases mask@.len() - c,
    {
        if !mask[c] {
            n += 1;
        }
        c += 1;
    }
    n
}

/// The tasks of a query: one per chunk that is not left out.
pub(crate) fn cut(query: Arc<Query>, query_id: QueryId, store: &ColumnStore, mask: &Vec<bool>) -> (r:
    Vec<Task>)
    requires
        store.wf(),
        mask@.len() == store@.chunk_count(),
        forall|c: int| 0 <= c < mask@.len() ==> #[trigger] mask@[c] == skipped(store@, *query, c),
    ensures
        are_tasks(store@, *query, query_id, r@),
{
    let ghost t = store@;
    let row_count: usize = store.row_count();
    let chunk_size: usize = store.chunk_size();
    proof {
        store.lemma_wf();
    }
    let mut tasks: Vec<Task> = Vec::new();
    let mut chunk_idx: usize = 0;
    let mut start: usize = 0;
    proof {
        if row_count > 0 {
            partition::lemma_chunk_end(t.rows, t.chunk, 0);
        } else {
            assert(0nat / t.chunk == 0 && 0nat % t.chunk == 0) by {
                vstd::arithmetic::div_mod::lemma_div_basics(t.chunk as int);
                vstd::arithmetic::div_mod::lemma_small_mod(0, t.chunk);
            }
        }
    }
    while start < row_count
        invariant
            t == store@,
            t.wf(),
            row_count == t.rows,
            chunk_size == t.chunk,
            mask@.len() == t.chunk_count(),
            forall|c: int| 0 <= c < mask@.len() ==> #[trigger] mask@[c] == skipped(t, *query, c),
            start <= row_count,
            start < row_count ==> start == chunk_idx * t.chunk && chunk_idx < mask@.len(),
            start == row_count ==> chunk_idx == mask@.len(),
            tasks@.len() == dispatched(t, *query, chunk_idx as int).len(),
            forall|k: int|
                0 <= k < tasks@.len() ==> is_task(
                    t,
                    *query,
                    query_id,
                    dispatched(t, *query, chunk_idx as int)[k],
                    #[trigger] tasks@[k],
                ),
        decreases row_count - start,
    {
        let end: usize = if row_count - start > chunk_size {
            start + chunk_size
        } else {
            row_count
        };
        proof {
            partition::lemma_chunk_end(t.rows, t.chunk, chunk_idx as int);
        }
        if !mask[chunk_idx] {
            let task = Task {
                chunk_id: ChunkId(chunk_idx as u64),
                query_id,
                query: query.clone(),
                rows: start..end,
            };
            tasks.push(task);
        }
        assert(chunk_idx < mask.len());
        chunk_idx += 1;
        start = end;
    }
    tasks
}

} // verus!
