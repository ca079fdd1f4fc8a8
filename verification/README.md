# stats-cruncher

An in-memory, read-optimized OLAP engine with an HTTP API. It loads a flat
dataset once, keeps it by column, and answers boolean filter queries with
per-column aggregates. The engine is written in Verus: what each part does is
stated in its contract and proved.

* `src/` is the engine. String columns are dictionary-encoded, each distinct
  value with a Roaring bitmap of the rows that carry it; numeric columns are
  scanned. A query is cut into one task per chunk of rows, chunks that cannot
  match are left out, and the partial results are folded into one answer.
* `app/` is the service around it: configuration files, CSV and SQLite input,
  worker threads, hot reload, HTTP.
* `tests/` runs the engine on concrete values.

## Where to look

| What | Where |
|---|---|
| what a store holds | `src/storage/table.rs` |
| what a query means | `src/execution/matching.rs` |
| how it is cut into tasks | `src/execution/planning.rs` |
| that chunks do not show in the answer | `src/execution/laws.rs` |
| that the order of results does not show | `src/execution/merging.rs` |
| that the partition column does not show | `src/execution/sorting.rs` |
| binary64 numbers and their addition | `src/float64.rs` |
| reading decimal numbers | `src/numeral.rs` |
| what is used of other crates | `src/bitmap.rs`, `src/clock.rs`, `src/resource.rs`, `src/text.rs` |

## Queries

```json
{
  "must":     { "country": ["DE", "FR"] },
  "must_not": { "event_type": ["test"] },
  "ranges":   { "amount": { "gte": 10, "lt": 100 } }
}
```

* `must`: in each column the row carries one of the values.
* `must_not`: the row carries none of the values in any of the columns.
* `ranges`: in each column the row has a number in one of the ranges; a bound is
  a number or an RFC 3339 date-time.

A row without a value in a column never matches a `must` or range filter on it,
and always passes a `must_not` filter on it. Columns marked `hidden` can be
filtered by, but are not reported.
