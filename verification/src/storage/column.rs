//! One column of the store, and what its cells hold.
use vstd::prelude::*;

use crate::bitmap;
use crate::config::ColumnType;
use crate::error::AppResult;
use crate::float64::Float64;
use crate::storage::dictionary;
use crate::storage::dictionary::Lexicon;
use crate::storage::dictionary::StringDictionary;
use crate::storage::table;
use crate::storage::value;
use crate::storage::value::{coerce_datetime, coerce_float, coerce_integer, coerce_str, RawValue};

verus! {

pub type ColumnName = String;

/// The values of one column, in row order. Numeric columns hold a placeholder
/// in rows without a value; string columns have no entry for such rows.
pub enum Column {
    Integer(Vec<i64>),
    Float(Vec<Float64>),
    String(StringColumn),
    DateTime(Vec<i64>),
}

pub struct StringColumn {
    pub dictionary: StringDictionary,
    /// How many rows have a value.
    pub count: usize,
}

/// The content of one cell.
pub enum Cell {
    Null,
    Integer(i64),
    Float(Float64),
    Text(Seq<char>),
    DateTime(i64),
}

impl Cell {
    /// The number that filters and aggregates see, if there is one.
    pub open spec fn number(self) -> Option<Float64> {
        match self {
            Cell::Integer(i) => Some(crate::float64::of_int(i)),
            Cell::DateTime(i) => Some(crate::float64::of_int(i)),
            Cell::Float(f) => Some(f),
            _ => None,
        }
    }

    /// The position by which rows are sorted: integers and points in time by
    /// themselves, numbers in their total order. Cells without a value count as
    /// zero.
    pub open spec fn rank(self) -> u64 {
        match self {
            Cell::Integer(i) => crate::float64::int_rank(i),
            Cell::DateTime(i) => crate::float64::int_rank(i),
            Cell::Float(f) => f.rank(),
            _ => crate::float64::SIGN,
        }
    }

    /// The number that bounds a chunk which starts or ends with the cell: cells
    /// without a value count as zero.
    pub open spec fn sort_key(self) -> Float64 {
        match self.number() {
            Some(f) => f,
            None => Float64 { bits: 0 },
        }
    }
}

impl StringColumn {
    pub fn new() -> (r: StringColumn)
        ensures
            r.dictionary.wf(),
            r.dictionary@ == Lexicon::empty(),
            r.count == 0,
    {
        StringColumn { dictionary: StringDictionary::new(), count: 0 }
    }
}

impl Default for StringColumn {
    fn default() -> (r: StringColumn)
        ensures
            r.dictionary.wf(),
            r.dictionary@ == Lexicon::empty(),
            r.count == 0,
    {
        StringColumn::new()
    }
}

/// The name of a column type.
pub open spec fn kind_text(kind: ColumnType) -> Seq<char> {
    match kind {
        ColumnType::Integer => "integer"@,
        ColumnType::Float => "float"@,
        ColumnType::String => "string"@,
        ColumnType::DateTime => "date-time"@,
    }
}

impl Column {
    pub open spec fn kind(self) -> ColumnType {
        match self {
            Column::Integer(_) => ColumnType::Integer,
            Column::Float(_) => ColumnType::Float,
            Column::String(_) => ColumnType::String,
            Column::DateTime(_) => ColumnType::DateTime,
        }
    }

    /// How many values the column stores.
    pub open spec fn stored(self) -> nat {
        match self {
            Column::Integer(v) => v@.len(),
            Column::Float(v) => v@.len(),
            Column::String(sc) => sc.count as nat,
            Column::DateTime(v) => v@.len(),
        }
    }

    /// The cell in row `r`, where `nulls` are the rows without a value.
    pub open spec fn cell(self, nulls: Set<u32>, r: int) -> Cell {
        if nulls.contains(r as u32) {
            Cell::Null
        } else {
            match self {
                Column::Integer(v) => Cell::Integer(v@[r]),
                Column::Float(v) => Cell::Float(v@[r]),
                Column::String(sc) => match sc.dictionary@.at(r as u32) {
                    Some(t) => Cell::Text(t),
                    None => Cell::Null,
                },
                Column::DateTime(v) => Cell::DateTime(v@[r]),
            }
        }
    }

    /// The number stored in row `r` of a numeric column, a placeholder or not.
    pub open spec fn stored_number(self, r: int) -> Float64 {
        match self {
            Column::Integer(v) => crate::float64::of_int(v@[r]),
            Column::Float(v) => v@[r],
            Column::DateTime(v) => crate::float64::of_int(v@[r]),
            Column::String(_) => Float64 { bits: 0 },
        }
    }

    /// The column holds a value, or knows that there is none, for exactly `rows`
    /// rows. The placeholder in rows without a value is zero.
    pub open spec fn wf(self, nulls: Set<u32>, rows: nat) -> bool {
        &&& forall|r: u32| nulls.contains(r) ==> r < rows
        &&& match self {
            Column::Integer(v) => {
                &&& v@.len() == rows
                &&& forall|r: int|
                    0 <= r < rows && nulls.contains(r as u32) ==> #[trigger] v@[r] == 0
            },
            Column::Float(v) => {
                &&& v@.len() == rows
                &&& forall|r: int|
                    0 <= r < rows && nulls.contains(r as u32) ==> (#[trigger] v@[r]).bits == 0
            },
            Column::String(sc) => {
                &&& sc.dictionary.wf()
                &&& sc.dictionary@.single()
                &&& forall|c: int|
                    0 <= c < sc.dictionary@.words.len() ==> #[trigger] sc.dictionary@.used(c)
                &&& forall|r: u32|
                    (#[trigger] sc.dictionary@.at(r) is Some) <==> (r < rows && !nulls.contains(r))
                &&& sc.dictionary@.words.len() <= sc.count <= rows
                &&& sc.dictionary@.carrying().finite()
                &&& sc.count == sc.dictionary@.carrying().len()
            },
            Column::DateTime(v) => {
                &&& v@.len() == rows
                &&& forall|r: int|
                    0 <= r < rows && nulls.contains(r as u32) ==> #[trigger] v@[r] == 0
            },
        }
    }

    /// The column holds exactly these cells.
    pub open spec fn holds(self, cells: Seq<Cell>) -> bool {
        let nulls = table::null_set(cells);
        &&& self.wf(nulls, cells.len())
        &&& forall|r: int| 0 <= r < cells.len() ==> #[trigger] cells[r] == self.cell(nulls, r)
    }

    pub fn len(&self) -> (n: usize)
        ensures
            n == self.stored(),
    {
        match self {
            Column::Integer(v) => v.len(),
            Column::Float(v) => v.len(),
            Column::String(sc) => sc.count,
            Column::DateTime(v) => v.len(),
        }
    }

    pub fn is_empty(&self) -> (r: bool)
        ensures
            r == (self.stored() == 0),
    {
        self.len() == 0
    }

    pub fn kind_name(&self) -> (r: &'static str)
        ensures
            r@ == kind_text(self.kind()),
    {
        match self {
            Column::Integer(_) => "integer",
            Column::Float(_) => "float",
            Column::String(_) => "string",
            Column::DateTime(_) => "date-time",
        }
    }

    pub fn column_type(&self) -> (r: ColumnType)
        ensures
            r == self.kind(),
    {
        match self {
            Column::Integer(_) => ColumnType::Integer,
            Column::Float(_) => ColumnType::Float,
            Column::String(_) => ColumnType::String,
            Column::DateTime(_) => ColumnType::DateTime,
        }
    }

    /// The number in a row of a numeric column.
    pub(crate) fn number_at(&self, row: usize) -> (r: Float64)
        requires
            self.kind() != ColumnType::String,
            row < self.stored(),
        ensures
            r == self.stored_number(row as int),
    {
        match self {
            Column::Integer(v) => Float64::from_int(v[row]),
            Column::Float(v) => v[row],
            Column::DateTime(v) => Float64::from_int(v[row]),
            Column::String(_) => Float64 { bits: 0 },
        }
    }

    /// An empty column of a type.
    pub fn empty(kind: ColumnType) -> (r: Column)
        ensures
            r.kind() == kind,
            r.wf(Set::empty(), 0),
    {
        assert(Lexicon::empty().carrying() =~= Set::empty());
        match kind {
            ColumnType::Integer => Column::Integer(Vec::new()),
            ColumnType::Float => Column::Float(Vec::new()),
            ColumnType::String => Column::String(StringColumn::new()),
            ColumnType::DateTime => Column::DateTime(Vec::new()),
        }
    }
}

/// One more cell adds its row to the rows without a value, or leaves them.
pub proof fn lemma_null_set_push(cells: Seq<Cell>, cell: Cell)
    requires
        cells.len() <= u32::MAX,
    ensures
        cell is Null ==> table::null_set(cells.push(cell)) == table::null_set(cells).insert(
            cells.len() as u32,
        ),
        !(cell is Null) ==> table::null_set(cells.push(cell)) == table::null_set(cells),
{
    let before = table::null_set(cells);
    let after = table::null_set(cells.push(cell));
    if cell is Null {
        assert(after =~= before.insert(cells.len() as u32));
    } else {
        assert(after =~= before);
    }
}

/// A string column with one more row without a value.
proof fn lemma_push_null(sc: StringColumn, cells: Seq<Cell>)
    requires
        Column::String(sc).holds(cells),
        cells.len() <= u32::MAX,
    ensures
        Column::String(sc).holds(cells.push(Cell::Null)),
{
    let col = Column::String(sc);
    let more = cells.push(Cell::Null);
    lemma_null_set_push(cells, Cell::Null);
    assert forall|r: int| 0 <= r < more.len() implies #[trigger] more[r] == col.cell(
        table::null_set(more),
        r,
    ) by {
        if r < cells.len() {
            assert(more[r] == cells[r]);
            assert(r as u32 != cells.len() as u32);
        }
    }
}

/// A string column with one more row that carries a text.
proof fn lemma_push_text(
    before: StringColumn,
    after: StringColumn,
    cells: Seq<Cell>,
    t: Seq<char>,
)
    requires
        Column::String(before).holds(cells),
        cells.len() < u32::MAX,
        after.dictionary.wf(),
        after.dictionary@ == before.dictionary@.interned(t, cells.len() as u32),
        after.count == before.count + 1,
    ensures
        Column::String(after).holds(cells.push(Cell::Text(t))),
{
    let row = cells.len() as u32;
    let l = before.dictionary@;
    let m = after.dictionary@;
    let cell = Cell::Text(t);
    let more = cells.push(cell);
    let col = Column::String(after);
    before.dictionary.lemma_wf();
    assert(l.at(row) is None);
    dictionary::lemma_interned_at(l, t, row);
    lemma_null_set_push(cells, cell);
    let nulls = table::null_set(more);
    assert forall|r: u32| (#[trigger] m.at(r) is Some) <==> (r < more.len() && !nulls.contains(
        r,
    )) by {
        if r != row {
            assert(m.at(r) == l.at(r));
        }
    }
    assert(m.carrying() =~= l.carrying().insert(row));
    assert(!l.carrying().contains(row));
    assert forall|r: int| 0 <= r < more.len() implies #[trigger] more[r] == col.cell(nulls, r) by {
        if r < cells.len() {
            assert(more[r] == cells[r]);
            assert(r as u32 != row);
            assert(m.at(r as u32) == l.at(r as u32));
        }
    }
}

/// Appends what a source handed over to a column. Returns `true` when a value
/// was stored, `false` when it is missing: numeric columns then store a
/// placeholder, string columns have no entry for the row.
pub(crate) fn push_value(
    column: &mut Column,
    name: &str,
    value: &RawValue<'_>,
    row: u32,
    cells: Ghost<Seq<Cell>>,
) -> (r: AppResult<bool>)
    requires
        old(column).holds(cells@),
        cells@.len() == row,
        row < u32::MAX,
    ensures
        match value::cell_of(old(column).kind(), name@, value@) {
            Ok(cell) => {
                &&& r == Ok::<bool, crate::error::AppError>(!(cell is Null))
                &&& final(column).holds(cells@.push(cell))
                &&& final(column).kind() == old(column).kind()
            },
            Err(fault) => {
                &&& r matches Err(e) && e@ == fault
                &&& *final(column) == *old(column)
            },
        },
{
    let ghost before = *column;
    if value.is_missing() {
        match column {
            Column::Integer(v) => {
                v.push(0);
            },
            Column::Float(v) => {
                v.push(Float64 { bits: 0 });
            },
            Column::DateTime(v) => {
                v.push(0);
            },
            Column::String(_) => {},
        }
        proof {
            lemma_null_set_push(cells@, Cell::Null);
            if let Column::String(sc) = before {
                lemma_push_null(sc, cells@);
            }
        }
        return Ok(false);
    }
    match column {
        Column::Integer(v) => match coerce_integer(name, value) {
            Ok(i) => {
                v.push(i);
                proof {
                    lemma_null_set_push(cells@, Cell::Integer(i));
                }
            },
            Err(e) => return Err(e),
        },
        Column::Float(v) => match coerce_float(name, value) {
            Ok(f) => {
                v.push(f);
                proof {
                    lemma_null_set_push(cells@, Cell::Float(f));
                }
            },
            Err(e) => return Err(e),
        },
        Column::String(sc) => match coerce_str(name, value) {
            Ok(s) => {
                let ghost sc0 = *sc;
                proof {
                    sc.dictionary.lemma_wf();
                }
                sc.dictionary.intern(s, row);
                sc.count += 1;
                proof {
                    lemma_push_text(sc0, *sc, cells@, s@);
                }
            },
            Err(e) => return Err(e),
        },
        Column::DateTime(v) => match coerce_datetime(name, value) {
            Ok(t) => {
                v.push(t);
                proof {
                    lemma_null_set_push(cells@, Cell::DateTime(t));
                }
            },
            Err(e) => return Err(e),
        },
    }
    Ok(true)
}

/// Whether row `r` carries the text with code `c`.
spec fn carried(l: Lexicon, c: int, r: int) -> bool {
    l.carries(c, r as u32)
}

/// A row with a value carries the text with some code, and its cell is that text.
proof fn lemma_cell_text(sc: StringColumn, cells: Seq<Cell>, c: int, r: int)
    requires
        Column::String(sc).holds(cells),
        cells.len() <= u32::MAX,
        0 <= r < cells.len(),
    ensures
        carried(sc.dictionary@, c, r) ==> cells[r] == Cell::Text(sc.dictionary@.words[c]),
        cells[r] is Null || exists|d: int| carried(sc.dictionary@, d, r),
        cells[r] is Null ==> !carried(sc.dictionary@, c, r),
{
    let l = sc.dictionary@;
    let col = Column::String(sc);
    let nulls = table::null_set(cells);
    assert(cells[r] == col.cell(nulls, r));
    if carried(l, c, r) {
        let d = choose|d: int| carried(l, d, r);
        assert(carried(l, d, r));
        assert(l.at(r as u32) is Some);
    }
    if !(cells[r] is Null) {
        assert(!nulls.contains(r as u32));
        let row = r as u32;
        assert(l.at(row) is Some);
        let d = choose|d: int| l.carries(d, row);
        assert(l.carries(d, row));
        assert(carried(l, d, r));
    }
}

/// The code that each row carries; `u32::MAX` stands for none.
fn row_codes(sc: &StringColumn, n: usize, cells: Ghost<Seq<Cell>>) -> (codes: Vec<u32>)
    requires
        Column::String(*sc).holds(cells@),
        cells@.len() == n,
        n <= u32::MAX,
    ensures
        codes@.len() == n,
        forall|r: int|
            0 <= r < n ==> match #[trigger] cells@[r] {
                Cell::Null => codes@[r] == u32::MAX,
                cell => codes@[r] < sc.dictionary@.words.len() && cell == Cell::Text(
                    sc.dictionary@.words[codes@[r] as int],
                ),
            },
{
    let ghost l = sc.dictionary@;
    let mut codes: Vec<u32> = Vec::new();
    let mut k: usize = 0;
    while k < n
        invariant
            k <= n,
            codes@.len() == k,
            forall|r: int| 0 <= r < k ==> #[trigger] codes@[r] == u32::MAX,
        decreases n - k,
    {
        codes.push(u32::MAX);
        k += 1;
    }
    proof {
        sc.dictionary.lemma_wf();
    }
    let total: usize = sc.dictionary.cardinality();
    let mut code: u32 = 0;
    while (code as usize) < total
        invariant
            Column::String(*sc).holds(cells@),
            cells@.len() == n,
            n <= u32::MAX,
            l == sc.dictionary@,
            l.wf(),
            total == l.words.len(),
            total <= n,
            code <= total,
            codes@.len() == n,
            forall|r: int|
                0 <= r < n ==> {
                    ||| #[trigger] codes@[r] == u32::MAX && forall|c: int|
                        0 <= c < code ==> !carried(l, c, r)
                    ||| codes@[r] < code && carried(l, codes@[r] as int, r)
                },
        decreases total - code,
    {
        let ghost before = codes@;
        if let Some(postings) = sc.dictionary.postings(code) {
            let rows: Vec<u32> = bitmap::rows(postings);
            let mut j: usize = 0;
            proof {
                assert forall|x: int| 0 <= x < rows@.len() implies l.carries(
                    code as int,
                    #[trigger] rows@[x],
                ) && rows@[x] < n by {
                    assert(rows@.to_set().contains(rows@[x]));
                    assert(l.carries(code as int, rows@[x]));
                    assert(l.at(rows@[x]) is Some);
                }
            }
            while j < rows.len()
                invariant
                    j <= rows@.len(),
                    codes@.len() == n,
                    before.len() == n,
                    forall|x: int| 0 <= x < rows@.len() ==> #[trigger] rows@[x] < n,
                    forall|r: int|
                        0 <= r < n ==> {
                            ||| #[trigger] codes@[r] == code && exists|x: int|
                                0 <= x < j && #[trigger] rows@[x] == r
                            ||| codes@[r] == before[r] && forall|x: int|
                                0 <= x < j ==> #[trigger] rows@[x] != r
                        },
                decreases rows@.len() - j,
            {
                let ghost prior = codes@;
                codes.set(rows[j] as usize, code);
                j += 1;
                assert forall|r: int| 0 <= r < n implies {
                    ||| #[trigger] codes@[r] == code && exists|x: int|
                        0 <= x < j && #[trigger] rows@[x] == r
                    ||| codes@[r] == before[r] && forall|x: int|
                        0 <= x < j ==> #[trigger] rows@[x] != r
                } by {
                    let _ = prior[r];
                    if r == rows@[j - 1] {
                        assert(codes@[r] == code);
                    } else {
                        assert(codes@[r] == prior[r]);
                    }
                }
            }
            assert forall|r: int| 0 <= r < n implies {
                ||| #[trigger] codes@[r] == u32::MAX && forall|c: int|
                    0 <= c < code + 1 ==> !carried(l, c, r)
                ||| codes@[r] < code + 1 && carried(l, codes@[r] as int, r)
            } by {
                let _ = before[r];
                if carried(l, code as int, r) {
                    assert(rows@.to_set().contains(r as u32));
                    let x = choose|x: int| 0 <= x < rows@.len() && rows@[x] == r as u32;
                    assert(rows@[x] == r);
                    assert(codes@[r] == code);
                } else {
                    assert(forall|x: int|
                        0 <= x < rows@.len() ==> #[trigger] rows@[x] != r) by {
                        assert forall|x: int| 0 <= x < rows@.len() implies #[trigger] rows@[x]
                            != r by {
                            assert(rows@.to_set().contains(rows@[x]));
                        }
                    }
                    assert(codes@[r] == before[r]);
                }
            }
        }
        code += 1;
    }
    assert forall|r: int| 0 <= r < n implies match #[trigger] cells@[r] {
        Cell::Null => codes@[r] == u32::MAX,
        cell => codes@[r] < l.words.len() && cell == Cell::Text(l.words[codes@[r] as int]),
    } by {
        lemma_cell_text(*sc, cells@, codes@[r] as int, r);
        if codes@[r] == u32::MAX && !(cells@[r] is Null) {
            let d = choose|d: int| carried(l, d, r);
            assert(0 <= d < l.words.len());
        }
    }
    codes
}

/// The values of a numeric column in another order.
pub(crate) fn arrange<T: Copy>(v: &Vec<T>, perm: &Vec<usize>) -> (r: Vec<T>)
    requires
        table::permutation(perm@, v@.len()),
    ensures
        r@ == table::arranged(v@, perm@),
{
    let mut r: Vec<T> = Vec::new();
    let mut k: usize = 0;
    while k < perm.len()
        invariant
            table::permutation(perm@, v@.len()),
            k <= perm@.len(),
            r@ == table::arranged(v@, perm@).take(k as int),
        decreases perm@.len() - k,
    {
        r.push(v[perm[k]]);
        k += 1;
        assert(r@ =~= table::arranged(v@, perm@).take(k as int));
    }
    assert(r@ =~= table::arranged(v@, perm@));
    r
}

/// Puts the rows of a column into another order.
pub(crate) fn apply_perm(col: &mut Column, perm: &Vec<usize>, cells: Ghost<Seq<Cell>>)
    requires
        old(col).holds(cells@),
        cells@.len() <= u32::MAX,
        table::permutation(perm@, cells@.len()),
    ensures
        final(col).holds(table::arranged(cells@, perm@)),
        final(col).kind() == old(col).kind(),
{
    let ghost before = *col;
    let ghost moved = table::arranged(cells@, perm@);
    let ghost nulls = table::null_set(cells@);
    let ghost moved_nulls = table::null_set(moved);
    assert forall|k: int| 0 <= k < moved.len() implies (moved_nulls.contains(k as u32)
        <==> nulls.contains(perm@[k] as u32)) && #[trigger] moved[k] == before.cell(
        nulls,
        perm@[k] as int,
    ) by {
        assert(moved[k] == cells@[perm@[k] as int]);
    }
    match col {
        Column::Integer(v) => {
            let sorted = arrange(v, perm);
            *v = sorted;
        },
        Column::Float(v) => {
            let sorted = arrange(v, perm);
            *v = sorted;
        },
        Column::DateTime(v) => {
            let sorted = arrange(v, perm);
            *v = sorted;
        },
        Column::String(sc) => {
            let n: usize = perm.len();
            let codes = row_codes(sc, n, cells);
            let mut new_sc = StringColumn::new();
            let mut k: usize = 0;
            assert(Column::String(new_sc).holds(moved.take(0))) by {
                assert(moved.take(0) =~= Seq::empty());
                assert(table::null_set(moved.take(0)) =~= Set::empty());
                assert(Lexicon::empty().carrying() =~= Set::empty());
            }
            while k < n
                invariant
                    sc.dictionary.wf(),
                    n == perm@.len() == cells@.len() == codes@.len() == moved.len(),
                    n <= u32::MAX,
                    table::permutation(perm@, n as nat),
                    moved == table::arranged(cells@, perm@),
                    k <= n,
                    Column::String(new_sc).holds(moved.take(k as int)),
                    forall|r: int|
                        0 <= r < n ==> match #[trigger] cells@[r] {
                            Cell::Null => codes@[r] == u32::MAX,
                            cell => codes@[r] < sc.dictionary@.words.len() && cell == Cell::Text(
                                sc.dictionary@.words[codes@[r] as int],
                            ),
                        },
                    sc.dictionary@.words.len() <= n,
                decreases n - k,
            {
                let old_row: usize = perm[k];
                let code: u32 = codes[old_row];
                let ghost done = moved.take(k as int);
                let ghost cell = cells@[old_row as int];
                assert(moved[k as int] == cell);
                assert(moved.take(k + 1) =~= done.push(cell));
                if code == u32::MAX {
                    proof {
                        assert(cell is Null);
                        lemma_push_null(new_sc, done);
                    }
                } else if let Some(text) = sc.dictionary.value_of(code) {
                    let ghost sc0 = new_sc;
                    proof {
                        new_sc.dictionary.lemma_wf();
                    }
                    new_sc.dictionary.intern(text, k as u32);
                    new_sc.count += 1;
                    proof {
                        lemma_push_text(sc0, new_sc, done, text@);
                    }
                }
                k += 1;
            }
            assert(moved.take(n as int) =~= moved);
            *sc = new_sc;
        },
    }
}

/// The positions and the keys of rows, if the column is not one of strings.
pub(crate) fn sort_keys(col: &Column, cells: Ghost<Seq<Cell>>) -> (r: Option<
    (Vec<u64>, Vec<Float64>),
>)
    requires
        col.holds(cells@),
        cells@.len() <= u32::MAX,
    ensures
        match r {
            Some((ranks, keys)) => {
                &&& col.kind() != ColumnType::String
                &&& are_sort_keys(cells@, cells@.len() as int, ranks@, keys@)
            },
            None => col.kind() == ColumnType::String,
        },
{
    let mut ranks: Vec<u64> = Vec::new();
    let mut keys: Vec<Float64> = Vec::new();
    let mut i: usize = 0;
    match col {
        Column::Integer(v) | Column::DateTime(v) => {
            while i < v.len()
                invariant
                    col.holds(cells@),
                    *col == Column::Integer(*v) || *col == Column::DateTime(*v),
                    cells@.len() <= u32::MAX,
                    v@.len() == cells@.len(),
                    i <= v@.len(),
                    are_sort_keys(cells@, i as int, ranks@, keys@),
                decreases v@.len() - i,
            {
                ranks.push(Float64::int_order(v[i]));
                keys.push(Float64::from_int(v[i]));
                proof {
                    lemma_zero_key();
                    assert(cells@[i as int] == col.cell(table::null_set(cells@), i as int));
                }
                i += 1;
            }
        },
        Column::Float(v) => {
            while i < v.len()
                invariant
                    col.holds(cells@),
                    *col == Column::Float(*v),
                    cells@.len() <= u32::MAX,
                    v@.len() == cells@.len(),
                    i <= v@.len(),
                    are_sort_keys(cells@, i as int, ranks@, keys@),
                decreases v@.len() - i,
            {
                ranks.push(v[i].order());
                keys.push(v[i]);
                assert(cells@[i as int] == col.cell(table::null_set(cells@), i as int));
                i += 1;
            }
        },
        Column::String(_) => return None,
    }
    Some((ranks, keys))
}

/// Whether these are the positions and the keys of the first `n` rows.
pub open spec fn are_sort_keys(
    cells: Seq<Cell>,
    n: int,
    ranks: Seq<u64>,
    keys: Seq<Float64>,
) -> bool {
    &&& ranks.len() == n
    &&& keys.len() == n
    &&& forall|k: int| 0 <= k < n ==> #[trigger] ranks[k] == cells[k].rank()
    &&& forall|k: int| 0 <= k < n ==> #[trigger] keys[k] == cells[k].sort_key()
}

/// Cells of a column that are in ascending order have keys in ascending order.
pub proof fn lemma_keys_follow_ranks(kind: ColumnType, a: Cell, b: Cell)
    requires
        kind != ColumnType::String,
        table::fits(kind, a),
        table::fits(kind, b),
        a.rank() <= b.rank(),
    ensures
        a.sort_key().rank() <= b.sort_key().rank(),
{
    lemma_zero_key();
    if kind != ColumnType::Float {
        let i = match a {
            Cell::Integer(i) => i,
            Cell::DateTime(i) => i,
            _ => 0,
        };
        let j = match b {
            Cell::Integer(j) => j,
            Cell::DateTime(j) => j,
            _ => 0,
        };
        crate::float64::law_integers_keep_their_order(i, j);
    }
}

/// The integer zero is the number with no bit set.
proof fn lemma_zero_key()
    ensures
        crate::float64::of_int(0) == (Float64 { bits: 0 }),
{
    vstd::arithmetic::power2::lemma2_to64();
    let one = crate::float64::one();
    assert(0 * one == 0) by (nonlinear_arith);
}

/// The rows under a code are those whose cell is the text with that code.
pub proof fn lemma_postings(sc: StringColumn, cells: Seq<Cell>, c: int, r: u32)
    requires
        Column::String(sc).holds(cells),
        cells.len() <= u32::MAX,
        0 <= c < sc.dictionary@.words.len(),
    ensures
        sc.dictionary@.postings[c].contains(r) <==> r < cells.len() && cells[r as int]
            == Cell::Text(sc.dictionary@.words[c]),
{
    let l = sc.dictionary@;
    sc.dictionary.lemma_wf();
    if l.carries(c, r) {
        assert(l.at(r) is Some);
    }
    if r < cells.len() {
        lemma_cell_text(sc, cells, c, r as int);
        if cells[r as int] == Cell::Text(l.words[c]) {
            let d = choose|d: int| carried(l, d, r as int);
            lemma_cell_text(sc, cells, d, r as int);
            assert(l.words[d] == l.words[c]);
        }
    }
}

/// What a numeric column stores in rows with a value is the number of the cell.
pub proof fn lemma_stored_number(col: Column, cells: Seq<Cell>, r: int)
    requires
        col.holds(cells),
        col.kind() != ColumnType::String,
        0 <= r < cells.len(),
    ensures
        cells[r] is Null ==> cells[r].number() is None,
        !(cells[r] is Null) ==> cells[r].number() == Some(col.stored_number(r)),
{
    assert(cells[r] == col.cell(table::null_set(cells), r));
}

/// The texts of the dictionary are those that occur in the column.
pub proof fn lemma_words_occur(sc: StringColumn, cells: Seq<Cell>, v: Seq<char>)
    requires
        Column::String(sc).holds(cells),
        cells.len() <= u32::MAX,
    ensures
        sc.dictionary@.words.contains(v) <==> exists|r: int|
            0 <= r < cells.len() && #[trigger] cells[r] == Cell::Text(v),
{
    let l = sc.dictionary@;
    sc.dictionary.lemma_wf();
    if l.words.contains(v) {
        let c = l.words.index_of(v);
        assert(l.used(c));
        let r = choose|r: u32| l.carries(c, r);
        lemma_postings(sc, cells, c, r);
        assert(cells[r as int] == Cell::Text(v));
    }
    if exists|r: int| 0 <= r < cells.len() && #[trigger] cells[r] == Cell::Text(v) {
        let r = choose|r: int| 0 <= r < cells.len() && #[trigger] cells[r] == Cell::Text(v);
        lemma_cell_text(sc, cells, 0, r);
        let d = choose|d: int| carried(l, d, r);
        lemma_cell_text(sc, cells, d, r);
        assert(l.words[d] == v);
    }
}

} // verus!
