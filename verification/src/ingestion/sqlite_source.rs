//! SQLite databases.
use vstd::prelude::*;
use vstd::string::*;
use vstd::utf8::*;

use crate::config::{AppConfig, ColumnType, SourceConfig};
use crate::error::{AppError, AppResult, Fault};
use crate::float64::Float64;
use crate::ingestion::loader::Loader;
use crate::resource;
use crate::storage::column::Cell;
use crate::storage::laws;
use crate::storage::table::Table;
use crate::storage::value;
use crate::storage::value::{Raw, RawValue};
use crate::storage::ColumnStore;
use crate::text;

verus! {

/// Reads a table of a single-file SQLite database into a [`ColumnStore`].
pub struct SqliteIngestor {
    cfg: AppConfig,
}

/// A value as SQLite stores it.
pub enum SqlValue<'a> {
    Null,
    Integer(i64),
    Real(Float64),
    Text(&'a [u8]),
    Blob,
    /// The value could not be read, for this reason.
    Unreadable(String),
}

/// A [`SqlValue`] with bytes and characters as sequences.
pub enum Sql {
    Null,
    Integer(i64),
    Real(Float64),
    Text(Seq<u8>),
    Blob,
    Unreadable(Seq<char>),
}

impl SqlValue<'_> {
    pub open spec fn view(&self) -> Sql {
        match self {
            SqlValue::Null => Sql::Null,
            SqlValue::Integer(i) => Sql::Integer(*i),
            SqlValue::Real(f) => Sql::Real(*f),
            SqlValue::Text(b) => Sql::Text(b@),
            SqlValue::Blob => Sql::Blob,
            SqlValue::Unreadable(m) => Sql::Unreadable(m@),
        }
    }
}

/// What a row of values holds.
pub open spec fn sqls(values: Seq<SqlValue<'_>>) -> Seq<Sql> {
    Seq::new(values.len(), |i: int| values[i]@)
}

/// What is said of bytes that are not UTF-8.
pub uninterp spec fn utf8_fault(bytes: Seq<u8>) -> Seq<char>;

/// `std::str::from_utf8`: the text that bytes encode, if they are UTF-8. The
/// message of its error is named, not spelled out.
#[verifier::external_body]
fn decode(bytes: &[u8]) -> (r: Result<&str, String>)
    ensures
        match r {
            Ok(s) => valid_utf8(bytes@) && s@ == decode_utf8(bytes@),
            Err(m) => !valid_utf8(bytes@) && m@ == utf8_fault(bytes@),
        },
{
    std::str::from_utf8(bytes).map_err(|e| e.to_string())
}

/// The value that a column of row `row` is offered.
pub open spec fn mapped(column: Seq<char>, v: Sql, row: nat) -> Result<Raw, Fault> {
    match v {
        Sql::Null => Ok(Raw::Null),
        Sql::Integer(i) => Ok(Raw::Integer(i)),
        Sql::Real(f) => Ok(Raw::Float(f)),
        Sql::Text(b) => if valid_utf8(b) {
            Ok(Raw::Text(decode_utf8(b)))
        } else {
            Err(
                Fault::Ingestion(
                    "column "@ + text::quoted(column) + ": non-UTF-8 text value: "@ + utf8_fault(b),
                ),
            )
        },
        Sql::Blob => Err(
            Fault::Ingestion(
                "column "@ + text::quoted(column) + ": BLOB values are not supported"@,
            ),
        ),
        Sql::Unreadable(m) => Err(
            Fault::Ingestion(
                "reading SQLite column "@ + text::quoted(column) + " at row "@ + text::decimal(row)
                    + ": "@ + m,
            ),
        ),
    }
}

/// The value that a column of row `row` is offered.
pub fn map_value<'a>(column: &str, value: &SqlValue<'a>, row: u64) -> (r: AppResult<RawValue<'a>>)
    ensures
        match mapped(column@, value@, row as nat) {
            Ok(v) => r matches Ok(x) && x@ == v,
            Err(f) => r matches Err(e) && e@ == f,
        },
{
    match value {
        SqlValue::Null => Ok(RawValue::Null),
        SqlValue::Integer(i) => Ok(RawValue::Integer(*i)),
        SqlValue::Real(f) => Ok(RawValue::Float(*f)),
        SqlValue::Text(bytes) => match decode(bytes) {
            Ok(s) => Ok(RawValue::Str(s)),
            Err(reason) => {
                let mut m: String = "column ".to_owned();
                m.append(text::quote(column).as_str());
                m.append(": non-UTF-8 text value: ");
                m.append(reason.as_str());
                Err(AppError::Ingestion(m))
            },
        },
        SqlValue::Blob => {
            let mut m: String = "column ".to_owned();
            m.append(text::quote(column).as_str());
            m.append(": BLOB values are not supported");
            Err(AppError::Ingestion(m))
        },
        SqlValue::Unreadable(reason) => {
            let mut m: String = "reading SQLite column ".to_owned();
            m.append(text::quote(column).as_str());
            m.append(" at row ");
            text::push_decimal(&mut m, row);
            m.append(": ");
            m.append(reason.as_str());
            Err(AppError::Ingestion(m))
        },
    }
}

/// A text with every double quote doubled.
pub open spec fn doubled(s: Seq<char>) -> Seq<char>
    decreases s.len(),
{
    if s.len() == 0 {
        Seq::empty()
    } else if s.last() == '"' {
        doubled(s.drop_last()).push('"').push('"')
    } else {
        doubled(s.drop_last()).push(s.last())
    }
}

/// A name as an SQL identifier: in double quotes, with those in it doubled.
pub open spec fn identifier(name: Seq<char>) -> Seq<char> {
    seq!['"'] + doubled(name) + seq!['"']
}

/// Quotes an SQL identifier by SQLite's double-quote convention and escapes
/// embedded quotes, so that names out of the configuration cannot break out.
pub fn quote_ident(name: &str) -> (r: String)
    ensures
        r@ == identifier(name@),
{
    let chars: Vec<char> = text::chars_of(name);
    let mut r: String = String::new();
    text::push_char(&mut r, '"');
    let mut i: usize = 0;
    assert(name@.take(0) =~= Seq::empty());
    while i < chars.len()
        invariant
            chars@ == name@,
            i <= chars@.len(),
            r@ == seq!['"'] + doubled(name@.take(i as int)),
        decreases chars@.len() - i,
    {
        let c: char = chars[i];
        assert(name@.take(i + 1).drop_last() =~= name@.take(i as int));
        let ghost so_far = doubled(name@.take(i as int));
        if c == '"' {
            text::push_char(&mut r, '"');
            text::push_char(&mut r, '"');
            assert(r@ =~= seq!['"'] + so_far.push('"').push('"'));
        } else {
            text::push_char(&mut r, c);
            assert(r@ =~= seq!['"'] + so_far.push(c));
        }
        i += 1;
    }
    assert(name@.take(i as int) =~= name@);
    text::push_char(&mut r, '"');
    assert(r@ =~= identifier(name@));
    r
}

/// The identifiers of some columns, separated by commas.
pub open spec fn column_list(names: Seq<Seq<char>>) -> Seq<char>
    decreases names.len(),
{
    if names.len() == 0 {
        Seq::empty()
    } else if names.len() == 1 {
        identifier(names.last())
    } else {
        column_list(names.drop_last()) + ", "@ + identifier(names.last())
    }
}

/// The statement that reads some columns of a table.
pub open spec fn select(names: Seq<Seq<char>>, table: Seq<char>) -> Seq<char> {
    "SELECT "@ + column_list(names) + " FROM "@ + identifier(table)
}

/// The statement that reads some columns of a table.
pub fn select_sql(columns: &Vec<String>, table: &str) -> (r: String)
    ensures
        r@ == select(text::texts(columns@), table@),
{
    let ghost names = text::texts(columns@);
    let mut r: String = "SELECT ".to_owned();
    let mut i: usize = 0;
    assert(names.take(0) =~= Seq::empty());
    assert(r@ =~= "SELECT "@ + column_list(names.take(0)));
    while i < columns.len()
        invariant
            names == text::texts(columns@),
            i <= columns@.len(),
            r@ == "SELECT "@ + column_list(names.take(i as int)),
        decreases columns@.len() - i,
    {
        assert(names.take(i + 1).drop_last() =~= names.take(i as int));
        assert(names.take(i + 1).last() == columns@[i as int]@);
        let ghost so_far = column_list(names.take(i as int));
        if i > 0 {
            r.append(", ");
        }
        r.append(quote_ident(columns[i].as_str()).as_str());
        assert(r@ =~= "SELECT "@ + column_list(names.take(i + 1)));
        i += 1;
    }
    assert(names.take(i as int) =~= names);
    r.append(" FROM ");
    r.append(quote_ident(table).as_str());
    r
}

impl SqliteIngestor {
    pub closed spec fn config(&self) -> AppConfig {
        self.cfg
    }

    pub fn new(cfg: AppConfig) -> (r: SqliteIngestor)
        ensures
            r.config() == cfg,
    {
        SqliteIngestor { cfg }
    }

    pub fn cfg(&self) -> (r: &AppConfig)
        ensures
            *r == self.config(),
    {
        &self.cfg
    }

    /// The statement that reads the declared columns, if the source is an SQLite
    /// database.
    pub fn statement(&self, columns: &Vec<String>) -> (r: Option<String>)
        ensures
            match self.config().source {
                SourceConfig::Sqlite { table, .. } => r matches Some(sql) && sql@ == select(
                    text::texts(columns@),
                    table@,
                ),
                _ => r is None,
            },
    {
        match &self.cfg.source {
            SourceConfig::Sqlite { table, .. } => Some(select_sql(columns, table.as_str())),
            _ => None,
        }
    }
}

/// Pushes the rows of a query result into a store.
pub struct SqliteLoader {
    loader: Loader,
}

/// The values that the first `n` columns of row `row` are offered, or what is
/// wrong with the first that cannot be taken.
pub open spec fn mapped_row(names: Seq<Seq<char>>, values: Seq<Sql>, row: nat, n: nat) -> Result<
    Seq<Raw>,
    Fault,
>
    decreases n,
{
    if n == 0 {
        Ok(Seq::empty())
    } else {
        match mapped_row(names, values, row, (n - 1) as nat) {
            Err(f) => Err(f),
            Ok(done) => match mapped(names[n - 1], values[n - 1], row) {
                Err(f) => Err(f),
                Ok(v) => Ok(done.push(v)),
            },
        }
    }
}

proof fn lemma_mapped_row(names: Seq<Seq<char>>, values: Seq<Sql>, row: nat, k: nat, n: nat)
    requires
        k <= n,
        mapped_row(names, values, row, k) is Err,
    ensures
        mapped_row(names, values, row, n) == mapped_row(names, values, row, k),
    decreases n,
{
    if k < n {
        lemma_mapped_row(names, values, row, k, (n - 1) as nat);
    }
}

impl SqliteLoader {
    pub closed spec fn loader(&self) -> Loader {
        self.loader
    }

    /// A loader with an empty store.
    pub fn start(cfg: &AppConfig) -> (r: SqliteLoader)
        requires
            cfg.searchable.wf(),
            cfg.engine.chunk_size_rows > 0,
        ensures
            r.loader().wf(),
            r.loader().table() == Table::empty(*cfg),
            r.loader().limit() == cfg.engine.memory_limit,
            r.loader().check_every() == cfg.engine.chunk_size_rows,
    {
        SqliteLoader { loader: Loader::new(cfg) }
    }

    /// The columns to be read, in the order of the values of a row.
    pub fn column_names(&self) -> (r: &Vec<String>)
        ensures
            text::texts(r@) == self.loader().table().names,
    {
        self.loader.column_names()
    }

    /// What becomes of a row, where `before` and `after` are the states of the
    /// loader.
    pub open spec fn pushed(
        before: SqliteLoader,
        after: SqliteLoader,
        values: Seq<Sql>,
        r: AppResult<()>,
    ) -> bool {
        let l = before.loader();
        let t = l.table();
        match mapped_row(t.names, values, t.rows + 1, values.len()) {
            Err(f) => {
                &&& r matches Err(e) && e@ == f
                &&& after.loader() == l
            },
            Ok(row) => {
                &&& Loader::appended(l, after.loader(), row)
                &&& match t.pushed(row) {
                    Ok(u) => {
                        &&& u.rows % l.check_every() as nat == 0 ==> resource::checked(l.limit(), r)
                        &&& (u.rows % l.check_every() as nat != 0 || l.limit() == u64::MAX)
                            ==> r is Ok
                        &&& r matches Err(e) ==> exists|rss: u64|
                            rss > l.limit() && e@ == #[trigger] resource::over_limit(
                                rss,
                                l.limit(),
                            )
                    },
                    Err(f) => r matches Err(e) && e@ == f,
                }
            },
        }
    }

    /// Pushes a row, with one value per column. Fails if a value cannot be taken,
    /// if the row is refused, or if another chunk of rows is complete and the
    /// process uses more memory than it may.
    pub fn push(&mut self, values: &Vec<SqlValue<'_>>) -> (r: AppResult<()>)
        requires
            old(self).loader().wf(),
            values@.len() == old(self).loader().table().names.len(),
        ensures
            SqliteLoader::pushed(*old(self), *final(self), sqls(values@), r),
    {
        let ghost before = *self;
        let ghost t = self.loader.table();
        proof {
            self.loader.lemma_wf();
        }
        let number: u64 = self.loader.ingested() + 1;
        let mut row: Vec<RawValue<'_>> = Vec::new();
        let mut c: usize = 0;
        assert(value::raws(row@) =~= Seq::empty());
        while c < values.len()
            invariant
                *self == before,
                *old(self) == before,
                self.loader.wf(),
                t == self.loader.table(),
                number == t.rows + 1,
                values@.len() == t.names.len(),
                c <= values@.len(),
                mapped_row(t.names, sqls(values@), t.rows + 1, c as nat) == Ok::<Seq<Raw>, Fault>(
                    value::raws(row@),
                ),
            decreases values@.len() - c,
        {
            let names = self.loader.column_names();
            let ghost so_far = row@;
            assert(text::texts(names@)[c as int] == t.names[c as int]);
            match map_value(names[c].as_str(), &values[c], number) {
                Ok(v) => {
                    row.push(v);
                    assert(value::raws(row@) =~= value::raws(so_far).push(v@));
                },
                Err(e) => {
                    proof {
                        lemma_mapped_row(
                            t.names,
                            sqls(values@),
                            t.rows + 1,
                            (c + 1) as nat,
                            values@.len(),
                        );
                    }
                    return Err(e);
                },
            }
            c += 1;
        }
        self.loader.push(row.as_slice())
    }

    /// What is said of a row that could not be read.
    pub fn read_fault(&self, reason: &str) -> (r: AppError)
        requires
            self.loader().wf(),
        ensures
            r@ == Fault::Ingestion(
                "iterating SQLite row "@ + text::decimal(self.loader().table().rows + 1) + ": "@
                    + reason@,
            ),
    {
        proof {
            self.loader.lemma_wf();
        }
        let mut m: String = "iterating SQLite row ".to_owned();
        text::push_decimal(&mut m, self.loader.ingested() + 1);
        m.append(": ");
        m.append(reason);
        AppError::Ingestion(m)
    }

    /// The store with all rows.
    pub fn into_store(self) -> (r: ColumnStore)
        ensures
            r == self.loader().store(),
    {
        self.loader.into_store()
    }
}

/// The text that an SQL identifier quotes, if it is one: what stands between
/// double quotes, with each double quote in it doubled.
pub open spec fn undoubled(s: Seq<char>) -> Option<Seq<char>>
    decreases s.len(),
{
    if s.len() == 0 {
        Some(Seq::empty())
    } else if s.last() != '"' {
        match undoubled(s.drop_last()) {
            Some(t) => Some(t.push(s.last())),
            None => None,
        }
    } else if s.len() >= 2 && s[s.len() - 2] == '"' {
        match undoubled(s.take(s.len() - 2)) {
            Some(t) => Some(t.push('"')),
            None => None,
        }
    } else {
        None
    }
}

/// Quoting loses nothing and cannot be broken out of: what stands between the
/// outer quotes reads back as the name, whatever the name holds.
pub proof fn law_identifiers_read_back(name: Seq<char>)
    ensures
        identifier(name).len() >= 2,
        identifier(name).first() == '"',
        identifier(name).last() == '"',
        undoubled(identifier(name).subrange(1, identifier(name).len() - 1)) == Some(name),
{
    assert(identifier(name).subrange(1, identifier(name).len() - 1) =~= doubled(name));
    lemma_undoubled(name);
}

proof fn lemma_undoubled(s: Seq<char>)
    ensures
        undoubled(doubled(s)) == Some(s),
    decreases s.len(),
{
    if s.len() > 0 {
        lemma_undoubled(s.drop_last());
        let d = doubled(s.drop_last());
        assert(s =~= s.drop_last().push(s.last()));
        if s.last() == '"' {
            assert(doubled(s).take(doubled(s).len() - 2) =~= d);
        } else {
            assert(doubled(s).drop_last() =~= d);
        }
    } else {
        assert(s =~= Seq::empty());
    }
}

/// The values that the columns are offered, if each can be taken.
spec fn offered(names: Seq<Seq<char>>, values: Seq<Sql>, row: nat) -> Seq<Raw> {
    mapped_row(names, values, row, values.len())->Ok_0
}

/// A row of which each value can be taken offers each column its value.
proof fn lemma_offered(names: Seq<Seq<char>>, values: Seq<Sql>, row: nat, n: nat, c: int)
    requires
        mapped_row(names, values, row, n) is Ok,
        0 <= c < n,
    ensures
        mapped_row(names, values, row, n)->Ok_0.len() == n,
        mapped(names[c], values[c], row) == Ok::<Raw, Fault>(
            mapped_row(names, values, row, n)->Ok_0[c],
        ),
    decreases n,
{
    let before = (n - 1) as nat;
    if c < before {
        lemma_offered(names, values, row, before, c);
    } else if before > 0 {
        lemma_offered(names, values, row, before, 0);
    }
}

/// A query result of which all rows were accepted becomes as many rows, in the same
/// order, each cell what the value that its column was offered becomes.
pub proof fn law_results_become_rows(
    cfg: AppConfig,
    states: Seq<SqliteLoader>,
    results: Seq<Seq<Sql>>,
    c: int,
    k: int,
)
    requires
        states.len() == results.len() + 1,
        states[0].loader().wf(),
        states[0].loader().table() == Table::empty(cfg),
        forall|i: int|
            0 <= i < results.len() ==> SqliteLoader::pushed(
                #[trigger] states[i],
                states[i + 1],
                results[i],
                Ok::<(), AppError>(()),
            ),
        0 <= c < cfg.searchable.keys().len(),
    ensures
        ({
            let t = states.last().loader().table();
            let name = cfg.searchable.keys()[c];
            &&& states.last().loader().wf()
            &&& t.names == cfg.searchable.keys()
            &&& t.rows == results.len()
            &&& 0 <= k < results.len() ==> {
                &&& results[k].len() == t.names.len()
                &&& mapped(name, results[k][c], (k + 1) as nat) matches Ok(v) && value::cell_of(
                    cfg.searchable.vals()[c].column_type,
                    name,
                    v,
                ) == Ok::<Cell, Fault>(t.cells[c][k])
            }
        }),
{
    let start = Table::empty(cfg);
    let names = cfg.searchable.keys();
    let rows = Seq::new(results.len(), |i: int| offered(names, results[i], (i + 1) as nat));
    let n = results.len() as int;
    states[0].loader().lemma_wf();
    lemma_results_pushed(cfg, states, results, n);
    assert(rows.take(n) =~= rows);
    laws::law_pushed_rows_stand_in_order(start, rows, states[n].loader().table(), c, k);
    if 0 <= k < n {
        lemma_results_pushed(cfg, states, results, k);
        assert(SqliteLoader::pushed(states[k], states[k + 1], results[k], Ok::<(), AppError>(())));
        let taken = rows[k];
        if results[k].len() > 0 {
            lemma_offered(names, results[k], (k + 1) as nat, results[k].len(), 0);
        }
        lemma_offered(names, results[k], (k + 1) as nat, results[k].len(), c);
        assert(taken[c] == offered(names, results[k], (k + 1) as nat)[c]);
    }
}

/// What the first `n` rows of a query result became.
proof fn lemma_results_pushed(
    cfg: AppConfig,
    states: Seq<SqliteLoader>,
    results: Seq<Seq<Sql>>,
    n: int,
)
    requires
        states.len() == results.len() + 1,
        states[0].loader().wf(),
        states[0].loader().table() == Table::empty(cfg),
        forall|i: int|
            0 <= i < results.len() ==> SqliteLoader::pushed(
                #[trigger] states[i],
                states[i + 1],
                results[i],
                Ok::<(), AppError>(()),
            ),
        0 <= n <= results.len(),
    ensures
        states[n].loader().wf(),
        states[n].loader().table().names == cfg.searchable.keys(),
        states[n].loader().table().rows == n,
        laws::pushed_all(
            Table::empty(cfg),
            Seq::new(
                results.len(),
                |i: int| offered(cfg.searchable.keys(), results[i], (i + 1) as nat),
            ).take(n),
        ) == Ok::<Table, Fault>(states[n].loader().table()),
    decreases n,
{
    let names = cfg.searchable.keys();
    let rows = Seq::new(results.len(), |i: int| offered(names, results[i], (i + 1) as nat));
    if n > 0 {
        lemma_results_pushed(cfg, states, results, n - 1);
        assert(SqliteLoader::pushed(
            states[n - 1],
            states[n - 1 + 1],
            results[n - 1],
            Ok::<(), AppError>(()),
        ));
        assert(rows.take(n).drop_last() =~= rows.take(n - 1));
    } else {
        assert(rows.take(0) =~= Seq::empty());
    }
}

/// What a value of a query result becomes in a column: nulls, integers, reals and
/// texts are offered as they are, whatever the column, and anything else is refused.
pub proof fn law_sql_values(name: Seq<char>, kind: ColumnType, v: Sql, row: nat, i: i64, f: Float64)
    ensures
        mapped(name, v, row) is Err <==> match v {
            Sql::Text(b) => !valid_utf8(b),
            Sql::Blob => true,
            Sql::Unreadable(_) => true,
            _ => false,
        },
        mapped(name, v, row) matches Err(e) ==> e is Ingestion,
        mapped(name, Sql::Null, row) matches Ok(x) && value::cell_of(kind, name, x) == Ok::<
            Cell,
            Fault,
        >(Cell::Null),
        mapped(name, Sql::Integer(i), row) matches Ok(x) && {
            &&& value::cell_of(ColumnType::Integer, name, x) == Ok::<Cell, Fault>(Cell::Integer(i))
            &&& value::cell_of(ColumnType::DateTime, name, x) == Ok::<Cell, Fault>(
                Cell::DateTime(i),
            )
            &&& value::cell_of(ColumnType::Float, name, x) matches Ok(Cell::Float(y))
                && value::nearest_to(y, i)
        },
        mapped(name, Sql::Real(f), row) matches Ok(x) && value::cell_of(
            ColumnType::Float,
            name,
            x,
        ) == Ok::<Cell, Fault>(Cell::Float(f)),
        v matches Sql::Text(b) ==> valid_utf8(b) ==> mapped(name, v, row) == Ok::<Raw, Fault>(
            Raw::Text(decode_utf8(b)),
        ),
{
    value::law_float_columns(name, i, f, Seq::empty());
}

/// The statement reads the columns that were declared, in their order, each once.
pub proof fn law_statement_lists_the_columns(names: Seq<Seq<char>>, n: Seq<char>, table: Seq<char>)
    ensures
        select(names, table) == "SELECT "@ + column_list(names) + " FROM "@ + identifier(table),
        column_list(seq![n]) == identifier(n),
        names.len() > 0 ==> column_list(names.push(n)) == column_list(names) + ", "@ + identifier(n),
{
    assert(names.push(n).drop_last() =~= names);
    assert(seq![n].last() == n);
}

/// A row of a query result is refused, and nothing of it is stored, if one of its
/// values cannot be taken or its column does not take it. Any other is accepted,
/// unless there is no room, or the memory limit is checked and exceeded.
pub proof fn law_which_results_are_accepted(
    before: SqliteLoader,
    after: SqliteLoader,
    values: Seq<Sql>,
    r: AppResult<()>,
)
    requires
        before.loader().table().wf(),
        values.len() == before.loader().table().names.len(),
        SqliteLoader::pushed(before, after, values, r),
    ensures
        ({
            let t = before.loader().table();
            let whole = forall|c: int|
                0 <= c < values.len() ==> (mapped(t.names[c], #[trigger] values[c], t.rows + 1)
                    matches Ok(v) && value::cell_of(t.kinds[c], t.names[c], v) is Ok);
            &&& !whole ==> r is Err && after.loader().table() == t
            &&& whole && t.rows < u32::MAX ==> after.loader().table().rows == t.rows + 1
            &&& whole && t.rows < u32::MAX ==> if (t.rows + 1) % before.loader().check_every() as nat
                == 0 {
                resource::checked(before.loader().limit(), r)
            } else {
                r is Ok
            }
        }),
{
    let t = before.loader().table();
    let n = values.len();
    lemma_all_mapped(t.names, values, t.rows + 1, n);
    if let Ok(row) = mapped_row(t.names, values, t.rows + 1, n) {
        laws::law_which_rows_are_taken(t, row);
        assert forall|c: int| 0 <= c < n implies mapped(t.names[c], #[trigger] values[c], t.rows + 1)
            == Ok::<Raw, Fault>(row[c]) by {
            lemma_offered(t.names, values, t.rows + 1, n, c);
        }
        if t.rows < u32::MAX {
            if t.pushed(row) is Ok {
                assert forall|c: int| 0 <= c < n implies (mapped(
                    t.names[c],
                    #[trigger] values[c],
                    t.rows + 1,
                ) matches Ok(v) && value::cell_of(t.kinds[c], t.names[c], v) is Ok) by {
                    assert(value::cell_of(t.kinds[c], t.names[c], row[c]) is Ok);
                }
            } else {
                let c = choose|c: int|
                    0 <= c < n && !(value::cell_of(t.kinds[c], t.names[c], #[trigger] row[c]) is Ok);
                assert(mapped(t.names[c], values[c], t.rows + 1) == Ok::<Raw, Fault>(row[c]));
            }
        }
    }
}

proof fn lemma_all_mapped(names: Seq<Seq<char>>, values: Seq<Sql>, row: nat, n: nat)
    requires
        n <= values.len(),
    ensures
        mapped_row(names, values, row, n) is Ok <==> forall|c: int|
            0 <= c < n ==> mapped(names[c], #[trigger] values[c], row) is Ok,
        mapped_row(names, values, row, n) matches Ok(done) ==> done.len() == n,
    decreases n,
{
    if n > 0 {
        lemma_all_mapped(names, values, row, (n - 1) as nat);
    }
}

} // verus!
