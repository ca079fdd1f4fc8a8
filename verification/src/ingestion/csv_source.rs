//! CSV files.
use csv::StringRecord;
use vstd::prelude::*;
use vstd::string::*;

use crate::clock::FileTime;
use crate::config::AppConfig;
use crate::error::{AppError, AppResult, Fault};
use crate::ingestion;
use crate::ingestion::loader::Loader;
use crate::resource;
use crate::storage::column::Cell;
use crate::storage::laws;
use crate::storage::table::Table;
use crate::storage::value;
use crate::storage::value::{Raw, RawValue};
use crate::storage::ColumnStore;
use crate::text;

verus! {

/// `csv::StringRecord`, one record of a CSV file.
#[verifier::external_type_specification]
#[verifier::external_body]
pub struct ExStringRecord(StringRecord);

/// The fields of a record.
pub uninterp spec fn fields_of(record: StringRecord) -> Seq<Seq<char>>;

/// `StringRecord::get`: the field at a position, if there is one.
pub assume_specification[ StringRecord::get ](record: &StringRecord, i: usize) -> (r: Option<&str>)
    ensures
        match r {
            Some(f) => i < fields_of(*record).len() && f@ == fields_of(*record)[i as int],
            None => i >= fields_of(*record).len(),
        },
;

/// `StringRecord::len`: how many fields a record has.
pub assume_specification[ StringRecord::len ](record: &StringRecord) -> (n: usize)
    ensures
        n == fields_of(*record).len(),
;

/// Reads a CSV file into a [`ColumnStore`], again only if the file has changed.
pub struct CsvIngestor {
    cfg: AppConfig,
    last_loaded: Option<FileTime>,
}

impl CsvIngestor {
    pub closed spec fn config(&self) -> AppConfig {
        self.cfg
    }

    /// When the file that was loaded last had been modified.
    pub closed spec fn last_loaded(&self) -> Option<FileTime> {
        self.last_loaded
    }

    /// Whether a file that was modified at some moment is to be read: not if it was
    /// loaded as it is.
    pub open spec fn stale(&self, modified: FileTime) -> bool {
        self.last_loaded() != Some(modified)
    }

    pub fn new(cfg: AppConfig) -> (r: CsvIngestor)
        ensures
            r.config() == cfg,
            r.last_loaded() is None,
    {
        CsvIngestor { cfg, last_loaded: None }
    }

    pub fn cfg(&self) -> (r: &AppConfig)
        ensures
            *r == self.config(),
    {
        &self.cfg
    }

    /// Whether the file is to be read: not if it was loaded as it is.
    pub fn needs_load(&self, modified: FileTime) -> (r: bool)
        ensures
            r == self.stale(modified),
    {
        match self.last_loaded {
            Some(t) => t != modified,
            None => true,
        }
    }

    /// Takes over what was read. If the file was rewritten meanwhile, the read may
    /// be torn: the result is dropped, and the next attempt reads the file again.
    /// So it does if the rows could not be sorted: only what was loaded counts.
    pub fn finish(&mut self, before: FileTime, after: FileTime, store: ColumnStore) -> (r:
        AppResult<Option<ColumnStore>>)
        requires
            store.wf(),
            store@.zoned(),
        ensures
            final(self).config() == old(self).config(),
            if before != after {
                &&& r matches Ok(None)
                &&& final(self).last_loaded() == old(self).last_loaded()
            } else {
                match ingestion::finish_fault(store@, old(self).config()) {
                    None => {
                        &&& r matches Ok(Some(s)) && s.wf() && s@.zoned() && ingestion::finished(
                            store@,
                            old(self).config(),
                            s@,
                        )
                        &&& final(self).last_loaded() == Some(after)
                        &&& !final(self).stale(after)
                    },
                    Some(f) => {
                        &&& r matches Err(e) && e@ == f
                        &&& final(self).last_loaded() == old(self).last_loaded()
                    },
                }
            },
    {
        if before != after {
            return Ok(None);
        }
        match ingestion::finalize(store, &self.cfg) {
            Ok(s) => {
                self.last_loaded = Some(after);
                Ok(Some(s))
            },
            Err(e) => Err(e),
        }
    }
}

/// The byte of an ASCII character.
fn ascii_byte(c: char) -> (r: Option<u8>)
    ensures
        match r {
            Some(b) => b as int == c as int && c as int <= 127,
            None => c as int > 127,
        },
{
    if c <= '\x7f' {
        Some(c as u8)
    } else {
        None
    }
}

/// The byte that separates fields: a comma, unless the configuration names an
/// ASCII character.
pub fn resolve_delimiter(delimiter: Option<char>) -> (r: AppResult<u8>)
    ensures
        match delimiter {
            None => r == Ok::<u8, AppError>(44u8),
            Some(c) => if c as int <= 127 {
                r matches Ok(b) && b as int == c as int
            } else {
                r matches Err(e) && e@ == Fault::Config(
                    "CSV delimiter must be a single ASCII character, got "@ + text::quoted_char(c),
                )
            },
        },
{
    match delimiter {
        None => Ok(44),
        Some(c) => match ascii_byte(c) {
            Some(b) => Ok(b),
            None => {
                let mut m: String =
                    "CSV delimiter must be a single ASCII character, got ".to_owned();
                m.append(text::quote_char(c).as_str());
                Err(AppError::Config(m))
            },
        },
    }
}

/// Whether `i` is where a column is first found among the headers.
pub open spec fn found_at(headers: Seq<Seq<char>>, name: Seq<char>, i: int) -> bool {
    &&& 0 <= i < headers.len()
    &&& headers[i] == name
    &&& forall|j: int| 0 <= j < i ==> #[trigger] headers[j] != name
}

/// What is said of a declared column that the headers lack: the first of them.
pub open spec fn header_fault(headers: Seq<Seq<char>>, names: Seq<Seq<char>>) -> Option<Fault>
    decreases names.len(),
{
    if names.len() == 0 {
        None
    } else {
        match header_fault(headers, names.drop_last()) {
            Some(f) => Some(f),
            None => if headers.contains(names.last()) {
                None
            } else {
                Some(
                    Fault::Ingestion(
                        "CSV source is missing declared column "@ + text::quoted(names.last()),
                    ),
                )
            },
        }
    }
}

proof fn lemma_header_fault(headers: Seq<Seq<char>>, names: Seq<Seq<char>>, k: int)
    requires
        0 <= k <= names.len(),
        header_fault(headers, names.take(k)) is Some,
    ensures
        header_fault(headers, names) == header_fault(headers, names.take(k)),
    decreases names.len(),
{
    if k < names.len() {
        assert(names.drop_last().take(k) =~= names.take(k));
        lemma_header_fault(headers, names.drop_last(), k);
    } else {
        assert(names.take(k) =~= names);
    }
}

/// Where a column is first found among the headers.
fn position(headers: &StringRecord, name: &str) -> (r: Option<usize>)
    ensures
        match r {
            Some(i) => found_at(fields_of(*headers), name@, i as int),
            None => !fields_of(*headers).contains(name@),
        },
{
    let mut i: usize = 0;
    while i < headers.len()
        invariant
            i <= fields_of(*headers).len(),
            forall|j: int| 0 <= j < i ==> #[trigger] fields_of(*headers)[j] != name@,
        decreases fields_of(*headers).len() - i,
    {
        if let Some(h) = headers.get(i) {
            if text::same_text(h, name) {
                return Some(i);
            }
        }
        i += 1;
    }
    None
}

/// Where each declared column is found in the records.
pub fn map_headers(headers: &StringRecord, expected: &Vec<String>) -> (r: AppResult<Vec<usize>>)
    ensures
        match header_fault(fields_of(*headers), text::texts(expected@)) {
            None => r matches Ok(indices) && {
                &&& indices@.len() == expected@.len()
                &&& forall|c: int|
                    0 <= c < indices@.len() ==> found_at(
                        fields_of(*headers),
                        expected@[c]@,
                        #[trigger] indices@[c] as int,
                    )
            },
            Some(f) => r matches Err(e) && e@ == f,
        },
{
    let ghost names = text::texts(expected@);
    let ghost fields = fields_of(*headers);
    let mut indices: Vec<usize> = Vec::new();
    let mut c: usize = 0;
    while c < expected.len()
        invariant
            names == text::texts(expected@),
            fields == fields_of(*headers),
            c <= expected@.len(),
            indices@.len() == c,
            header_fault(fields, names.take(c as int)) is None,
            forall|d: int|
                0 <= d < c ==> found_at(fields, expected@[d]@, #[trigger] indices@[d] as int),
        decreases expected@.len() - c,
    {
        assert(names.take(c + 1).drop_last() =~= names.take(c as int));
        assert(names.take(c + 1).last() == expected@[c as int]@);
        match position(headers, expected[c].as_str()) {
            Some(pos) => {
                assert(fields.contains(fields[pos as int]));
                indices.push(pos);
            },
            None => {
                proof {
                    lemma_header_fault(fields, names, c + 1);
                }
                let mut m: String = "CSV source is missing declared column ".to_owned();
                m.append(text::quote(expected[c].as_str()).as_str());
                return Err(AppError::Ingestion(m));
            },
        }
        c += 1;
    }
    assert(names.take(c as int) =~= names);
    Ok(indices)
}

/// Pushes the records of a CSV file into a store.
pub struct CsvLoader {
    loader: Loader,
    indices: Vec<usize>,
    path: String,
}

/// The values that the first `n` columns take from a record, or the position of
/// the first that the record lacks.
pub open spec fn picked(fields: Seq<Seq<char>>, indices: Seq<usize>, n: nat) -> Result<
    Seq<Raw>,
    usize,
>
    decreases n,
{
    if n == 0 {
        Ok(Seq::empty())
    } else {
        match picked(fields, indices, (n - 1) as nat) {
            Err(i) => Err(i),
            Ok(row) => if indices[n - 1] < fields.len() {
                Ok(row.push(Raw::Text(fields[indices[n - 1] as int])))
            } else {
                Err(indices[n - 1])
            },
        }
    }
}

proof fn lemma_picked(fields: Seq<Seq<char>>, indices: Seq<usize>, k: nat, n: nat)
    requires
        k <= n,
        picked(fields, indices, k) is Err,
    ensures
        picked(fields, indices, n) == picked(fields, indices, k),
    decreases n,
{
    if k < n {
        lemma_picked(fields, indices, k, (n - 1) as nat);
    }
}

impl CsvLoader {
    pub closed spec fn loader(&self) -> Loader {
        self.loader
    }

    /// Where each column is found in the records.
    pub closed spec fn indices(&self) -> Seq<usize> {
        self.indices@
    }

    pub closed spec fn path(&self) -> Seq<char> {
        self.path@
    }

    /// What is said of a record that lacks a field.
    pub open spec fn short_fault(&self, i: usize) -> Fault {
        Fault::Ingestion(
            "CSV row "@ + text::decimal(self.loader().table().rows + 1) + " in "@ + self.path()
                + " is missing column index "@ + text::decimal(i as nat),
        )
    }

    /// Whether the loader has an empty store, and knows where the headers have each
    /// column.
    pub open spec fn started(&self, cfg: AppConfig, headers: Seq<Seq<char>>) -> bool {
        &&& self.loader().wf()
        &&& self.loader().table() == Table::empty(cfg)
        &&& self.loader().limit() == cfg.engine.memory_limit
        &&& self.loader().check_every() == cfg.engine.chunk_size_rows
        &&& self.indices().len() == cfg.searchable.keys().len()
        &&& forall|c: int|
            0 <= c < self.indices().len() ==> found_at(
                headers,
                cfg.searchable.keys()[c],
                #[trigger] self.indices()[c] as int,
            )
    }

    /// What becomes of a record, where `before` and `after` are the states of the
    /// loader.
    pub open spec fn pushed(
        before: CsvLoader,
        after: CsvLoader,
        fields: Seq<Seq<char>>,
        r: AppResult<()>,
    ) -> bool {
        &&& after.indices() == before.indices()
        &&& after.path() == before.path()
        &&& match picked(fields, before.indices(), before.indices().len()) {
            Err(i) => {
                &&& r matches Err(e) && e@ == before.short_fault(i)
                &&& after.loader() == before.loader()
            },
            Ok(row) => {
                let l = before.loader();
                &&& Loader::appended(l, after.loader(), row)
                &&& match l.table().pushed(row) {
                    Ok(t) => {
                        &&& t.rows % l.check_every() as nat == 0 ==> resource::checked(l.limit(), r)
                        &&& (t.rows % l.check_every() as nat != 0 || l.limit() == u64::MAX)
                            ==> r is Ok
                        &&& r matches Err(e) ==> exists|rss: u64|
                            rss > l.limit() && e@ == #[trigger] resource::over_limit(
                                rss,
                                l.limit(),
                            )
                    },
                    Err(f) => r matches Err(e) && e@ == f,
                }
            },
        }
    }

    /// A loader with an empty store, once the headers are known. `path` names the
    /// file in messages.
    pub fn start(cfg: &AppConfig, path: &str, headers: &StringRecord) -> (r: AppResult<CsvLoader>)
        requires
            cfg.searchable.wf(),
            cfg.engine.chunk_size_rows > 0,
        ensures
            match header_fault(fields_of(*headers), cfg.searchable.keys()) {
                None => r matches Ok(l) && l.started(*cfg, fields_of(*headers)) && l.path()
                    == path@,
                Some(f) => r matches Err(e) && e@ == f,
            },
    {
        let loader = Loader::new(cfg);
        let ghost names = loader.table().names;
        let mapped = map_headers(headers, loader.column_names());
        match mapped {
            Ok(indices) => {
                let r = CsvLoader { loader, indices, path: path.to_owned() };
                assert forall|c: int| 0 <= c < r.indices().len() implies found_at(
                    fields_of(*headers),
                    names[c],
                    #[trigger] r.indices()[c] as int,
                ) by {
                    assert(found_at(fields_of(*headers), names[c], indices@[c] as int));
                }
                Ok(r)
            },
            Err(e) => Err(e),
        }
    }

    /// Pushes a record. Fails if it lacks a field, if the row is refused, or if
    /// another chunk of rows is complete and the process uses more memory than it
    /// may.
    pub fn push(&mut self, record: &StringRecord) -> (r: AppResult<()>)
        requires
            old(self).loader().wf(),
        ensures
            CsvLoader::pushed(*old(self), *final(self), fields_of(*record), r),
    {
        let ghost fields = fields_of(*record);
        let ghost before = *self;
        let mut row: Vec<RawValue<'_>> = Vec::new();
        let mut c: usize = 0;
        proof {
            self.loader.lemma_wf();
        }
        assert(value::raws(row@) =~= Seq::empty());
        while c < self.indices.len()
            invariant
                *self == before,
                *old(self) == before,
                self.loader.wf(),
                self.loader.table().rows <= u32::MAX,
                fields == fields_of(*record),
                c <= self.indices@.len(),
                picked(fields, self.indices@, c as nat) == Ok::<Seq<Raw>, usize>(
                    value::raws(row@),
                ),
            decreases self.indices@.len() - c,
        {
            let idx: usize = self.indices[c];
            let ghost so_far = row@;
            match record.get(idx) {
                Some(cell) => {
                    row.push(RawValue::Str(cell));
                    assert(value::raws(row@) =~= value::raws(so_far).push(Raw::Text(cell@)));
                },
                None => {
                    proof {
                        lemma_picked(fields, self.indices@, (c + 1) as nat, self.indices@.len());
                    }
                    let mut m: String = "CSV row ".to_owned();
                    text::push_decimal(&mut m, self.loader.ingested() + 1);
                    m.append(" in ");
                    m.append(self.path.as_str());
                    m.append(" is missing column index ");
                    text::push_decimal(&mut m, idx as u64);
                    return Err(AppError::Ingestion(m));
                },
            }
            c += 1;
        }
        self.loader.push(row.as_slice())
    }

    /// What is said of a record that could not be read.
    pub fn read_fault(&self, reason: &str) -> (r: AppError)
        requires
            self.loader().wf(),
        ensures
            r@ == Fault::Ingestion(
                "reading CSV row "@ + text::decimal(self.loader().table().rows + 1) + " from "@
                    + self.path() + ": "@ + reason@,
            ),
    {
        proof {
            self.loader.lemma_wf();
        }
        let mut m: String = "reading CSV row ".to_owned();
        text::push_decimal(&mut m, self.loader.ingested() + 1);
        m.append(" from ");
        m.append(self.path.as_str());
        m.append(": ");
        m.append(reason);
        AppError::Ingestion(m)
    }

    /// The store with all rows.
    pub fn into_store(self) -> (r: ColumnStore)
        ensures
            r == self.loader().store(),
    {
        self.loader.into_store()
    }
}

/// The values that a record offers to the columns, if it has a field for each.
spec fn offered(fields: Seq<Seq<char>>, indices: Seq<usize>) -> Seq<Raw> {
    picked(fields, indices, indices.len())->Ok_0
}

/// A record that has a field for each column offers each its field.
proof fn lemma_offered(fields: Seq<Seq<char>>, indices: Seq<usize>, n: nat, c: int)
    requires
        picked(fields, indices, n) is Ok,
        0 <= c < n,
    ensures
        picked(fields, indices, n)->Ok_0.len() == n,
        indices[c] < fields.len(),
        picked(fields, indices, n)->Ok_0[c] == Raw::Text(fields[indices[c] as int]),
    decreases n,
{
    let before = (n - 1) as nat;
    if c < before {
        lemma_offered(fields, indices, before, c);
    } else if before > 0 {
        lemma_offered(fields, indices, before, 0);
    }
}

/// A file of records that were all accepted becomes as many rows, in the order of
/// the file, each cell what the field under the header of its column becomes.
pub proof fn law_records_become_rows(
    cfg: AppConfig,
    headers: Seq<Seq<char>>,
    states: Seq<CsvLoader>,
    records: Seq<Seq<Seq<char>>>,
    c: int,
    k: int,
)
    requires
        states.len() == records.len() + 1,
        states[0].started(cfg, headers),
        forall|i: int|
            0 <= i < records.len() ==> CsvLoader::pushed(
                #[trigger] states[i],
                states[i + 1],
                records[i],
                Ok::<(), AppError>(()),
            ),
        0 <= c < cfg.searchable.keys().len(),
    ensures
        ({
            let t = states.last().loader().table();
            let i = states[0].indices()[c] as int;
            let name = cfg.searchable.keys()[c];
            &&& states.last().loader().wf()
            &&& t.names == cfg.searchable.keys()
            &&& t.rows == records.len()
            &&& found_at(headers, name, i)
            &&& 0 <= k < records.len() ==> i < records[k].len() && value::cell_of(
                cfg.searchable.vals()[c].column_type,
                name,
                Raw::Text(records[k][i]),
            ) == Ok::<Cell, Fault>(t.cells[c][k])
        }),
{
    let start = Table::empty(cfg);
    let rows = Seq::new(records.len(), |i: int| offered(records[i], states[0].indices()));
    let n = records.len() as int;
    states[0].loader().lemma_wf();
    lemma_records_pushed(cfg, headers, states, records, n);
    assert(rows.take(n) =~= rows);
    laws::law_pushed_rows_stand_in_order(start, rows, states[n].loader().table(), c, k);
    if 0 <= k < n {
        lemma_records_pushed(cfg, headers, states, records, k);
        assert(CsvLoader::pushed(states[k], states[k + 1], records[k], Ok::<(), AppError>(())));
        lemma_offered(records[k], states[0].indices(), states[0].indices().len(), c);
        assert(rows[k][c] == Raw::Text(records[k][states[0].indices()[c] as int]));
    }
}

/// What the first `n` records became.
proof fn lemma_records_pushed(
    cfg: AppConfig,
    headers: Seq<Seq<char>>,
    states: Seq<CsvLoader>,
    records: Seq<Seq<Seq<char>>>,
    n: int,
)
    requires
        states.len() == records.len() + 1,
        states[0].started(cfg, headers),
        forall|i: int|
            0 <= i < records.len() ==> CsvLoader::pushed(
                #[trigger] states[i],
                states[i + 1],
                records[i],
                Ok::<(), AppError>(()),
            ),
        0 <= n <= records.len(),
    ensures
        states[n].loader().wf(),
        states[n].indices() == states[0].indices(),
        laws::pushed_all(
            Table::empty(cfg),
            Seq::new(records.len(), |i: int| offered(records[i], states[0].indices())).take(n),
        ) == Ok::<Table, Fault>(states[n].loader().table()),
    decreases n,
{
    let rows = Seq::new(records.len(), |i: int| offered(records[i], states[0].indices()));
    if n > 0 {
        lemma_records_pushed(cfg, headers, states, records, n - 1);
        assert(CsvLoader::pushed(
            states[n - 1],
            states[n - 1 + 1],
            records[n - 1],
            Ok::<(), AppError>(()),
        ));
        assert(rows.take(n).drop_last() =~= rows.take(n - 1));
    } else {
        assert(rows.take(0) =~= Seq::empty());
    }
}

/// Where the columns of a file are found: each under the first header that is its
/// name.
pub proof fn law_columns_are_found_by_name(
    cfg: AppConfig,
    headers: Seq<Seq<char>>,
    l: CsvLoader,
    c: int,
)
    requires
        l.started(cfg, headers),
        0 <= c < cfg.searchable.keys().len(),
    ensures
        ({
            let i = l.indices()[c] as int;
            &&& 0 <= i < headers.len()
            &&& headers[i] == cfg.searchable.keys()[c]
            &&& forall|j: int| 0 <= j < i ==> #[trigger] headers[j] != cfg.searchable.keys()[c]
        }),
{
    assert(found_at(headers, cfg.searchable.keys()[c], l.indices()[c] as int));
}

/// A file is refused for its headers exactly if a declared column is not among them.
pub proof fn law_declared_columns_must_be_there(headers: Seq<Seq<char>>, names: Seq<Seq<char>>)
    ensures
        header_fault(headers, names) is None <==> forall|c: int|
            0 <= c < names.len() ==> headers.contains(#[trigger] names[c]),
        header_fault(headers, names) matches Some(f) ==> f is Ingestion,
    decreases names.len(),
{
    if names.len() > 0 {
        let first = names.drop_last();
        law_declared_columns_must_be_there(headers, first);
        if header_fault(headers, names) is None {
            assert forall|c: int| 0 <= c < names.len() implies headers.contains(
                #[trigger] names[c],
            ) by {
                if c < first.len() {
                    assert(first[c] == names[c]);
                }
            }
        } else if forall|c: int| 0 <= c < names.len() ==> headers.contains(#[trigger] names[c]) {
            assert forall|c: int| 0 <= c < first.len() implies headers.contains(
                #[trigger] first[c],
            ) by {
                assert(first[c] == names[c]);
            }
            assert(headers.contains(names[names.len() - 1]));
            assert(false);
        }
    }
}

/// A record without a field for one of the columns is refused, and nothing of it is
/// stored; so is one with a field that its column does not take. Any other is
/// accepted, unless there is no room, or the memory limit is checked and exceeded.
pub proof fn law_which_records_are_accepted(
    before: CsvLoader,
    after: CsvLoader,
    fields: Seq<Seq<char>>,
    r: AppResult<()>,
)
    requires
        before.loader().table().wf(),
        before.indices().len() == before.loader().table().names.len(),
        CsvLoader::pushed(before, after, fields, r),
    ensures
        ({
            let t = before.loader().table();
            let whole = forall|c: int|
                0 <= c < before.indices().len() ==> (#[trigger] before.indices()[c]) < fields.len()
                    && value::cell_of(
                    t.kinds[c],
                    t.names[c],
                    Raw::Text(fields[before.indices()[c] as int]),
                ) is Ok;
            &&& !whole ==> r is Err && after.loader().table() == t
            &&& whole && t.rows < u32::MAX ==> after.loader().table().rows == t.rows + 1
            &&& whole && t.rows < u32::MAX ==> if (t.rows + 1) % before.loader().check_every() as nat
                == 0 {
                resource::checked(before.loader().limit(), r)
            } else {
                r is Ok
            }
        }),
{
    let t = before.loader().table();
    let n = before.indices().len();
    let taken = picked(fields, before.indices(), n);
    lemma_all_picked(fields, before.indices(), n);
    match taken {
        Ok(row) => {
            if n > 0 {
                lemma_offered(fields, before.indices(), n, 0);
            }
            lemma_row_taken(t, row, n);
            assert forall|c: int| 0 <= c < n implies (#[trigger] before.indices()[c])
                < fields.len() && row[c] == Raw::Text(fields[before.indices()[c] as int]) by {
                lemma_offered(fields, before.indices(), n, c);
            }
            if t.row_cells(row, n) is Ok {
                assert forall|c: int| 0 <= c < n implies (#[trigger] before.indices()[c])
                    < fields.len() && value::cell_of(
                    t.kinds[c],
                    t.names[c],
                    Raw::Text(fields[before.indices()[c] as int]),
                ) is Ok by {
                    assert(value::cell_of(t.kinds[c], t.names[c], row[c]) is Ok);
                }
            } else {
                let c = choose|c: int|
                    0 <= c < n && !(value::cell_of(t.kinds[c], t.names[c], #[trigger] row[c]) is Ok);
                assert(before.indices()[c] < fields.len());
                assert(row[c] == Raw::Text(fields[before.indices()[c] as int]));
            }
        },
        Err(i) => {},
    }
}

proof fn lemma_all_picked(fields: Seq<Seq<char>>, indices: Seq<usize>, n: nat)
    requires
        n <= indices.len(),
    ensures
        picked(fields, indices, n) is Ok <==> forall|c: int|
            0 <= c < n ==> (#[trigger] indices[c]) < fields.len(),
        picked(fields, indices, n) matches Ok(row) ==> row.len() == n,
    decreases n,
{
    if n > 0 {
        lemma_all_picked(fields, indices, (n - 1) as nat);
    }
}

/// A row is stored exactly if each of its values becomes a cell.
proof fn lemma_row_taken(t: Table, row: Seq<Raw>, n: nat)
    requires
        n <= row.len(),
    ensures
        t.row_cells(row, n) is Ok <==> forall|c: int|
            0 <= c < n ==> value::cell_of(t.kinds[c], t.names[c], #[trigger] row[c]) is Ok,
    decreases n,
{
    if n > 0 {
        lemma_row_taken(t, row, (n - 1) as nat);
    }
}

/// A file is to be read unless it was loaded with the very time of modification that
/// it has.
pub proof fn law_only_a_changed_file_is_read(l: CsvIngestor, modified: FileTime)
    ensures
        l.stale(modified) <==> (l.last_loaded() matches Some(t) ==> t.nanos != modified.nanos),
{
}

/// Fields are separated by the ASCII character that the configuration names, or by a
/// comma where it names none; no other character can separate them.
pub proof fn law_what_separates_fields(delimiter: Option<char>, r: AppResult<u8>)
    requires
        call_ensures(resolve_delimiter, (delimiter,), r),
    ensures
        delimiter is None ==> (r matches Ok(b) && b as int == ',' as int),
        delimiter matches Some(c) ==> (r is Ok <==> (c as int) < 128),
        delimiter matches Some(c) ==> (r matches Ok(b) ==> b as int == c as int),
        r matches Err(e) ==> e is Config,
{
}

/// A file is read as long as none was loaded, and after a load not again until it
/// changes.
pub proof fn law_when_a_file_is_read(
    l: CsvIngestor,
    modified: FileTime,
    wanted: bool,
)
    requires
        call_ensures(CsvIngestor::needs_load, (&l, modified), wanted),
    ensures
        l.last_loaded() is None ==> wanted,
        l.last_loaded() matches Some(t) ==> (wanted <==> t.nanos != modified.nanos),
{
}

} // verus!
