//! What the engine is told at start: the source, the limits, the schema.
use vstd::prelude::*;
use vstd::string::*;

use crate::name_map::NameMap;
use crate::text;

verus! {

/// Top-level job configuration.
#[derive(Debug, Clone)]
pub struct AppConfig {
    pub source: SourceConfig,
    pub engine: EngineConfig,
    pub api: ApiConfig,
    /// Only columns listed here are pulled off the input source; anything else
    /// is dropped during ingestion.
    pub searchable: NameMap<SearchableColumn>,
    /// Optional partition column for chunk-level zone pruning. Must name a
    /// numeric or date-time column in `searchable`. When set, all rows are
    /// sorted by this column after ingestion and per-chunk bounds are recorded;
    /// queries with a range filter on it skip chunks that cannot match.
    pub partition_column: Option<String>,
}

#[derive(Debug, Clone)]
pub enum SourceConfig {
    Csv { path: String, delimiter: Option<char>, gzip: bool },
    Sqlite { path: String, table: String },
}

#[derive(Debug, Clone)]
pub struct EngineConfig {
    /// Hard RAM ceiling in bytes: exceeding it during ingestion is fatal.
    pub memory_limit: u64,
    /// Number of rows per chunk that is handed to a worker.
    pub chunk_size_rows: usize,
    /// Dedicated CPU-bound worker threads.
    pub worker_threads: usize,
    /// Whether non-hidden string columns get a hit count per value in query
    /// responses.
    pub string_value_counts: bool,
    /// Minutes between two looks at the files for a reload; zero disables it.
    pub reload_interval_mins: u32,
}

#[derive(Debug, Clone)]
pub struct ApiConfig {
    pub bind: String,
}

#[derive(Debug, Clone)]
pub struct SearchableColumn {
    pub column_type: ColumnType,
    /// When `true`, the column is indexed and filterable but excluded from
    /// query responses.
    pub hidden: bool,
}

#[derive(Debug, Clone, Copy, PartialEq, Eq, Structural)]
pub enum ColumnType {
    Integer,
    Float,
    String,
    DateTime,
}

impl SourceConfig {
    pub open spec fn path(self) -> Seq<char> {
        match self {
            SourceConfig::Csv { path, .. } => path@,
            SourceConfig::Sqlite { path, .. } => path@,
        }
    }

    /// The file that the source reads, if it reads one.
    pub fn file_path(&self) -> (r: Option<&str>)
        ensures
            r is Some,
            r->0@ == self.path(),
    {
        match self {
            SourceConfig::Csv { path, .. } => Some(path.as_str()),
            SourceConfig::Sqlite { path, .. } => Some(path.as_str()),
        }
    }
}

/// Whether a character belongs to the number of a byte size.
pub open spec fn size_char(c: char) -> bool {
    '0' <= c <= '9' || c == '_'
}

/// How many characters at the start of `s` belong to its number.
pub open spec fn size_prefix(s: Seq<char>) -> nat
    decreases s.len(),
{
    if s.len() > 0 && size_char(s.first()) {
        1 + size_prefix(s.drop_first())
    } else {
        0
    }
}

/// The number that decimal digits make; underscores are skipped.
pub open spec fn digits_value(s: Seq<char>) -> nat
    decreases s.len(),
{
    if s.len() == 0 {
        0
    } else if s.last() == '_' {
        digits_value(s.drop_last())
    } else {
        10 * digits_value(s.drop_last()) + (s.last() as nat - '0' as nat) as nat
    }
}

/// Whether anything but underscores is there.
pub open spec fn has_digit(s: Seq<char>) -> bool {
    exists|i: int| 0 <= i < s.len() && s[i] != '_'
}

/// How many bytes a suffix stands for.
pub open spec fn size_unit(suffix: Seq<char>) -> Option<u64> {
    if suffix == ""@ || suffix == "b"@ {
        Some(1)
    } else if suffix == "k"@ || suffix == "kb"@ || suffix == "kib"@ {
        Some(0x400)
    } else if suffix == "m"@ || suffix == "mb"@ || suffix == "mib"@ {
        Some(0x10_0000)
    } else if suffix == "g"@ || suffix == "gb"@ || suffix == "gib"@ {
        Some(0x4000_0000)
    } else if suffix == "t"@ || suffix == "tb"@ || suffix == "tib"@ {
        Some(0x100_0000_0000)
    } else {
        None
    }
}

/// The byte size that a text writes down: digits, then an optional binary
/// suffix in either case, with white space allowed around each.
pub open spec fn byte_size(raw: Seq<char>) -> Result<u64, Seq<char>> {
    let s = text::trimmed(raw);
    let k = size_prefix(s) as int;
    let digits = s.take(k);
    let suffix = text::lowered(text::trimmed(s.skip(k)));
    let n = digits_value(digits);
    if !has_digit(digits) {
        Err("byte size is missing a numeric prefix: "@ + text::quoted(raw))
    } else if n > u64::MAX {
        Err("invalid number in byte size: "@ + text::quoted(raw))
    } else {
        match size_unit(suffix) {
            None => Err(
                "unknown byte size suffix "@ + text::quoted(suffix) + " in "@ + text::quoted(raw),
            ),
            Some(unit) => if n * unit > u64::MAX {
                Err("byte size overflow: "@ + text::quoted(raw))
            } else {
                Ok((n * unit) as u64)
            },
        }
    }
}

/// The prefix of a text's number ends where `size_prefix` says.
proof fn lemma_size_prefix(s: Seq<char>, k: int)
    requires
        0 <= k <= s.len(),
        forall|i: int| 0 <= i < k ==> size_char(#[trigger] s[i]),
        k == s.len() || !size_char(s[k]),
    ensures
        size_prefix(s) == k,
    decreases s.len(),
{
    if k > 0 {
        lemma_size_prefix(s.drop_first(), k - 1);
    }
}

fn size_unit_of(suffix: &str) -> (r: Option<u64>)
    ensures
        r == size_unit(suffix@),
{
    if text::same_text(suffix, "") || text::same_text(suffix, "b") {
        Some(1)
    } else if text::same_text(suffix, "k") || text::same_text(suffix, "kb") || text::same_text(
        suffix,
        "kib",
    ) {
        Some(0x400)
    } else if text::same_text(suffix, "m") || text::same_text(suffix, "mb") || text::same_text(
        suffix,
        "mib",
    ) {
        Some(0x10_0000)
    } else if text::same_text(suffix, "g") || text::same_text(suffix, "gb") || text::same_text(
        suffix,
        "gib",
    ) {
        Some(0x4000_0000)
    } else if text::same_text(suffix, "t") || text::same_text(suffix, "tb") || text::same_text(
        suffix,
        "tib",
    ) {
        Some(0x100_0000_0000)
    } else {
        None
    }
}

/// `head` followed by the quoted form of `raw`.
fn with_quoted(head: &str, raw: &str) -> (r: String)
    ensures
        r@ == head@ + text::quoted(raw@),
{
    let mut m: String = head.to_owned();
    m.append(text::quote(raw).as_str());
    m
}

/// Reads a byte count with an optional binary suffix (`K`/`KB`/`KiB`, `M`, `G`,
/// `T`).
pub fn parse_byte_size(raw: &str) -> (r: Result<u64, String>)
    ensures
        match r {
            Ok(n) => byte_size(raw@) == Ok::<u64, Seq<char>>(n),
            Err(m) => byte_size(raw@) == Err::<u64, Seq<char>>(m@),
        },
{
    let s: &str = text::trim(raw);
    let chars: Vec<char> = text::chars_of(s);
    let mut k: usize = 0;
    let mut any: bool = false;
    let mut n: Option<u64> = Some(0);
    while k < chars.len() && (('0' <= chars[k] && chars[k] <= '9') || chars[k] == '_')
        invariant
            chars@ == s@,
            k <= chars@.len(),
            forall|i: int| 0 <= i < k ==> size_char(#[trigger] s@[i]),
            any == has_digit(s@.take(k as int)),
            match n {
                Some(v) => v == digits_value(s@.take(k as int)),
                None => digits_value(s@.take(k as int)) > u64::MAX,
            },
        decreases chars@.len() - k,
    {
        let c: char = chars[k];
        proof {
            let after = s@.take(k + 1);
            assert(after.drop_last() =~= s@.take(k as int));
            assert(after.last() == c);
            assert(has_digit(after) == (any || c != '_')) by {
                if any {
                    let i = choose|i: int| 0 <= i < k && s@.take(k as int)[i] != '_';
                    assert(after[i] != '_');
                }
                if c != '_' {
                    assert(after[k as int] != '_');
                }
                if has_digit(after) {
                    let i = choose|i: int| 0 <= i < after.len() && after[i] != '_';
                    if i < k {
                        assert(s@.take(k as int)[i] != '_');
                    }
                }
            }
        }
        if c != '_' {
            any = true;
            let d: u64 = (c as u8 - 48) as u64;
            n = match n {
                Some(v) => match v.checked_mul(10) {
                    Some(w) => w.checked_add(d),
                    None => None,
                },
                None => None,
            };
        }
        k += 1;
    }
    proof {
        lemma_size_prefix(s@, k as int);
    }
    if !any {
        return Err(with_quoted("byte size is missing a numeric prefix: ", raw));
    }
    let n: u64 = match n {
        Some(v) => v,
        None => {
            return Err(with_quoted("invalid number in byte size: ", raw));
        },
    };
    let rest: &str = s.substring_char(k, chars.len());
    assert(rest@ =~= s@.skip(k as int));
    let suffix: String = text::to_lower(text::trim(rest));
    match size_unit_of(suffix.as_str()) {
        Some(unit) => match n.checked_mul(unit) {
            Some(total) => Ok(total),
            None => Err(with_quoted("byte size overflow: ", raw)),
        },
        None => {
            let mut m: String = "unknown byte size suffix ".to_owned();
            m.append(text::quote(suffix.as_str()).as_str());
            m.append(" in ");
            m.append(text::quote(raw).as_str());
            Err(m)
        },
    }
}

/// A byte count that was given as an integer.
pub fn byte_count(v: i64) -> (r: Result<u64, String>)
    ensures
        match r {
            Ok(n) => v >= 0 && n == v,
            Err(m) => v < 0 && m@ == "byte size cannot be negative"@,
        },
{
    if v < 0 {
        Err("byte size cannot be negative".to_owned())
    } else {
        Ok(v as u64)
    }
}

pub open spec fn no_underscore() -> spec_fn(char) -> bool {
    |c: char| c != '_'
}

/// The number of a byte size is that of its digits: underscores are skipped, wherever
/// they stand.
pub proof fn law_underscores_are_skipped(s: Seq<char>)
    requires
        forall|i: int| 0 <= i < s.len() ==> size_char(#[trigger] s[i]),
    ensures
        digits_value(s) == text::natural(s.filter(no_underscore())),
    decreases s.len(),
{
    reveal(Seq::filter);
    let f = no_underscore();
    if s.len() > 0 {
        assert forall|i: int| 0 <= i < s.drop_last().len() implies size_char(
            #[trigger] s.drop_last()[i],
        ) by {
            assert(s.drop_last()[i] == s[i]);
        }
        assert(size_char(s[s.len() - 1]));
        law_underscores_are_skipped(s.drop_last());
        let rest = s.drop_last().filter(f);
        if s.last() != '_' {
            assert(f(s.last()));
            assert(s.filter(f) == rest.push(s.last()));
            assert(rest.push(s.last()).drop_last() =~= rest);
        } else {
            assert(!f(s.last()));
            assert(s.filter(f) == rest);
        }
    } else {
        assert(s.filter(f) =~= Seq::empty());
    }
}

/// Whether a text is a suffix, in either case, and how many times 1024 it stands for
/// is the power.
pub open spec fn is_suffix(suffix: Seq<char>, power: nat) -> bool {
    let s = text::lowered(suffix);
    ||| power == 0 && (s == ""@ || s == "b"@)
    ||| power == 1 && (s == "k"@ || s == "kb"@ || s == "kib"@)
    ||| power == 2 && (s == "m"@ || s == "mb"@ || s == "mib"@)
    ||| power == 3 && (s == "g"@ || s == "gb"@ || s == "gib"@)
    ||| power == 4 && (s == "t"@ || s == "tb"@ || s == "tib"@)
}

/// `1024^n`.
pub open spec fn kilo(n: nat) -> nat
    decreases n,
{
    if n == 0 {
        1
    } else {
        1024 * kilo((n - 1) as nat)
    }
}

/// Digits, with underscores among them or without, and a suffix, with white space
/// between them and around them or without, are so many times a power of 1024, if
/// 64 bits hold that, and refused otherwise.
pub proof fn law_byte_sizes(raw: Seq<char>, digits: Seq<char>, suffix: Seq<char>, power: nat)
    requires
        forall|i: int| 0 <= i < digits.len() ==> size_char(#[trigger] digits[i]),
        exists|i: int| 0 <= i < digits.len() && #[trigger] digits[i] != '_',
        is_suffix(suffix, power),
        text::trimmed(raw).len() >= digits.len(),
        text::trimmed(raw).take(digits.len() as int) == digits,
        text::trimmed(text::trimmed(raw).skip(digits.len() as int)) == suffix,
        text::trimmed(raw).len() > digits.len() ==> !size_char(
            text::trimmed(raw)[digits.len() as int],
        ),
    ensures
        ({
            let n = text::natural(digits.filter(no_underscore()));
            &&& n * kilo(power) <= u64::MAX ==> byte_size(raw) == Ok::<u64, Seq<char>>(
                (n * kilo(power)) as u64,
            )
            &&& n * kilo(power) > u64::MAX ==> byte_size(raw) is Err
        }),
{
    let s = text::trimmed(raw);
    let k = digits.len() as int;
    assert forall|i: int| 0 <= i < k implies size_char(#[trigger] s[i]) by {
        assert(s.take(k)[i] == s[i]);
        assert(size_char(digits[i]));
    }
    lemma_size_prefix(s, k);
    let j = choose|i: int| 0 <= i < digits.len() && #[trigger] digits[i] != '_';
    assert(digits[j] != '_');
    assert(has_digit(digits));
    law_underscores_are_skipped(digits);
    let n = text::natural(digits.filter(no_underscore()));
    reveal_with_fuel(kilo, 6);
    assert(kilo(power) == 1 || kilo(power) == 0x400 || kilo(power) == 0x10_0000 || kilo(power)
        == 0x4000_0000 || kilo(power) == 0x100_0000_0000);
    lemma_suffix_unit(suffix, power);
    assert(n > u64::MAX ==> n * kilo(power) > u64::MAX) by (nonlinear_arith)
        requires
            kilo(power) >= 1,
    ;
}

proof fn lemma_suffix_unit(suffix: Seq<char>, power: nat)
    requires
        is_suffix(suffix, power),
    ensures
        size_unit(text::lowered(suffix)) matches Some(u) && u == kilo(power),
{
    reveal_with_fuel(kilo, 6);
    reveal_strlit("");
    reveal_strlit("b");
    reveal_strlit("k");
    reveal_strlit("kb");
    reveal_strlit("kib");
    reveal_strlit("m");
    reveal_strlit("mb");
    reveal_strlit("mib");
    reveal_strlit("g");
    reveal_strlit("gb");
    reveal_strlit("gib");
    reveal_strlit("t");
    reveal_strlit("tb");
    reveal_strlit("tib");
    let s = text::lowered(suffix);
    if s.len() > 0 {
        assert(s[0] == s.first());
    }
}

/// What is read is digits, underscores among them, and a suffix; a text without a
/// digit in front, or with anything else behind, is refused.
pub proof fn law_which_byte_sizes_are_refused(raw: Seq<char>)
    ensures
        byte_size(raw) is Ok ==> exists|k: int, power: nat|
            0 < k <= text::trimmed(raw).len() && (forall|i: int|
                0 <= i < k ==> size_char(#[trigger] text::trimmed(raw)[i])) && #[trigger] is_suffix(
                text::trimmed(text::trimmed(raw).skip(k)),
                power,
            ),
{
    let s = text::trimmed(raw);
    let k = size_prefix(s) as int;
    lemma_prefix_chars(s);
    if byte_size(raw) is Ok {
        let suffix = text::trimmed(s.skip(k));
        let low = text::lowered(suffix);
        let power: nat = if low == ""@ || low == "b"@ {
            0
        } else if low == "k"@ || low == "kb"@ || low == "kib"@ {
            1
        } else if low == "m"@ || low == "mb"@ || low == "mib"@ {
            2
        } else if low == "g"@ || low == "gb"@ || low == "gib"@ {
            3
        } else {
            4
        };
        assert(is_suffix(suffix, power));
        assert(k > 0);
    }
}

proof fn lemma_prefix_chars(s: Seq<char>)
    ensures
        size_prefix(s) <= s.len(),
        forall|i: int| 0 <= i < size_prefix(s) ==> size_char(#[trigger] s[i]),
    decreases s.len(),
{
    if s.len() > 0 && size_char(s.first()) {
        let rest = s.drop_first();
        lemma_prefix_chars(rest);
        assert forall|i: int| 0 <= i < size_prefix(s) implies size_char(#[trigger] s[i]) by {
            if i > 0 {
                assert(rest[i - 1] == s[i]);
            }
        }
    }
}

} // verus!
