//! Requests and responses as plain data, and their conversion to and from
//! queries and answers.
use vstd::prelude::*;
use vstd::string::*;

use crate::clock;
use crate::config::ColumnType;
use crate::error::AppError;
use crate::execution::matching;
use crate::execution::meaning;
use crate::float64;
use crate::float64::Float64;
use crate::metrics::StatusSnapshot;
use crate::name_map::NameMap;
use crate::query::{
    ColumnKind, Comparison, Must, MustNot, NumericBound, NumericStats, Query, RangeFilter, Response,
    StringMatch,
};
use crate::storage::column::Cell;
use crate::storage::table::Table;
use crate::text;

verus! {

/// Query request body.
pub struct QueryRequest {
    /// An inclusion filter. For a given column, the row must match at least one
    /// of the values. Multiple columns are intersected.
    pub must: NameMap<Vec<String>>,
    /// An exclusion filter. A row is dropped if it matches any of the values
    /// across any of the columns.
    pub must_not: NameMap<Vec<String>>,
    /// Numeric or temporal boundary scans.
    pub ranges: NameMap<RangeOrList>,
}

pub struct RangeDto {
    pub eq: Option<BoundValue>,
    pub gt: Option<BoundValue>,
    pub gte: Option<BoundValue>,
    pub lt: Option<BoundValue>,
    pub lte: Option<BoundValue>,
}

/// Either a single range or several for the same column, of which a row has to be
/// in one.
pub enum RangeOrList {
    One(RangeDto),
    Many(Vec<RangeDto>),
}

/// A bound: a number, or an RFC 3339 date-time, which stands for its UTC epoch
/// second.
pub enum BoundValue {
    Number(Float64),
    DateTime(String),
}

/// Query response body.
pub struct QueryResponse {
    /// How many rows match the filter.
    pub matched_rows: u64,
    /// Aggregates per column.
    pub numeric: NameMap<ColumnStatsDto>,
    /// Hits per column and value.
    pub string_counts: NameMap<NameMap<u64>>,
}

pub struct ColumnStatsDto {
    /// How many of the matched rows have a value in this column.
    pub count: u64,
    /// For numeric columns only.
    pub sum: Option<Float64>,
    /// For numeric columns only.
    pub min: Option<Float64>,
    /// For numeric columns only.
    pub max: Option<Float64>,
    /// For date-time columns only: the earliest matched row.
    pub oldest: Option<TimeText>,
    /// For date-time columns only: the latest matched row.
    pub newest: Option<TimeText>,
}

/// How a moment is shown.
pub enum TimeText {
    /// As an RFC 3339 text.
    Text(String),
    /// As the epoch second itself, beyond the reach of the calendar.
    Epoch(Float64),
}

/// Response body of the status endpoint.
pub struct StatusResponse {
    /// Seconds since the process started.
    pub uptime_secs: u64,
    /// Number of rows loaded into the store.
    pub rows_loaded: u64,
    pub queries: WindowCounts,
    pub errors: WindowCounts,
}

pub struct WindowCounts {
    pub last_1m: u64,
    pub last_1h: u64,
    pub last_24h: u64,
}

/// Error response body.
pub struct ErrorResponse {
    pub error: String,
}

impl ErrorResponse {
    pub fn new(message: String) -> (r: ErrorResponse)
        ensures
            r.error == message,
    {
        ErrorResponse { error: message }
    }
}

/// The number that a bound stands for, or why it stands for none.
pub open spec fn bound_number(b: BoundValue) -> Result<Float64, Seq<char>> {
    match b {
        BoundValue::Number(n) => Ok(n),
        BoundValue::DateTime(s) => match clock::rfc3339_second(text::trimmed(s@)) {
            Ok(t) => Ok(float64::of_int(t)),
            Err(m) => Err(
                "invalid RFC3339 date-time "@ + text::quoted(s@) + ": "@ + m,
            ),
        },
    }
}

impl BoundValue {
    /// The number that a bound stands for.
    pub fn to_number(&self) -> (r: Result<Float64, String>)
        ensures
            match bound_number(*self) {
                Ok(n) => r == Ok::<Float64, String>(n),
                Err(m) => r matches Err(e) && e@ == m,
            },
    {
        match self {
            BoundValue::Number(n) => Ok(*n),
            BoundValue::DateTime(s) => match clock::parse_rfc3339(text::trim(s.as_str())) {
                Ok(t) => Ok(Float64::from_int(t)),
                Err(reason) => {
                    let mut m: String = "invalid RFC3339 date-time ".to_owned();
                    m.append(text::quote(s.as_str()).as_str());
                    m.append(": ");
                    m.append(reason.as_str());
                    Err(m)
                },
            },
        }
    }
}

/// The bound of a filter, if one is given: the first of the two that is there.
pub open spec fn one_bound(
    first: Option<BoundValue>,
    first_as: Comparison,
    second: Option<BoundValue>,
    second_as: Comparison,
) -> Result<Option<NumericBound>, Seq<char>> {
    match first {
        Some(b) => match bound_number(b) {
            Ok(value) => Ok(Some(NumericBound { value, comparison: first_as })),
            Err(m) => Err(m),
        },
        None => match second {
            Some(b) => match bound_number(b) {
                Ok(value) => Ok(Some(NumericBound { value, comparison: second_as })),
                Err(m) => Err(m),
            },
            None => Ok(None),
        },
    }
}

/// The filter that a range asks for. `eq` stands alone; of `gte` and `gt` the
/// first counts, and so of `lte` and `lt`.
pub open spec fn range_filter(r: RangeDto) -> Result<RangeFilter, Seq<char>> {
    match r.eq {
        Some(b) => match bound_number(b) {
            Ok(value) => Ok(
                RangeFilter {
                    lower: Some(NumericBound { value, comparison: Comparison::Gte }),
                    upper: Some(NumericBound { value, comparison: Comparison::Lte }),
                },
            ),
            Err(m) => Err(m),
        },
        None => match one_bound(r.gte, Comparison::Gte, r.gt, Comparison::Gt) {
            Err(m) => Err(m),
            Ok(lower) => match one_bound(r.lte, Comparison::Lte, r.lt, Comparison::Lt) {
                Err(m) => Err(m),
                Ok(upper) => Ok(RangeFilter { lower, upper }),
            },
        },
    }
}

fn pick_bound(
    first: &Option<BoundValue>,
    first_as: Comparison,
    second: &Option<BoundValue>,
    second_as: Comparison,
) -> (r: Result<Option<NumericBound>, String>)
    ensures
        match one_bound(*first, first_as, *second, second_as) {
            Ok(b) => r == Ok::<Option<NumericBound>, String>(b),
            Err(m) => r matches Err(e) && e@ == m,
        },
{
    match first {
        Some(b) => match b.to_number() {
            Ok(value) => Ok(Some(NumericBound { value, comparison: first_as })),
            Err(m) => Err(m),
        },
        None => match second {
            Some(b) => match b.to_number() {
                Ok(value) => Ok(Some(NumericBound { value, comparison: second_as })),
                Err(m) => Err(m),
            },
            None => Ok(None),
        },
    }
}

impl RangeFilter {
    pub fn try_from(r: &RangeDto) -> (f: Result<RangeFilter, String>)
        ensures
            match range_filter(*r) {
                Ok(x) => f == Ok::<RangeFilter, String>(x),
                Err(m) => f matches Err(e) && e@ == m,
            },
    {
        if let Some(v) = &r.eq {
            return match v.to_number() {
                Ok(value) => Ok(
                    RangeFilter {
                        lower: Some(NumericBound { value, comparison: Comparison::Gte }),
                        upper: Some(NumericBound { value, comparison: Comparison::Lte }),
                    },
                ),
                Err(m) => Err(m),
            };
        }
        let lower = match pick_bound(&r.gte, Comparison::Gte, &r.gt, Comparison::Gt) {
            Ok(b) => b,
            Err(m) => return Err(m),
        };
        let upper = match pick_bound(&r.lte, Comparison::Lte, &r.lt, Comparison::Lt) {
            Ok(b) => b,
            Err(m) => return Err(m),
        };
        Ok(RangeFilter { lower, upper })
    }
}

/// The filters that some ranges ask for, or why the first of them that asks for
/// none does not.
pub open spec fn range_filters(s: Seq<RangeDto>) -> Result<Seq<RangeFilter>, Seq<char>>
    decreases s.len(),
{
    if s.len() == 0 {
        Ok(Seq::empty())
    } else {
        match range_filters(s.drop_last()) {
            Err(m) => Err(m),
            Ok(done) => match range_filter(s.last()) {
                Err(m) => Err(m),
                Ok(f) => Ok(done.push(f)),
            },
        }
    }
}

/// The filters that the ranges of a column ask for.
pub open spec fn column_filters(r: RangeOrList) -> Result<Seq<RangeFilter>, Seq<char>> {
    match r {
        RangeOrList::One(dto) => match range_filter(dto) {
            Ok(f) => Ok(seq![f]),
            Err(m) => Err(m),
        },
        RangeOrList::Many(dtos) => range_filters(dtos@),
    }
}

/// What is wrong with the ranges of the first columns, if anything is: the first
/// fault counts.
pub open spec fn ranges_fault(s: Seq<RangeOrList>) -> Option<Seq<char>>
    decreases s.len(),
{
    if s.len() == 0 {
        None
    } else {
        match ranges_fault(s.drop_last()) {
            Some(m) => Some(m),
            None => match column_filters(s.last()) {
                Err(m) => Some(m),
                Ok(_) => None,
            },
        }
    }
}

proof fn lemma_range_filters(s: Seq<RangeDto>, k: int)
    requires
        0 <= k <= s.len(),
        range_filters(s.take(k)) is Err,
    ensures
        range_filters(s) == range_filters(s.take(k)),
    decreases s.len(),
{
    if k < s.len() {
        assert(s.drop_last().take(k) =~= s.take(k));
        lemma_range_filters(s.drop_last(), k);
    } else {
        assert(s.take(k) =~= s);
    }
}

proof fn lemma_ranges_fault(s: Seq<RangeOrList>, k: int)
    requires
        0 <= k <= s.len(),
        ranges_fault(s.take(k)) is Some,
    ensures
        ranges_fault(s) == ranges_fault(s.take(k)),
    decreases s.len(),
{
    if k < s.len() {
        assert(s.drop_last().take(k) =~= s.take(k));
        lemma_ranges_fault(s.drop_last(), k);
    } else {
        assert(s.take(k) =~= s);
    }
}

fn filters_of(r: &RangeOrList) -> (f: Result<Vec<RangeFilter>, String>)
    ensures
        match column_filters(*r) {
            Ok(x) => f matches Ok(v) && v@ == x,
            Err(m) => f matches Err(e) && e@ == m,
        },
{
    match r {
        RangeOrList::One(dto) => match RangeFilter::try_from(dto) {
            Ok(f) => {
                let mut v: Vec<RangeFilter> = Vec::new();
                v.push(f);
                assert(v@ =~= seq![f]);
                Ok(v)
            },
            Err(m) => Err(m),
        },
        RangeOrList::Many(dtos) => {
            let mut v: Vec<RangeFilter> = Vec::new();
            let mut i: usize = 0;
            assert(dtos@.take(0) =~= Seq::empty());
            while i < dtos.len()
                invariant
                    i <= dtos@.len(),
                    range_filters(dtos@.take(i as int)) == Ok::<Seq<RangeFilter>, Seq<char>>(v@),
                    column_filters(*r) == range_filters(dtos@),
                decreases dtos@.len() - i,
            {
                assert(dtos@.take(i + 1).drop_last() =~= dtos@.take(i as int));
                match RangeFilter::try_from(&dtos[i]) {
                    Ok(f) => v.push(f),
                    Err(m) => {
                        proof {
                            lemma_range_filters(dtos@, i + 1);
                        }
                        return Err(m);
                    },
                }
                i += 1;
            }
            assert(dtos@.take(i as int) =~= dtos@);
            Ok(v)
        },
    }
}

/// Whether a clause of a query holds the values of a clause of a request.
pub open spec fn same_clause(m: NameMap<StringMatch>, req: NameMap<Vec<String>>) -> bool {
    &&& m.wf()
    &&& m.keys() == req.keys()
    &&& forall|i: int|
        0 <= i < m.vals().len() ==> (#[trigger] m.vals()[i]).values == req.vals()[i]
}

fn clause_of(req: NameMap<Vec<String>>) -> (r: NameMap<StringMatch>)
    requires
        req.wf(),
    ensures
        same_clause(r, req),
{
    let ghost keys = req.keys();
    let ghost vals = req.vals();
    let (names, mut values) = req.into_parts();
    let mut back: Vec<Vec<String>> = Vec::new();
    while values.len() > 0
        invariant
            values@.len() + back@.len() == vals.len(),
            values@ == vals.take(values@.len() as int),
            forall|i: int| 0 <= i < back@.len() ==> #[trigger] back@[i] == vals[vals.len() - 1 - i],
        decreases values@.len(),
    {
        let ghost before = values@;
        if let Some(v) = values.pop() {
            assert(v == before[before.len() - 1]);
            back.push(v);
            assert(values@ =~= vals.take(values@.len() as int));
        }
    }
    let mut matches: Vec<StringMatch> = Vec::new();
    while back.len() > 0
        invariant
            matches@.len() + back@.len() == vals.len(),
            forall|i: int| 0 <= i < back@.len() ==> #[trigger] back@[i] == vals[vals.len() - 1 - i],
            forall|i: int| 0 <= i < matches@.len() ==> (#[trigger] matches@[i]).values == vals[i],
        decreases back@.len(),
    {
        if let Some(values) = back.pop() {
            matches.push(StringMatch { values });
        }
    }
    NameMap::from_sorted(names, matches)
}

/// The query that a request asks for.
pub open spec fn asked(req: QueryRequest, q: Query) -> bool {
    &&& q.wf()
    &&& same_clause(q.must.0, req.must)
    &&& same_clause(q.must_not.0, req.must_not)
    &&& q.ranges.keys() == req.ranges.keys()
    &&& forall|i: int|
        0 <= i < q.ranges.vals().len() ==> column_filters(req.ranges.vals()[i]) == Ok::<
            Seq<RangeFilter>,
            Seq<char>,
        >((#[trigger] q.ranges.vals()[i])@)
}

impl Query {
    pub fn try_from(req: QueryRequest) -> (r: Result<Query, String>)
        requires
            req.must.wf(),
            req.must_not.wf(),
            req.ranges.wf(),
        ensures
            match ranges_fault(req.ranges.vals()) {
                None => r matches Ok(q) && asked(req, q),
                Some(m) => r matches Err(e) && e@ == m,
            },
    {
        let ghost vals = req.ranges.vals();
        let ghost req0 = req;
        let must = Must(clause_of(req.must));
        let must_not = MustNot(clause_of(req.must_not));
        let (names, values) = req.ranges.into_parts();
        let mut filters: Vec<Vec<RangeFilter>> = Vec::new();
        let mut i: usize = 0;
        assert(vals.take(0) =~= Seq::empty());
        while i < values.len()
            invariant
                values@ == vals,
                i <= vals.len(),
                filters@.len() == i,
                ranges_fault(vals.take(i as int)) is None,
                req == req0,
                req0.ranges.vals() == vals,
                forall|k: int|
                    0 <= k < i ==> column_filters(vals[k]) == Ok::<Seq<RangeFilter>, Seq<char>>(
                        (#[trigger] filters@[k])@,
                    ),
            decreases vals.len() - i,
        {
            assert(vals.take(i + 1).drop_last() =~= vals.take(i as int));
            match filters_of(&values[i]) {
                Ok(f) => filters.push(f),
                Err(m) => {
                    proof {
                        lemma_ranges_fault(vals, i + 1);
                    }
                    return Err(m);
                },
            }
            i += 1;
        }
        assert(vals.take(i as int) =~= vals);
        Ok(Query { must, must_not, ranges: NameMap::from_sorted(names, filters) })
    }
}

/// A [`TimeText`] with its text as a sequence of characters.
pub enum Moment {
    Text(Seq<char>),
    Epoch(Float64),
}

impl TimeText {
    pub open spec fn view(&self) -> Moment {
        match self {
            TimeText::Text(s) => Moment::Text(s@),
            TimeText::Epoch(f) => Moment::Epoch(*f),
        }
    }
}

/// How an epoch second is shown.
pub open spec fn moment(epoch_secs: Float64) -> Moment {
    match clock::utc_text(float64::int_part(epoch_secs)) {
        Some(s) => Moment::Text(s),
        None => Moment::Epoch(epoch_secs),
    }
}

pub fn epoch_to_rfc3339(epoch_secs: Float64) -> (r: TimeText)
    ensures
        r@ == moment(epoch_secs),
{
    match clock::format_utc(epoch_secs.to_int()) {
        Some(s) => TimeText::Text(s),
        None => TimeText::Epoch(epoch_secs),
    }
}

/// Whether `dto` shows the aggregates of a column: for numbers the sum and, where
/// there is a value, the ends; for date-times, where there is one, the ends as
/// moments.
pub open spec fn shows(dto: ColumnStatsDto, kind: ColumnKind, s: NumericStats) -> bool {
    &&& dto.count == s.count
    &&& match kind {
        ColumnKind::DateTime => {
            &&& dto.sum is None
            &&& dto.min is None
            &&& dto.max is None
            &&& if s.count > 0 {
                &&& dto.oldest matches Some(t) && t@ == moment(s.min)
                &&& dto.newest matches Some(t) && t@ == moment(s.max)
            } else {
                dto.oldest is None && dto.newest is None
            }
        },
        ColumnKind::Numeric => {
            &&& dto.sum == Some(s.sum)
            &&& dto.min == if s.count > 0 {
                Some(s.min)
            } else {
                None
            }
            &&& dto.max == if s.count > 0 {
                Some(s.max)
            } else {
                None
            }
            &&& dto.oldest is None
            &&& dto.newest is None
        },
    }
}

/// The aggregates of a column as they are shown.
pub fn stats_dto(kind: ColumnKind, stats: &NumericStats) -> (dto: ColumnStatsDto)
    ensures
        shows(dto, kind, *stats),
{
    let some: bool = stats.count > 0;
    match kind {
        ColumnKind::DateTime => ColumnStatsDto {
            count: stats.count,
            sum: None,
            min: None,
            max: None,
            oldest: if some {
                Some(epoch_to_rfc3339(stats.min))
            } else {
                None
            },
            newest: if some {
                Some(epoch_to_rfc3339(stats.max))
            } else {
                None
            },
        },
        ColumnKind::Numeric => ColumnStatsDto {
            count: stats.count,
            sum: Some(stats.sum),
            min: if some {
                Some(stats.min)
            } else {
                None
            },
            max: if some {
                Some(stats.max)
            } else {
                None
            },
            oldest: None,
            newest: None,
        },
    }
}

impl QueryResponse {
    pub fn from(r: Response) -> (q: QueryResponse)
        requires
            r.wf(),
        ensures
            q.matched_rows == r.matched_rows,
            q.string_counts == r.string_counts,
            q.numeric.wf(),
            q.numeric.keys() == r.numeric.keys(),
            forall|i: int|
                0 <= i < q.numeric.keys().len() ==> shows(
                    #[trigger] q.numeric.vals()[i],
                    if r.column_types@.contains_key(r.numeric.keys()[i]) {
                        r.column_types@[r.numeric.keys()[i]]
                    } else {
                        ColumnKind::Numeric
                    },
                    r.numeric.vals()[i],
                ),
    {
        let ghost keys = r.numeric.keys();
        let ghost stats = r.numeric.vals();
        let ghost types = r.column_types@;
        let (names, values) = r.numeric.into_parts();
        let mut dtos: Vec<ColumnStatsDto> = Vec::new();
        let mut i: usize = 0;
        while i < values.len()
            invariant
                keys == text::texts(names@),
                stats == values@,
                names@.len() == values@.len(),
                r.column_types.wf(),
                types == r.column_types@,
                i <= values@.len(),
                dtos@.len() == i,
                forall|k: int|
                    0 <= k < i ==> shows(
                        #[trigger] dtos@[k],
                        if types.contains_key(keys[k]) {
                            types[keys[k]]
                        } else {
                            ColumnKind::Numeric
                        },
                        stats[k],
                    ),
            decreases values@.len() - i,
        {
            assert(text::texts(names@)[i as int] == names@[i as int]@);
            let kind: ColumnKind = match r.column_types.get(names[i].as_str()) {
                Some(k) => *k,
                None => ColumnKind::Numeric,
            };
            dtos.push(stats_dto(kind, &values[i]));
            i += 1;
        }
        QueryResponse {
            matched_rows: r.matched_rows,
            numeric: NameMap::from_sorted(names, dtos),
            string_counts: r.string_counts,
        }
    }
}

impl StatusResponse {
    /// The status as clients see it.
    pub fn from(s: &StatusSnapshot) -> (r: StatusResponse)
        ensures
            r.uptime_secs == s.uptime_secs,
            r.rows_loaded == s.rows_loaded,
            r.queries.last_1m == s.queries_1m,
            r.queries.last_1h == s.queries_1h,
            r.queries.last_24h == s.queries_24h,
            r.errors.last_1m == s.errors_1m,
            r.errors.last_1h == s.errors_1h,
            r.errors.last_24h == s.errors_24h,
    {
        StatusResponse {
            uptime_secs: s.uptime_secs,
            rows_loaded: s.rows_loaded,
            queries: WindowCounts {
                last_1m: s.queries_1m,
                last_1h: s.queries_1h,
                last_24h: s.queries_24h,
            },
            errors: WindowCounts {
                last_1m: s.errors_1m,
                last_1h: s.errors_1h,
                last_24h: s.errors_24h,
            },
        }
    }
}

/// The HTTP status of a query that failed: the client's fault if the query is
/// wrong, the server's otherwise.
pub fn error_status(e: &AppError) -> (r: u16)
    ensures
        r == if e is Query {
            400
        } else {
            500u16
        },
{
    match e {
        AppError::Query(_) => 400,
        _ => 500,
    }
}

/// Why a request body was not taken.
pub enum BodyFault {
    /// It is not JSON.
    Syntax,
    /// It is not declared as JSON.
    ContentType,
    /// It is JSON of another shape, or could not be read.
    Other,
}

/// The HTTP status of a request whose body was not taken.
pub fn rejection_status(fault: BodyFault) -> (r: u16)
    ensures
        r == match fault {
            BodyFault::Syntax => 400u16,
            BodyFault::ContentType => 415,
            BodyFault::Other => 422,
        },
{
    match fault {
        BodyFault::Syntax => 400,
        BodyFault::ContentType => 415,
        BodyFault::Other => 422,
    }
}

/// A range that asks for one number admits that number and no other, and no
/// not-a-number.
pub proof fn law_eq_means_equal(r: RangeDto, f: RangeFilter, v: Float64)
    requires
        r.eq is Some,
        range_filter(r) == Ok::<RangeFilter, Seq<char>>(f),
    ensures
        ({
            let wanted = bound_number(r.eq->0)->Ok_0;
            f.admits(v) <==> !v.nan() && !wanted.nan() && v.value() == wanted.value()
        }),
{
}

/// Whether a bound stands for a number: its own, or the one nearest to the epoch
/// second that its text names.
pub open spec fn stands_for(b: BoundValue, x: Float64) -> bool {
    match b {
        BoundValue::Number(n) => x == n,
        BoundValue::DateTime(s) => clock::rfc3339_second(text::trimmed(s@)) matches Ok(t) && x
            == float64::of_int(t),
    }
}

/// Whether a number meets a range of a request, by exact values: it equals `eq` if
/// that is given; else it is not below `gte`, or above `gt` if there is no `gte`,
/// and not above `lte`, or below `lt` if there is no `lte`.
pub open spec fn meets(v: Float64, r: RangeDto) -> bool {
    if r.eq is Some {
        exists|x: Float64| #[trigger]
            stands_for(r.eq->0, x) && !x.nan() && !v.nan() && v.value() == x.value()
    } else {
        &&& r.gte is Some ==> exists|x: Float64| #[trigger]
            stands_for(r.gte->0, x) && !x.nan() && !v.nan() && x.value() <= v.value()
        &&& r.gte is None && r.gt is Some ==> exists|x: Float64| #[trigger]
            stands_for(r.gt->0, x) && !x.nan() && !v.nan() && x.value() < v.value()
        &&& r.lte is Some ==> exists|x: Float64| #[trigger]
            stands_for(r.lte->0, x) && !x.nan() && !v.nan() && v.value() <= x.value()
        &&& r.lte is None && r.lt is Some ==> exists|x: Float64| #[trigger]
            stands_for(r.lt->0, x) && !x.nan() && !v.nan() && v.value() < x.value()
    }
}

/// The filter of a range admits exactly the numbers that meet the range, whatever
/// bounds it has.
pub proof fn law_range_means_its_bounds(r: RangeDto, f: RangeFilter, v: Float64)
    requires
        range_filter(r) == Ok::<RangeFilter, Seq<char>>(f),
    ensures
        f.admits(v) <==> meets(v, r),
        f.lower matches Some(b) ==> b.comparison == Comparison::Gt || b.comparison
            == Comparison::Gte,
        f.upper matches Some(b) ==> b.comparison == Comparison::Lt || b.comparison
            == Comparison::Lte,
{
    crate::query::law_range_admits_what_lies_between(f, v);
    if r.eq is Some {
        let x = bound_number(r.eq->0)->Ok_0;
        assert(stands_for(r.eq->0, x));
    } else {
        if r.gte is Some {
            assert(stands_for(r.gte->0, f.lower->0.value));
        } else if r.gt is Some {
            assert(stands_for(r.gt->0, f.lower->0.value));
        }
        if r.lte is Some {
            assert(stands_for(r.lte->0, f.upper->0.value));
        } else if r.lt is Some {
            assert(stands_for(r.lt->0, f.upper->0.value));
        }
    }
}

/// A range with both ends in it, `{gte: a, lte: b}`, has both of them in it and all
/// that lies between; `{gt: a, lt: b}` has all that lies between, and neither end.
pub proof fn law_both_ends(a: Float64, b: Float64, v: Float64)
    requires
        !a.nan(),
        !b.nan(),
        !v.nan(),
        a.value() <= b.value(),
    ensures
        ({
            let x = BoundValue::Number(a);
            let y = BoundValue::Number(b);
            let closed = range_filter(
                (RangeDto { eq: None, gt: None, gte: Some(x), lt: None, lte: Some(y) }),
            );
            let open_ = range_filter(
                (RangeDto { eq: None, gt: Some(x), gte: None, lt: Some(y), lte: None }),
            );
            &&& closed matches Ok(f) && f.admits(a) && f.admits(b) && (f.admits(v) <==> a.value()
                <= v.value() <= b.value())
            &&& open_ matches Ok(f) && !f.admits(a) && !f.admits(b) && (f.admits(v) <==> a.value()
                < v.value() < b.value())
        }),
{
}

/// Whether a bound that is given is a text that names no moment.
pub open spec fn unreadable(b: Option<BoundValue>) -> bool {
    b matches Some(BoundValue::DateTime(s)) && clock::rfc3339_second(text::trimmed(s@)) is Err
}

/// A range is refused exactly if a bound that counts is a text that names no moment.
pub proof fn law_which_ranges_are_refused(r: RangeDto)
    ensures
        range_filter(r) is Err <==> if r.eq is Some {
            unreadable(r.eq)
        } else {
            unreadable(r.gte) || (r.gte is None && unreadable(r.gt)) || unreadable(r.lte) || (r.lte
                is None && unreadable(r.lt))
        },
{
}

/// The ranges that a request has for a column.
pub open spec fn ranges_asked(r: RangeOrList) -> Seq<RangeDto> {
    match r {
        RangeOrList::One(dto) => seq![dto],
        RangeOrList::Many(dtos) => dtos@,
    }
}

proof fn lemma_each_filter(s: Seq<RangeDto>, i: int)
    requires
        range_filters(s) is Ok,
    ensures
        range_filters(s)->Ok_0.len() == s.len(),
        0 <= i < s.len() ==> range_filter(s[i]) == Ok::<RangeFilter, Seq<char>>(
            range_filters(s)->Ok_0[i],
        ),
    decreases s.len(),
{
    if s.len() > 0 {
        lemma_each_filter(s.drop_last(), i);
    }
}

proof fn lemma_each_column_filter(r: RangeOrList, i: int)
    requires
        column_filters(r) is Ok,
    ensures
        column_filters(r)->Ok_0.len() == ranges_asked(r).len(),
        0 <= i < ranges_asked(r).len() ==> range_filter(ranges_asked(r)[i]) == Ok::<
            RangeFilter,
            Seq<char>,
        >(column_filters(r)->Ok_0[i]),
{
    if let RangeOrList::Many(dtos) = r {
        lemma_each_filter(dtos@, i);
    }
}

/// What a request asks for: a row matches exactly if in every column of `must` it
/// carries one of the texts, in no column of `must_not` it carries one, and in every
/// column of `ranges` it has a number that meets one of the ranges.
pub proof fn law_what_a_request_asks_for(req: QueryRequest, q: Query, t: Table, r: int)
    requires
        req.must.wf(),
        req.must_not.wf(),
        req.ranges.wf(),
        asked(req, q),
        t.wf(),
        0 <= r < t.rows,
    ensures
        matching::matches(t, q, r) <==> {
            &&& forall|n: Seq<char>| #[trigger]
                req.must@.contains_key(n) ==> exists|c: int, i: int|
                    0 <= c < t.names.len() && t.names[c] == n && 0 <= i < req.must@[n]@.len()
                        && #[trigger] t.cells[c][r] == Cell::Text(#[trigger] req.must@[n]@[i]@)
            &&& forall|n: Seq<char>, c: int, i: int|
                req.must_not@.contains_key(n) && 0 <= c < t.names.len() && t.names[c] == n && 0 <= i
                    < req.must_not@[n]@.len() ==> #[trigger] t.cells[c][r] != Cell::Text(
                    #[trigger] req.must_not@[n]@[i]@,
                )
            &&& forall|n: Seq<char>| #[trigger]
                req.ranges@.contains_key(n) ==> exists|c: int, i: int, v: Float64|
                    0 <= c < t.names.len() && t.names[c] == n && 0 <= i < ranges_asked(
                        req.ranges@[n],
                    ).len() && #[trigger] meaning::stands_in(v, t.cells[c][r]) && #[trigger] meets(
                        v,
                        ranges_asked(req.ranges@[n])[i],
                    )
        },
{
    assert forall|n: Seq<char>| #[trigger] q.must.0@.contains_key(n) == req.must@.contains_key(
        n,
    ) by {}
    assert forall|n: Seq<char>| #[trigger] q.must_not.0@.contains_key(n)
        == req.must_not@.contains_key(n) by {}
    assert forall|n: Seq<char>| #[trigger] q.ranges@.contains_key(n) == req.ranges@.contains_key(
        n,
    ) by {}
    assert forall|n: Seq<char>| req.must@.contains_key(n) implies (#[trigger] q.must.0@[n]).values
        == req.must@[n] by {
        let i = req.must.keys().index_of(n);
        assert(q.must.0.vals()[i].values == req.must.vals()[i]);
    }
    assert forall|n: Seq<char>| req.must_not@.contains_key(n) implies (
    #[trigger] q.must_not.0@[n]).values == req.must_not@[n] by {
        let i = req.must_not.keys().index_of(n);
        assert(q.must_not.0.vals()[i].values == req.must_not.vals()[i]);
    }
    assert forall|n: Seq<char>| req.ranges@.contains_key(n) implies column_filters(req.ranges@[n])
        == Ok::<Seq<RangeFilter>, Seq<char>>((#[trigger] q.ranges@[n])@) by {
        let i = req.ranges.keys().index_of(n);
        assert(column_filters(req.ranges.vals()[i]) == Ok::<Seq<RangeFilter>, Seq<char>>(
            q.ranges.vals()[i]@,
        ));
    }
    assert(meaning::bounds_point_inward(q)) by {
        assert forall|n: Seq<char>, i: int|
            q.ranges@.contains_key(n) && 0 <= i < q.ranges@[n]@.len() implies {
            let f = #[trigger] q.ranges@[n]@[i];
            &&& f.lower matches Some(b) ==> b.comparison == Comparison::Gt || b.comparison
                == Comparison::Gte
            &&& f.upper matches Some(b) ==> b.comparison == Comparison::Lt || b.comparison
                == Comparison::Lte
        } by {
            lemma_each_column_filter(req.ranges@[n], i);
            law_range_means_its_bounds(
                ranges_asked(req.ranges@[n])[i],
                q.ranges@[n]@[i],
                Float64 { bits: 0 },
            );
        }
    }
    meaning::law_which_rows_match(t, q, r);
    assert forall|n: Seq<char>, i: int, v: Float64|
        req.ranges@.contains_key(n) && 0 <= i < ranges_asked(req.ranges@[n]).len() implies (
    #[trigger] meets(v, ranges_asked(req.ranges@[n])[i]) <==> meaning::lies_between(
        v,
        q.ranges@[n]@[i],
    )) && q.ranges@[n]@.len() == ranges_asked(req.ranges@[n]).len() by {
        lemma_each_column_filter(req.ranges@[n], i);
        law_range_means_its_bounds(ranges_asked(req.ranges@[n])[i], q.ranges@[n]@[i], v);
        crate::query::law_range_admits_what_lies_between(q.ranges@[n]@[i], v);
    }
    assert forall|n: Seq<char>| req.ranges@.contains_key(n) implies (#[trigger] q.ranges@[n])@.len()
        == ranges_asked(req.ranges@[n]).len() by {
        assert(column_filters(req.ranges@[n]) == Ok::<Seq<RangeFilter>, Seq<char>>(
            q.ranges@[n]@,
        ));
        lemma_each_column_filter(req.ranges@[n], 0);
    }
    if matching::matches(t, q, r) {
        assert forall|n: Seq<char>| #[trigger] req.must@.contains_key(n) implies exists|
            c: int,
            i: int,
        |
            0 <= c < t.names.len() && t.names[c] == n && 0 <= i < req.must@[n]@.len()
                && #[trigger] t.cells[c][r] == Cell::Text(#[trigger] req.must@[n]@[i]@) by {
            assert(q.must.0@.contains_key(n));
            let (c, i) = choose|c: int, i: int|
                0 <= c < t.names.len() && t.names[c] == n && 0 <= i < q.must.0@[n].values@.len()
                    && #[trigger] t.cells[c][r] == Cell::Text(
                    #[trigger] q.must.0@[n].values@[i]@,
                );
            assert(t.cells[c][r] == Cell::Text(req.must@[n]@[i]@));
        }
        assert forall|n: Seq<char>, c: int, i: int|
            req.must_not@.contains_key(n) && 0 <= c < t.names.len() && t.names[c] == n && 0 <= i
                < req.must_not@[n]@.len() implies #[trigger] t.cells[c][r] != Cell::Text(
            #[trigger] req.must_not@[n]@[i]@,
        ) by {
            assert(q.must_not.0@.contains_key(n));
            assert(q.must_not.0@[n].values@[i] == req.must_not@[n]@[i]);
        }
        assert forall|n: Seq<char>| #[trigger] req.ranges@.contains_key(n) implies exists|
            c: int,
            i: int,
            v: Float64,
        |
            0 <= c < t.names.len() && t.names[c] == n && 0 <= i < ranges_asked(
                req.ranges@[n],
            ).len() && #[trigger] meaning::stands_in(v, t.cells[c][r]) && #[trigger] meets(
                v,
                ranges_asked(req.ranges@[n])[i],
            ) by {
            assert(q.ranges@.contains_key(n));
            let (c, i, v) = choose|c: int, i: int, v: Float64|
                0 <= c < t.names.len() && t.names[c] == n && 0 <= i < q.ranges@[n]@.len()
                    && #[trigger] meaning::stands_in(v, t.cells[c][r])
                    && #[trigger] meaning::lies_between(v, q.ranges@[n]@[i]);
            assert(q.ranges@[n]@.len() == ranges_asked(req.ranges@[n]).len());
            assert(meaning::stands_in(v, t.cells[c][r]));
            assert(meets(v, ranges_asked(req.ranges@[n])[i]));
        }
    } else {
        lemma_no_match_asked(req, q, t, r);
    }
}

/// A row that does not match fails one of the clauses of the request.
proof fn lemma_no_match_asked(req: QueryRequest, q: Query, t: Table, r: int)
    requires
        req.must.wf(),
        req.must_not.wf(),
        req.ranges.wf(),
        asked(req, q),
        t.wf(),
        0 <= r < t.rows,
        meaning::bounds_point_inward(q),
        !matching::matches(t, q, r),
        forall|n: Seq<char>| req.ranges@.contains_key(n) ==> (#[trigger] q.ranges@[n])@.len()
            == ranges_asked(req.ranges@[n]).len(),
        forall|n: Seq<char>, i: int, v: Float64|
            req.ranges@.contains_key(n) && 0 <= i < ranges_asked(req.ranges@[n]).len() ==> (
            #[trigger] meets(v, ranges_asked(req.ranges@[n])[i]) <==> meaning::lies_between(
                v,
                q.ranges@[n]@[i],
            )),
        forall|n: Seq<char>|
            req.must@.contains_key(n) ==> (#[trigger] q.must.0@[n]).values == req.must@[n],
        forall|n: Seq<char>|
            req.must_not@.contains_key(n) ==> (#[trigger] q.must_not.0@[n]).values
                == req.must_not@[n],
    ensures
        !{
            &&& forall|n: Seq<char>| #[trigger]
                req.must@.contains_key(n) ==> exists|c: int, i: int|
                    0 <= c < t.names.len() && t.names[c] == n && 0 <= i < req.must@[n]@.len()
                        && #[trigger] t.cells[c][r] == Cell::Text(#[trigger] req.must@[n]@[i]@)
            &&& forall|n: Seq<char>, c: int, i: int|
                req.must_not@.contains_key(n) && 0 <= c < t.names.len() && t.names[c] == n && 0 <= i
                    < req.must_not@[n]@.len() ==> #[trigger] t.cells[c][r] != Cell::Text(
                    #[trigger] req.must_not@[n]@[i]@,
                )
            &&& forall|n: Seq<char>| #[trigger]
                req.ranges@.contains_key(n) ==> exists|c: int, i: int, v: Float64|
                    0 <= c < t.names.len() && t.names[c] == n && 0 <= i < ranges_asked(
                        req.ranges@[n],
                    ).len() && #[trigger] meaning::stands_in(v, t.cells[c][r]) && #[trigger] meets(
                        v,
                        ranges_asked(req.ranges@[n])[i],
                    )
        },
{
    meaning::law_which_rows_match(t, q, r);
    if (forall|n: Seq<char>| #[trigger]
        req.must@.contains_key(n) ==> exists|c: int, i: int|
            0 <= c < t.names.len() && t.names[c] == n && 0 <= i < req.must@[n]@.len()
                && #[trigger] t.cells[c][r] == Cell::Text(#[trigger] req.must@[n]@[i]@)) && (forall|
        n: Seq<char>,
        c: int,
        i: int,
    |
        req.must_not@.contains_key(n) && 0 <= c < t.names.len() && t.names[c] == n && 0 <= i
            < req.must_not@[n]@.len() ==> #[trigger] t.cells[c][r] != Cell::Text(
            #[trigger] req.must_not@[n]@[i]@,
        )) && (forall|n: Seq<char>| #[trigger]
        req.ranges@.contains_key(n) ==> exists|c: int, i: int, v: Float64|
            0 <= c < t.names.len() && t.names[c] == n && 0 <= i < ranges_asked(
                req.ranges@[n],
            ).len() && #[trigger] meaning::stands_in(v, t.cells[c][r]) && #[trigger] meets(
                v,
                ranges_asked(req.ranges@[n])[i],
            )) {
        assert forall|n: Seq<char>| #[trigger] q.must.0@.contains_key(n) implies exists|
            c: int,
            i: int,
        |
            0 <= c < t.names.len() && t.names[c] == n && 0 <= i < q.must.0@[n].values@.len()
                && #[trigger] t.cells[c][r] == Cell::Text(
                #[trigger] q.must.0@[n].values@[i]@,
            ) by {
            assert(req.must@.contains_key(n));
            let (c, i) = choose|c: int, i: int|
                0 <= c < t.names.len() && t.names[c] == n && 0 <= i < req.must@[n]@.len()
                    && #[trigger] t.cells[c][r] == Cell::Text(#[trigger] req.must@[n]@[i]@);
            assert(q.must.0@[n].values == req.must@[n]);
            assert(t.cells[c][r] == Cell::Text(q.must.0@[n].values@[i]@));
        }
        assert forall|n: Seq<char>, c: int, i: int|
            q.must_not.0@.contains_key(n) && 0 <= c < t.names.len() && t.names[c] == n && 0 <= i
                < q.must_not.0@[n].values@.len() implies #[trigger] t.cells[c][r] != Cell::Text(
            #[trigger] q.must_not.0@[n].values@[i]@,
        ) by {
            assert(req.must_not@.contains_key(n));
            assert(q.must_not.0@[n].values == req.must_not@[n]);
            assert(t.cells[c][r] != Cell::Text(req.must_not@[n]@[i]@));
        }
        assert forall|n: Seq<char>| #[trigger] q.ranges@.contains_key(n) implies exists|
            c: int,
            i: int,
            v: Float64,
        |
            0 <= c < t.names.len() && t.names[c] == n && 0 <= i < q.ranges@[n]@.len()
                && #[trigger] meaning::stands_in(v, t.cells[c][r])
                && #[trigger] meaning::lies_between(v, q.ranges@[n]@[i]) by {
            assert(req.ranges@.contains_key(n));
            let (c, i, v) = choose|c: int, i: int, v: Float64|
                0 <= c < t.names.len() && t.names[c] == n && 0 <= i < ranges_asked(
                    req.ranges@[n],
                ).len() && #[trigger] meaning::stands_in(v, t.cells[c][r]) && #[trigger] meets(
                    v,
                    ranges_asked(req.ranges@[n])[i],
                );
            assert(q.ranges@[n]@.len() == ranges_asked(req.ranges@[n]).len());
            assert(meaning::stands_in(v, t.cells[c][r]));
            assert(meaning::lies_between(v, q.ranges@[n]@[i]));
        }
        assert(false);
    }
}

/// What is shown of a column of points in time: the first and the last second that
/// the rows have in it, as the texts of those seconds.
pub proof fn law_oldest_and_newest(
    t: Table,
    rows: Set<u32>,
    counting: bool,
    c: int,
    dto: ColumnStatsDto,
    first: i64,
    last: i64,
)
    requires
        t.wf(),
        0 <= c < t.names.len(),
        t.kinds[c] == ColumnType::DateTime,
        shows(
            dto,
            ColumnKind::DateTime,
            matching::report(t, rows, counting).numeric[t.names[c]],
        ),
        forall|r: int|
            0 <= r < t.rows && rows.contains(r as u32) ==> (#[trigger] t.cells[c][r] matches Cell::DateTime(
                s,
            ) ==> -0x20_0000_0000_0000 <= s <= 0x20_0000_0000_0000 && first <= s <= last),
        exists|r: int|
            0 <= r < t.rows && rows.contains(r as u32) && #[trigger] t.cells[c][r]
                == Cell::DateTime(first),
        exists|r: int|
            0 <= r < t.rows && rows.contains(r as u32) && #[trigger] t.cells[c][r]
                == Cell::DateTime(last),
    ensures
        clock::utc_text(first) matches Some(s) ==> (dto.oldest matches Some(x) && x@
            == Moment::Text(s)),
        clock::utc_text(last) matches Some(s) ==> (dto.newest matches Some(x) && x@
            == Moment::Text(s)),
        dto.oldest is Some && dto.newest is Some,
        dto.sum is None && dto.min is None && dto.max is None,
{
    let cells = t.cells[c];
    let n = t.rows as int;
    let numbers = meaning::numbers_in(cells, rows, n);
    let s = matching::report(t, rows, counting).numeric[t.names[c]];
    meaning::law_what_is_reported_of_a_column(t, rows, counting, c);
    let a = float64::of_int(first);
    let b = float64::of_int(last);
    let ra = choose|r: int|
        0 <= r < t.rows && rows.contains(r as u32) && #[trigger] t.cells[c][r] == Cell::DateTime(
            first,
        );
    let rb = choose|r: int|
        0 <= r < t.rows && rows.contains(r as u32) && #[trigger] t.cells[c][r] == Cell::DateTime(
            last,
        );
    assert(meaning::stands_in(a, cells[ra]));
    assert(meaning::stands_in(b, cells[rb]));
    meaning::lemma_numbers_in(cells, rows, n, a);
    meaning::lemma_numbers_in(cells, rows, n, b);
    float64::law_small_integers_are_exact(first);
    float64::law_small_integers_are_exact(last);
    let ka = numbers.index_of(a);
    let kb = numbers.index_of(b);
    assert(numbers[ka] == a && numbers[kb] == b);
    lemma_end(t, rows, c, s.min);
    lemma_end(t, rows, c, s.max);
    crate::execution::laws::lemma_infinite_is_extreme(a);
    crate::execution::laws::lemma_infinite_is_extreme(b);
    lemma_finite_is_inside(a);
    lemma_finite_is_inside(b);
    assert(numbers.contains(s.min));
    assert(numbers.contains(s.max));
    let x = choose|x: i64| first <= x <= last && s.min == float64::of_int(x) && s.min.value() == x
        * float64::one() && #[trigger] float64::int_part(float64::of_int(x)) == x;
    let y = choose|x: i64| first <= x <= last && s.max == float64::of_int(x) && s.max.value() == x
        * float64::one() && #[trigger] float64::int_part(float64::of_int(x)) == x;
    let one = float64::one();
    vstd::arithmetic::power2::lemma_pow2_pos(1074);
    assert(x == first && y == last) by (nonlinear_arith)
        requires
            x * one <= first * one,
            last * one <= y * one,
            first <= x,
            y <= last,
            one > 0,
    ;
}

/// A finite number is neither infinity.
proof fn lemma_finite_is_inside(a: Float64)
    requires
        a.finite(),
    ensures
        a.value() < (Float64 { bits: float64::INFINITE }).value(),
        (Float64 { bits: crate::query::NEGATIVE_INFINITE }).value() < a.value(),
{
    let top = float64::INFINITE as nat;
    float64::lemma_magnitude_order(a.low(), top);
    float64::lemma_magnitude_order(top, a.low());
    float64::lemma_magnitude_order(0, a.low());
    float64::lemma_magnitude_order(0, top);
}

/// A number of a column of points in time is one of its seconds.
proof fn lemma_end(t: Table, rows: Set<u32>, c: int, v: Float64)
    requires
        t.wf(),
        0 <= c < t.names.len(),
        t.kinds[c] == ColumnType::DateTime,
        forall|r: int|
            0 <= r < t.rows && rows.contains(r as u32) ==> (#[trigger] t.cells[c][r] matches Cell::DateTime(
                s,
            ) ==> -0x20_0000_0000_0000 <= s <= 0x20_0000_0000_0000),
    ensures
        meaning::numbers_in(t.cells[c], rows, t.rows as int).contains(v) ==> exists|x: i64, r: int|
            0 <= r < t.rows && rows.contains(r as u32) && #[trigger] t.cells[c][r]
                == Cell::DateTime(x) && v == float64::of_int(x) && v.value() == x * float64::one()
                && #[trigger] float64::int_part(float64::of_int(x)) == x,
{
    let cells = t.cells[c];
    if meaning::numbers_in(cells, rows, t.rows as int).contains(v) {
        meaning::lemma_numbers_in(cells, rows, t.rows as int, v);
        let r = choose|r: int|
            0 <= r < t.rows && rows.contains(r as u32) && #[trigger] meaning::stands_in(
                v,
                cells[r],
            );
        assert(crate::storage::table::fits(t.kinds[c], t.cells[c][r]));
        if let Cell::DateTime(x) = cells[r] {
            float64::law_small_integers_are_exact(x);
            assert(t.cells[c][r] == Cell::DateTime(x));
            assert(float64::int_part(float64::of_int(x)) == x);
        }
    }
}

/// What is shown of a column of numbers: how many the rows have in it, their sum
/// from the first row to the last, and, if there are any, the least and the greatest
/// of them.
pub proof fn law_sum_and_ends(
    t: Table,
    rows: Set<u32>,
    counting: bool,
    c: int,
    dto: ColumnStatsDto,
)
    requires
        t.wf(),
        0 <= c < t.names.len(),
        t.kinds[c] == ColumnType::Integer || t.kinds[c] == ColumnType::Float,
        shows(dto, ColumnKind::Numeric, matching::report(t, rows, counting).numeric[t.names[c]]),
    ensures
        ({
            let numbers = meaning::numbers_in(t.cells[c], rows, t.rows as int);
            &&& dto.count == numbers.len()
            &&& dto.sum == Some(meaning::added_up(numbers))
            &&& dto.min is Some <==> numbers.len() > 0
            &&& dto.max is Some <==> numbers.len() > 0
            &&& forall|k: int|
                0 <= k < numbers.len() && !(#[trigger] numbers[k]).nan() ==> dto.min->0.value()
                    <= numbers[k].value() <= dto.max->0.value()
            &&& dto.min matches Some(x) ==> numbers.contains(x) || x.bits == float64::INFINITE
            &&& dto.max matches Some(x) ==> numbers.contains(x) || x.bits
                == crate::query::NEGATIVE_INFINITE
            &&& dto.oldest is None && dto.newest is None
        }),
{
    meaning::law_what_is_reported_of_a_column(t, rows, counting, c);
}

/// Nothing is shown of the ends of a column where the rows have no value in it.
pub proof fn law_no_value_no_ends(
    t: Table,
    rows: Set<u32>,
    counting: bool,
    c: int,
    kind: ColumnKind,
    dto: ColumnStatsDto,
)
    requires
        t.wf(),
        0 <= c < t.names.len(),
        t.kinds[c] != ColumnType::String,
        shows(dto, kind, matching::report(t, rows, counting).numeric[t.names[c]]),
        forall|r: int|
            0 <= r < t.rows && rows.contains(r as u32) ==> #[trigger] t.cells[c][r] is Null,
    ensures
        dto.count == 0,
        dto.min is None && dto.max is None && dto.oldest is None && dto.newest is None,
        kind == ColumnKind::Numeric ==> dto.sum == Some(Float64 { bits: 0 }),
        kind == ColumnKind::DateTime ==> dto.sum is None,
{
    let numbers = meaning::numbers_in(t.cells[c], rows, t.rows as int);
    meaning::law_what_is_reported_of_a_column(t, rows, counting, c);
    if numbers.len() > 0 {
        let v = numbers[0];
        assert(numbers.contains(v));
        meaning::lemma_numbers_in(t.cells[c], rows, t.rows as int, v);
        let r = choose|r: int|
            0 <= r < t.rows && rows.contains(r as u32) && #[trigger] meaning::stands_in(
                v,
                t.cells[c][r],
            );
        assert(t.cells[c][r] is Null);
    } else {
        assert(numbers =~= Seq::empty());
    }
}

/// A request is refused exactly if one of its ranges is.
pub proof fn law_which_requests_are_refused(s: Seq<RangeOrList>)
    ensures
        ranges_fault(s) is None <==> forall|i: int, j: int|
            0 <= i < s.len() && 0 <= j < ranges_asked(s[i]).len() ==> range_filter(
                #[trigger] ranges_asked(s[i])[j],
            ) is Ok,
    decreases s.len(),
{
    if s.len() > 0 {
        let first = s.drop_last();
        let k = s.len() - 1;
        law_which_requests_are_refused(first);
        lemma_column_taken(s.last());
        if ranges_fault(s) is None {
            assert forall|i: int, j: int|
                0 <= i < s.len() && 0 <= j < ranges_asked(s[i]).len() implies range_filter(
                #[trigger] ranges_asked(s[i])[j],
            ) is Ok by {
                if i < k {
                    assert(first[i] == s[i]);
                }
            }
        } else if ranges_fault(first) is Some {
            let (i, j) = choose|i: int, j: int|
                0 <= i < first.len() && 0 <= j < ranges_asked(first[i]).len() && !(range_filter(
                    #[trigger] ranges_asked(first[i])[j],
                ) is Ok);
            assert(!(range_filter(ranges_asked(s[i])[j]) is Ok));
        } else {
            let j = choose|j: int|
                0 <= j < ranges_asked(s.last()).len() && !(range_filter(
                    #[trigger] ranges_asked(s.last())[j],
                ) is Ok);
            assert(!(range_filter(ranges_asked(s[k])[j]) is Ok));
        }
    }
}

proof fn lemma_column_taken(r: RangeOrList)
    ensures
        column_filters(r) is Ok <==> forall|j: int|
            0 <= j < ranges_asked(r).len() ==> range_filter(#[trigger] ranges_asked(r)[j]) is Ok,
{
    match r {
        RangeOrList::One(dto) => {
            assert(ranges_asked(r)[0] == dto);
        },
        RangeOrList::Many(dtos) => {
            lemma_filters_taken(dtos@);
        },
    }
}

proof fn lemma_filters_taken(s: Seq<RangeDto>)
    ensures
        range_filters(s) is Ok <==> forall|j: int|
            0 <= j < s.len() ==> range_filter(#[trigger] s[j]) is Ok,
    decreases s.len(),
{
    if s.len() > 0 {
        let first = s.drop_last();
        lemma_filters_taken(first);
        if range_filters(s) is Ok {
            assert forall|j: int| 0 <= j < s.len() implies range_filter(#[trigger] s[j]) is Ok by {
                if j < first.len() {
                    assert(first[j] == s[j]);
                }
            }
        } else if range_filters(first) is Err {
            let j = choose|j: int| 0 <= j < first.len() && !(range_filter(#[trigger] first[j]) is Ok);
            assert(!(range_filter(s[j]) is Ok));
        } else {
            assert(!(range_filter(s[s.len() - 1]) is Ok));
        }
    }
}

/// A failed query is the client's fault exactly if the query is wrong, and the server's
/// otherwise; a body that was not taken is always the client's.
pub proof fn law_whose_fault(e: AppError, fault: BodyFault, x: u16, y: u16)
    requires
        call_ensures(error_status, (&e,), x),
        call_ensures(rejection_status, (fault,), y),
    ensures
        400 <= x < 500 <==> e is Query,
        x == 400 || x == 500,
        400 <= y < 500,
        y == 400 <==> fault is Syntax,
        y == 415 <==> fault is ContentType,
        y == 422 <==> fault is Other,
{
}

/// The status that clients see has every number of the snapshot in its place.
pub proof fn law_status_is_the_snapshot(s: StatusSnapshot, r: StatusResponse)
    requires
        call_ensures(StatusResponse::from, (&s,), r),
    ensures
        s == (StatusSnapshot {
            uptime_secs: r.uptime_secs,
            rows_loaded: r.rows_loaded,
            queries_1m: r.queries.last_1m,
            queries_1h: r.queries.last_1h,
            queries_24h: r.queries.last_24h,
            errors_1m: r.errors.last_1m,
            errors_1h: r.errors.last_1h,
            errors_24h: r.errors.last_24h,
        }),
{
}

/// The response that clients see: the number of rows, the hits per value, and per
/// column what is shown of its aggregates, as points in time exactly if the column is
/// one of those.
pub proof fn law_response_shows_the_answer(r: Response, q: QueryResponse, n: Seq<char>)
    requires
        r.wf(),
        call_ensures(QueryResponse::from, (r,), q),
    ensures
        q.matched_rows == r.matched_rows,
        q.string_counts == r.string_counts,
        q.numeric@.contains_key(n) <==> r.numeric@.contains_key(n),
        q.numeric@.contains_key(n) ==> {
            let kind = if r.column_types@.contains_key(n) && r.column_types@[n]
                == ColumnKind::DateTime {
                ColumnKind::DateTime
            } else {
                ColumnKind::Numeric
            };
            shows(q.numeric@[n], kind, r.numeric@[n])
        },
{
    if q.numeric@.contains_key(n) {
        let i = q.numeric.keys().index_of(n);
        assert(shows(
            q.numeric.vals()[i],
            if r.column_types@.contains_key(r.numeric.keys()[i]) {
                r.column_types@[r.numeric.keys()[i]]
            } else {
                ColumnKind::Numeric
            },
            r.numeric.vals()[i],
        ));
    }
}

} // verus!
