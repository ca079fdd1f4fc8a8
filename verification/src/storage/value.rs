//! Values as a source hands them over, and their coercion to column types.
use vstd::prelude::*;
use vstd::string::*;

use crate::clock;
use crate::config::ColumnType;
use crate::error::{AppError, AppResult, Fault};
use crate::float64;
use crate::float64::Float64;
use crate::numeral;
use crate::storage::column::Cell;
use crate::text;

verus! {

/// Untyped value straight out of the source. The store coerces it into the
/// column's native representation.
pub enum RawValue<'a> {
    Integer(i64),
    Float(Float64),
    Str(&'a str),
    Null,
}

/// A [`RawValue`] with its text as a sequence of characters.
pub enum Raw {
    Integer(i64),
    Float(Float64),
    Text(Seq<char>),
    Null,
}

impl Raw {
    /// The name of the kind of value.
    pub open spec fn kind_text(self) -> Seq<char> {
        match self {
            Raw::Integer(_) => "integer"@,
            Raw::Float(_) => "float"@,
            Raw::Text(_) => "string"@,
            Raw::Null => "null"@,
        }
    }

    /// Whether the value is missing: null, or a text of white space alone.
    pub open spec fn missing(self) -> bool {
        match self {
            Raw::Null => true,
            Raw::Text(s) => text::trimmed(s).len() == 0,
            _ => false,
        }
    }
}

/// What a row of values holds.
pub open spec fn raws(values: Seq<RawValue<'_>>) -> Seq<Raw> {
    Seq::new(values.len(), |i: int| values[i]@)
}

impl RawValue<'_> {
    pub open spec fn view(&self) -> Raw {
        match self {
            RawValue::Integer(i) => Raw::Integer(*i),
            RawValue::Float(f) => Raw::Float(*f),
            RawValue::Str(s) => Raw::Text(s@),
            RawValue::Null => Raw::Null,
        }
    }

    pub fn kind(&self) -> (r: &'static str)
        ensures
            r@ == self@.kind_text(),
    {
        match self {
            RawValue::Integer(_) => "integer",
            RawValue::Float(_) => "float",
            RawValue::Str(_) => "string",
            RawValue::Null => "null",
        }
    }

    pub fn is_missing(&self) -> (r: bool)
        ensures
            r == self@.missing(),
    {
        match self {
            RawValue::Null => true,
            RawValue::Str(s) => text::trim(s).is_empty(),
            _ => false,
        }
    }
}

/// What is said of a value of the wrong kind.
pub open spec fn kind_fault(name: Seq<char>, expected: Seq<char>, value: Raw) -> Fault {
    Fault::Ingestion(
        "column "@ + text::quoted(name) + ": expected "@ + expected + ", got "@ + value.kind_text(),
    )
}

/// What is said of a text that does not read as the column's type.
pub open spec fn text_fault(
    name: Seq<char>,
    expected: Seq<char>,
    s: Seq<char>,
    reason: Seq<char>,
) -> Fault {
    Fault::Ingestion(
        "column "@ + text::quoted(name) + ": expected "@ + expected + ", got "@ + text::quoted(s)
            + ": "@ + reason,
    )
}

/// What is said of a text that is not a number.
pub open spec fn number_fault(s: Seq<char>) -> Seq<char> {
    if s.len() == 0 {
        "cannot parse float from empty string"@
    } else {
        "invalid float literal"@
    }
}

/// The integer that an integer column stores for a value.
pub open spec fn integer_value(name: Seq<char>, value: Raw) -> Result<i64, Fault> {
    match value {
        Raw::Integer(i) => Ok(i),
        Raw::Float(f) => if float64::integral(f) {
            Ok(float64::int_part(f))
        } else {
            Err(kind_fault(name, "integer"@, value))
        },
        Raw::Text(s) => match text::integer_of(text::trimmed(s)) {
            Some(v) => if i64::MIN <= v <= i64::MAX {
                Ok(v as i64)
            } else {
                Err(text_fault(name, "integer"@, s, text::integer_fault(text::trimmed(s))))
            },
            None => Err(text_fault(name, "integer"@, s, text::integer_fault(text::trimmed(s)))),
        },
        Raw::Null => Err(kind_fault(name, "integer"@, value)),
    }
}

/// The number that a float column stores for a value.
pub open spec fn float_value(name: Seq<char>, value: Raw) -> Result<Float64, Fault> {
    match value {
        Raw::Float(f) => Ok(f),
        Raw::Integer(i) => Ok(float64::of_int(i)),
        Raw::Text(s) => match numeral::number_of(text::trimmed(s)) {
            Some(f) => Ok(f),
            None => Err(text_fault(name, "float"@, s, number_fault(text::trimmed(s)))),
        },
        Raw::Null => Err(kind_fault(name, "float"@, value)),
    }
}

/// The text that a string column stores for a value: the text as it stands.
pub open spec fn string_value(name: Seq<char>, value: Raw) -> Result<Seq<char>, Fault> {
    match value {
        Raw::Text(s) => Ok(s),
        _ => Err(kind_fault(name, "string"@, value)),
    }
}

/// The epoch second that a date-time column stores for a value.
pub open spec fn time_value(name: Seq<char>, value: Raw) -> Result<i64, Fault> {
    match value {
        Raw::Text(s) => match clock::rfc3339_second(text::trimmed(s)) {
            Ok(t) => Ok(t),
            Err(m) => Err(text_fault(name, "RFC3339 date-time"@, s, m)),
        },
        Raw::Integer(i) => Ok(i),
        _ => Err(kind_fault(name, "date-time"@, value)),
    }
}

/// The cell that a value becomes in a column.
pub open spec fn cell_of(kind: ColumnType, name: Seq<char>, value: Raw) -> Result<
    Cell,
    Fault,
> {
    if value.missing() {
        Ok(Cell::Null)
    } else {
        match kind {
            ColumnType::Integer => match integer_value(name, value) {
                Ok(i) => Ok(Cell::Integer(i)),
                Err(e) => Err(e),
            },
            ColumnType::Float => match float_value(name, value) {
                Ok(f) => Ok(Cell::Float(f)),
                Err(e) => Err(e),
            },
            ColumnType::String => match string_value(name, value) {
                Ok(t) => Ok(Cell::Text(t)),
                Err(e) => Err(e),
            },
            ColumnType::DateTime => match time_value(name, value) {
                Ok(t) => Ok(Cell::DateTime(t)),
                Err(e) => Err(e),
            },
        }
    }
}

fn wrong_kind(name: &str, expected: &str, value: &RawValue<'_>) -> (r: AppError)
    ensures
        r@ == kind_fault(name@, expected@, value@),
{
    let mut m: String = "column ".to_owned();
    m.append(text::quote(name).as_str());
    m.append(": expected ");
    m.append(expected);
    m.append(", got ");
    m.append(value.kind());
    AppError::Ingestion(m)
}

fn wrong_text(name: &str, expected: &str, s: &str, reason: &str) -> (r: AppError)
    ensures
        r@ == text_fault(name@, expected@, s@, reason@),
{
    let mut m: String = "column ".to_owned();
    m.append(text::quote(name).as_str());
    m.append(": expected ");
    m.append(expected);
    m.append(", got ");
    m.append(text::quote(s).as_str());
    m.append(": ");
    m.append(reason);
    AppError::Ingestion(m)
}

pub fn coerce_integer(name: &str, value: &RawValue<'_>) -> (r: AppResult<i64>)
    ensures
        crate::error::outcome(r) == integer_value(name@, value@),
{
    match value {
        RawValue::Integer(i) => Ok(*i),
        RawValue::Float(f) => if f.is_integral() {
            Ok(f.to_int())
        } else {
            Err(wrong_kind(name, "integer", value))
        },
        RawValue::Str(s) => match text::parse_integer(text::trim(s)) {
            Ok(i) => Ok(i),
            Err(reason) => Err(wrong_text(name, "integer", s, reason.as_str())),
        },
        RawValue::Null => Err(wrong_kind(name, "integer", value)),
    }
}

pub fn coerce_float(name: &str, value: &RawValue<'_>) -> (r: AppResult<Float64>)
    ensures
        crate::error::outcome(r) == float_value(name@, value@),
{
    match value {
        RawValue::Float(f) => Ok(*f),
        RawValue::Integer(i) => Ok(Float64::from_int(*i)),
        RawValue::Str(s) => {
            let t: &str = text::trim(s);
            match numeral::read_number(t) {
                Some(f) => Ok(f),
                None => if t.is_empty() {
                    Err(wrong_text(name, "float", s, "cannot parse float from empty string"))
                } else {
                    Err(wrong_text(name, "float", s, "invalid float literal"))
                },
            }
        },
        RawValue::Null => Err(wrong_kind(name, "float", value)),
    }
}

pub fn coerce_str<'a>(name: &str, value: &'a RawValue<'_>) -> (r: AppResult<&'a str>)
    ensures
        match r {
            Ok(s) => string_value(name@, value@) == Ok::<Seq<char>, Fault>(s@),
            Err(e) => string_value(name@, value@) == Err::<Seq<char>, Fault>(e@),
        },
{
    match value {
        RawValue::Str(s) => Ok(s),
        _ => Err(wrong_kind(name, "string", value)),
    }
}

pub fn coerce_datetime(name: &str, value: &RawValue<'_>) -> (r: AppResult<i64>)
    ensures
        crate::error::outcome(r) == time_value(name@, value@),
{
    match value {
        RawValue::Str(s) => match clock::parse_rfc3339(text::trim(s)) {
            Ok(t) => Ok(t),
            Err(reason) => Err(wrong_text(name, "RFC3339 date-time", s, reason.as_str())),
        },
        RawValue::Integer(i) => Ok(*i),
        _ => Err(wrong_kind(name, "date-time", value)),
    }
}

/// Whether a value can be stored in a column of a type.
pub(crate) fn check_value(kind: ColumnType, name: &str, value: &RawValue<'_>) -> (r: AppResult<()>)
    ensures
        match cell_of(kind, name@, value@) {
            Ok(_) => r is Ok,
            Err(fault) => r matches Err(e) && e@ == fault,
        },
{
    if value.is_missing() {
        return Ok(());
    }
    match kind {
        ColumnType::Integer => match coerce_integer(name, value) {
            Ok(_) => Ok(()),
            Err(e) => Err(e),
        },
        ColumnType::Float => match coerce_float(name, value) {
            Ok(_) => Ok(()),
            Err(e) => Err(e),
        },
        ColumnType::String => match coerce_str(name, value) {
            Ok(_) => Ok(()),
            Err(e) => Err(e),
        },
        ColumnType::DateTime => match coerce_datetime(name, value) {
            Ok(_) => Ok(()),
            Err(e) => Err(e),
        },
    }
}

/// Whether a number is the one nearest to an integer: no number is nearer, and an
/// integer of at most 53 binary places is met exactly.
pub open spec fn nearest_to(f: Float64, i: i64) -> bool {
    &&& f.finite()
    &&& -0x20_0000_0000_0000 <= i <= 0x20_0000_0000_0000 ==> f.value() == i * float64::one()
    &&& forall|y: Float64|
        !(#[trigger] y.nan()) ==> float64::apart(f.value(), i * float64::one())
            <= float64::apart(y.value(), i * float64::one())
}

/// An integer offered to a float column becomes the number nearest to it, and is
/// never refused; the same integer as a text, with white space around it or not,
/// becomes the same cell. Numbers are stored as they are.
pub proof fn law_float_columns(name: Seq<char>, i: i64, f: Float64, s: Seq<char>)
    ensures
        cell_of(ColumnType::Float, name, Raw::Integer(i)) matches Ok(Cell::Float(x)) && nearest_to(
            x,
            i,
        ),
        cell_of(ColumnType::Float, name, Raw::Float(f)) == Ok::<Cell, Fault>(Cell::Float(f)),
        text::integer_of(text::trimmed(s)) == Some(i as int) && (i != 0 || !text::signed(
            text::trimmed(s),
        ).0) ==> cell_of(ColumnType::Float, name, Raw::Text(s)) == cell_of(
            ColumnType::Float,
            name,
            Raw::Integer(i),
        ),
        text::trimmed(s).len() > 0 ==> match numeral::number_of(text::trimmed(s)) {
            Some(x) => cell_of(ColumnType::Float, name, Raw::Text(s)) == Ok::<Cell, Fault>(
                Cell::Float(x),
            ),
            None => cell_of(ColumnType::Float, name, Raw::Text(s)) is Err,
        },
{
    let x = float64::of_int(i);
    float64::law_integer_becomes_the_nearest(i, Float64 { bits: 0 });
    assert forall|y: Float64| !(#[trigger] y.nan()) implies float64::apart(
        x.value(),
        i * float64::one(),
    ) <= float64::apart(y.value(), i * float64::one()) by {
        float64::law_integer_becomes_the_nearest(i, y);
    }
    if -0x20_0000_0000_0000 <= i <= 0x20_0000_0000_0000 {
        float64::law_small_integers_are_exact(i);
    }
    let t = text::trimmed(s);
    if text::integer_of(t) == Some(i as int) && (i != 0 || !text::signed(t).0) {
        numeral::law_integers_are_read_as_numbers(t, i);
    }
}

/// An integer offered to an integer column is stored as it is. A number is taken
/// exactly if it is finite and has no fractional part, as the integer that it is,
/// or as the outermost one that 64 bits hold. A text is taken exactly if, without
/// the white space around it, it writes down an integer that 64 bits hold.
pub proof fn law_integer_columns(name: Seq<char>, i: i64, f: Float64, s: Seq<char>)
    ensures
        cell_of(ColumnType::Integer, name, Raw::Integer(i)) == Ok::<Cell, Fault>(Cell::Integer(i)),
        cell_of(ColumnType::Integer, name, Raw::Float(f)) is Ok <==> f.finite() && exists|j: int|
            f.value() == #[trigger] (j * float64::one()),
        f.finite() && f.value() == i * float64::one() ==> cell_of(
            ColumnType::Integer,
            name,
            Raw::Float(f),
        ) == Ok::<Cell, Fault>(Cell::Integer(i)),
        cell_of(ColumnType::Integer, name, Raw::Float(f)) is Ok && f.value() > i64::MAX
            * float64::one() ==> cell_of(ColumnType::Integer, name, Raw::Float(f)) == Ok::<
            Cell,
            Fault,
        >(Cell::Integer(i64::MAX)),
        cell_of(ColumnType::Integer, name, Raw::Float(f)) is Ok && f.value() < i64::MIN
            * float64::one() ==> cell_of(ColumnType::Integer, name, Raw::Float(f)) == Ok::<
            Cell,
            Fault,
        >(Cell::Integer(i64::MIN)),
        text::trimmed(s).len() > 0 ==> (cell_of(ColumnType::Integer, name, Raw::Text(s)) == Ok::<
            Cell,
            Fault,
        >(Cell::Integer(i)) <==> text::integer_of(text::trimmed(s)) == Some(i as int)),
        text::trimmed(s).len() > 0 ==> (cell_of(ColumnType::Integer, name, Raw::Text(s)) is Ok
            <==> (text::integer_of(text::trimmed(s)) matches Some(v) && i64::MIN <= v <= i64::MAX)),
{
    let one = float64::one();
    vstd::arithmetic::power2::lemma_pow2_pos(1074);
    float64::law_integral_means_whole(f, i as int);
    if float64::integral(f) {
        float64::law_integer_part_cuts_towards_zero(f);
        let j = choose|j: int| f.value() == #[trigger] (j * one);
        float64::law_integral_means_whole(f, j);
        let p = float64::int_part(f);
        assert(f.value() == i * one ==> j == i) by (nonlinear_arith)
            requires
                f.value() == j * one,
                one > 0,
        ;
        assert((p * one <= j * one < (p + 1) * one || (p - 1) * one < j * one <= p * one) ==> p
            == j) by (nonlinear_arith)
            requires
                one > 0,
        ;
        let top = i64::MAX as int;
        let low = i64::MIN as int;
        assert((j * one > top * one ==> j * one >= (top + 1) * one) && (j * one < (top + 1) * one
            ==> j <= top) && (j * one > low * one ==> j > low) && (j <= top ==> j * one < (top + 1)
            * one) && (j > low ==> j * one > low * one) && (j < low ==> j * one < low * one) && (j
            == low ==> j * one == low * one)) by (nonlinear_arith)
            requires
                one > 0,
        ;
    } else {
        assert forall|j: int| f.finite() implies f.value() != #[trigger] (j * one) by {
            float64::law_integral_means_whole(f, j);
        }
    }
}

/// A text offered to a string column is stored as it is, white space and all,
/// unless there is nothing else in it; nothing but a text is taken.
pub proof fn law_string_columns(name: Seq<char>, v: Raw)
    ensures
        cell_of(ColumnType::String, name, v) is Ok <==> v is Null || v is Text,
        v matches Raw::Text(s) ==> cell_of(ColumnType::String, name, v) == Ok::<Cell, Fault>(
            if text::trimmed(s).len() == 0 {
                Cell::Null
            } else {
                Cell::Text(s)
            },
        ),
{
}

/// An integer offered to a date-time column is the epoch second itself; a text is
/// the second that it names as an RFC 3339 date-time, without the white space
/// around it; nothing else is taken.
pub proof fn law_time_columns(name: Seq<char>, i: i64, f: Float64, s: Seq<char>)
    ensures
        cell_of(ColumnType::DateTime, name, Raw::Integer(i)) == Ok::<Cell, Fault>(
            Cell::DateTime(i),
        ),
        cell_of(ColumnType::DateTime, name, Raw::Float(f)) is Err,
        text::trimmed(s).len() > 0 ==> (cell_of(ColumnType::DateTime, name, Raw::Text(s)) == Ok::<
            Cell,
            Fault,
        >(Cell::DateTime(i)) <==> clock::rfc3339_second(text::trimmed(s)) == Ok::<i64, Seq<char>>(
            i,
        )),
        text::trimmed(s).len() > 0 ==> (cell_of(ColumnType::DateTime, name, Raw::Text(s)) is Ok
            <==> clock::rfc3339_second(text::trimmed(s)) is Ok),
{
}

/// Null, and a text of nothing but white space, leave a cell of any column empty,
/// and nothing else does. What is refused is refused as an error of ingestion.
pub proof fn law_empty_cells(kind: ColumnType, name: Seq<char>, v: Raw)
    ensures
        cell_of(kind, name, v) == Ok::<Cell, Fault>(Cell::Null) <==> match v {
            Raw::Null => true,
            Raw::Text(s) => forall|k: int| 0 <= k < s.len() ==> text::white_space(#[trigger] s[k]),
            _ => false,
        },
        cell_of(kind, name, v) matches Err(f) ==> f is Ingestion,
{
    if let Raw::Text(s) = v {
        text::lemma_trimmed_to_nothing(s);
    }
}

/// An integer offered to a float column is never refused, and becomes the number
/// nearest to it.
pub proof fn law_integers_become_numbers(name: &str, i: i64, r: AppResult<Float64>)
    requires
        call_ensures(coerce_float, (name, &RawValue::Integer(i)), r),
    ensures
        r matches Ok(f) && nearest_to(f, i),
{
    law_float_columns(name@, i, Float64 { bits: 0 }, Seq::empty());
}

} // verus!
