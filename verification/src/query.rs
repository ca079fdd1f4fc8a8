//! Queries, and what they are answered with.
use vstd::prelude::*;

use crate::float64::{Float64, INFINITE};
use crate::name_map::NameMap;

verus! {

#[derive(Debug, Clone, Copy, PartialEq, Eq, Hash, Structural)]
pub struct QueryId(pub u64);

/// A boolean filter. A row matches if it matches every clause.
#[derive(Debug, Clone)]
pub struct Query {
    pub must: Must,
    pub must_not: MustNot,
    /// Per column, ranges of which a row has to be in one.
    pub ranges: NameMap<Vec<RangeFilter>>,
}

/// Per column, values of which a row has to carry one.
#[derive(Debug, Clone)]
pub struct Must(pub NameMap<StringMatch>);

/// Per column, values of which a row may carry none.
#[derive(Debug, Clone)]
pub struct MustNot(pub NameMap<StringMatch>);

#[derive(Debug, Clone)]
pub struct StringMatch {
    pub values: Vec<String>,
}

#[derive(Debug, Clone, Copy)]
pub struct RangeFilter {
    pub lower: Option<NumericBound>,
    pub upper: Option<NumericBound>,
}

#[derive(Debug, Clone, Copy)]
pub struct NumericBound {
    pub value: Float64,
    pub comparison: Comparison,
}

#[derive(Debug, Clone, Copy, PartialEq, Eq, Structural)]
pub enum Comparison {
    Gt,
    Gte,
    Lt,
    Lte,
}

/// How the aggregates of a column are to be shown.
#[derive(Debug, Clone, Copy, PartialEq, Eq, Structural)]
pub enum ColumnKind {
    Numeric,
    DateTime,
}

#[derive(Debug, Clone)]
pub struct Response {
    pub matched_rows: u64,
    pub numeric: NameMap<NumericStats>,
    pub column_types: NameMap<ColumnKind>,
    pub string_counts: NameMap<NameMap<u64>>,
}

#[derive(Debug, Clone, Copy)]
pub struct NumericStats {
    pub count: u64,
    pub sum: Float64,
    pub min: Float64,
    pub max: Float64,
}

/// The pattern of negative infinity.
pub const NEGATIVE_INFINITE: u64 = 0xfff0_0000_0000_0000;

/// What a response holds.
#[verifier::ext_equal]
pub struct Answer {
    pub matched: nat,
    pub numeric: Map<Seq<char>, NumericStats>,
    pub kinds: Map<Seq<char>, ColumnKind>,
    /// Hits per column and value.
    pub hits: Map<Seq<char>, Map<Seq<char>, u64>>,
}

impl Default for Must {
    fn default() -> (r: Must)
        ensures
            r.0.wf(),
            r.0.keys().len() == 0,
    {
        Must(NameMap::new())
    }
}

impl Default for MustNot {
    fn default() -> (r: MustNot)
        ensures
            r.0.wf(),
            r.0.keys().len() == 0,
    {
        MustNot(NameMap::new())
    }
}

impl Query {
    pub open spec fn wf(self) -> bool {
        self.must.0.wf() && self.must_not.0.wf() && self.ranges.wf()
    }
}

impl RangeFilter {
    /// Whether a number is in the range. A bound that points the wrong way
    /// admits no number.
    pub open spec fn admits(self, v: Float64) -> bool {
        &&& self.lower matches Some(b) ==> match b.comparison {
            Comparison::Gt => b.value.below(v),
            Comparison::Gte => b.value.up_to(v),
            Comparison::Lt | Comparison::Lte => false,
        }
        &&& self.upper matches Some(b) ==> match b.comparison {
            Comparison::Lt => v.below(b.value),
            Comparison::Lte => v.up_to(b.value),
            Comparison::Gt | Comparison::Gte => false,
        }
    }
}

impl NumericStats {
    /// The aggregates of no value at all.
    pub open spec fn nothing() -> NumericStats {
        NumericStats {
            count: 0,
            sum: Float64 { bits: 0 },
            min: Float64 { bits: INFINITE },
            max: Float64 { bits: NEGATIVE_INFINITE },
        }
    }

    /// The aggregates with one value more.
    pub open spec fn observed(self, v: Float64) -> NumericStats {
        NumericStats {
            count: (self.count + 1) as u64,
            sum: crate::float64::sum(self.sum, v),
            min: if v.below(self.min) {
                v
            } else {
                self.min
            },
            max: if self.max.below(v) {
                v
            } else {
                self.max
            },
        }
    }

    /// The aggregates of the values of both.
    pub open spec fn merged(self, other: NumericStats) -> NumericStats {
        NumericStats {
            count: (self.count + other.count) as u64,
            sum: crate::float64::sum(self.sum, other.sum),
            min: if other.min.below(self.min) {
                other.min
            } else {
                self.min
            },
            max: if self.max.below(other.max) {
                other.max
            } else {
                self.max
            },
        }
    }

    pub fn empty() -> (r: NumericStats)
        ensures
            r == NumericStats::nothing(),
    {
        NumericStats {
            count: 0,
            sum: Float64 { bits: 0 },
            min: Float64 { bits: INFINITE },
            max: Float64 { bits: NEGATIVE_INFINITE },
        }
    }

    pub fn observe(&mut self, value: Float64)
        requires
            old(self).count < u64::MAX,
        ensures
            *final(self) == old(self).observed(value),
    {
        self.count += 1;
        self.sum = self.sum.plus(value);
        if value.less(self.min) {
            self.min = value;
        }
        if self.max.less(value) {
            self.max = value;
        }
    }

    pub fn merge(&mut self, other: &NumericStats)
        requires
            old(self).count + other.count <= u64::MAX,
        ensures
            *final(self) == old(self).merged(*other),
    {
        self.count += other.count;
        self.sum = self.sum.plus(other.sum);
        if other.min.less(self.min) {
            self.min = other.min;
        }
        if self.max.less(other.max) {
            self.max = other.max;
        }
    }
}

impl Default for NumericStats {
    fn default() -> (r: NumericStats)
        ensures
            r == NumericStats::nothing(),
    {
        NumericStats::empty()
    }
}

impl Response {
    pub open spec fn wf(self) -> bool {
        &&& self.numeric.wf()
        &&& self.column_types.wf()
        &&& self.string_counts.wf()
        &&& forall|k: Seq<char>|
            self.string_counts@.contains_key(k) ==> (#[trigger] self.string_counts@[k]).wf()
    }

    pub open spec fn view(&self) -> Answer {
        Answer {
            matched: self.matched_rows as nat,
            numeric: self.numeric@,
            kinds: self.column_types@,
            hits: Map::new(
                |k: Seq<char>| self.string_counts@.contains_key(k),
                |k: Seq<char>| self.string_counts@[k]@,
            ),
        }
    }
}

/// The hits of both, value by value.
pub open spec fn merged_hits(a: Map<Seq<char>, u64>, b: Map<Seq<char>, u64>) -> Map<
    Seq<char>,
    u64,
> {
    Map::new(
        |v: Seq<char>| a.contains_key(v) || b.contains_key(v),
        |v: Seq<char>|
            if !b.contains_key(v) {
                a[v]
            } else if !a.contains_key(v) {
                b[v]
            } else {
                (a[v] + b[v]) as u64
            },
    )
}

impl Answer {
    /// The answer over the rows of both, which have none in common.
    pub open spec fn merged(self, other: Answer) -> Answer {
        Answer {
            matched: self.matched + other.matched,
            numeric: Map::new(
                |n: Seq<char>| self.numeric.contains_key(n) || other.numeric.contains_key(n),
                |n: Seq<char>|
                    if !other.numeric.contains_key(n) {
                        self.numeric[n]
                    } else if !self.numeric.contains_key(n) {
                        other.numeric[n]
                    } else {
                        self.numeric[n].merged(other.numeric[n])
                    },
            ),
            kinds: self.kinds,
            hits: Map::new(
                |n: Seq<char>| self.hits.contains_key(n) || other.hits.contains_key(n),
                |n: Seq<char>|
                    if !other.hits.contains_key(n) {
                        self.hits[n]
                    } else if !self.hits.contains_key(n) {
                        other.hits[n]
                    } else {
                        merged_hits(self.hits[n], other.hits[n])
                    },
            ),
        }
    }

    /// No count in the answer is above a limit.
    pub open spec fn bounded(self, limit: int) -> bool {
        &&& self.matched <= limit
        &&& forall|n: Seq<char>| #[trigger]
            self.numeric.contains_key(n) ==> self.numeric[n].count <= limit
        &&& forall|n: Seq<char>, v: Seq<char>| #[trigger]
            self.hits[n].contains_key(v) && self.hits.contains_key(n) ==> self.hits[n][v] <= limit
    }

    /// Whether 64 bits hold what the counts of both add up to.
    pub open spec fn addable(self, other: Answer) -> bool {
        &&& self.matched + other.matched <= u64::MAX
        &&& forall|n: Seq<char>| #[trigger]
            self.numeric.contains_key(n) && other.numeric.contains_key(n) ==> self.numeric[n].count
                + other.numeric[n].count <= u64::MAX
        &&& forall|n: Seq<char>, v: Seq<char>|
            self.hits.contains_key(n) && other.hits.contains_key(n)
                && #[trigger] self.hits[n].contains_key(v) && other.hits[n].contains_key(v)
                ==> self.hits[n][v] + other.hits[n][v] <= u64::MAX
    }

    /// Counts within limits that 64 bits hold together add up.
    pub proof fn lemma_addable(self, other: Answer, x: int, y: int)
        requires
            self.bounded(x),
            other.bounded(y),
            x + y <= u64::MAX,
        ensures
            self.addable(other),
    {
        assert forall|n: Seq<char>, v: Seq<char>|
            self.hits.contains_key(n) && other.hits.contains_key(n)
                && #[trigger] self.hits[n].contains_key(v) && other.hits[n].contains_key(
                v,
            ) implies self.hits[n][v] + other.hits[n][v] <= u64::MAX by {
            assert(other.hits[n].contains_key(v) && other.hits.contains_key(n));
        }
    }

    /// Merging adds the limits up.
    pub proof fn lemma_merged_bounded(self, other: Answer, x: int, y: int)
        requires
            self.bounded(x),
            other.bounded(y),
            0 <= x,
            0 <= y,
            x + y <= u64::MAX,
        ensures
            self.merged(other).bounded(x + y),
    {
        let m = self.merged(other);
        assert forall|n: Seq<char>, v: Seq<char>| #[trigger]
            m.hits[n].contains_key(v) && m.hits.contains_key(n) implies m.hits[n][v] <= x + y by {
            if self.hits.contains_key(n) {
                let _ = self.hits[n].contains_key(v);
            }
            if other.hits.contains_key(n) {
                let _ = other.hits[n].contains_key(v);
            }
        }
    }

    /// The answer where nothing was asked of any row.
    pub open spec fn blank() -> Answer {
        Answer {
            matched: 0,
            numeric: Map::empty(),
            kinds: Map::empty(),
            hits: Map::empty(),
        }
    }
}

impl Default for Response {
    fn default() -> (r: Response)
        ensures
            r.wf(),
            r@ == Answer::blank(),
    {
        let r = Response {
            matched_rows: 0,
            numeric: NameMap::new(),
            column_types: NameMap::new(),
            string_counts: NameMap::new(),
        };
        assert(r@ =~= Answer::blank());
        r
    }
}

/// A range admits what lies between its bounds, whatever both of them are: above a
/// `Gt` bound, not below a `Gte` bound, below an `Lt` bound, not above an `Lte`
/// bound. Nothing lies on either side of what is not a number.
pub proof fn law_range_admits_what_lies_between(f: RangeFilter, v: Float64)
    requires
        f.lower matches Some(b) ==> b.comparison == Comparison::Gt || b.comparison
            == Comparison::Gte,
        f.upper matches Some(b) ==> b.comparison == Comparison::Lt || b.comparison
            == Comparison::Lte,
    ensures
        f.admits(v) <==> {
            &&& f.lower matches Some(b) ==> {
                &&& !v.nan() && !b.value.nan()
                &&& b.value.value() < v.value() || (b.comparison == Comparison::Gte
                    && b.value.value() == v.value())
            }
            &&& f.upper matches Some(b) ==> {
                &&& !v.nan() && !b.value.nan()
                &&& v.value() < b.value.value() || (b.comparison == Comparison::Lte
                    && b.value.value() == v.value())
            }
        },
{
}

/// A range with its ends has both of them in it, and nothing beyond; one without
/// its ends has neither.
pub proof fn law_ends_of_a_range(a: Float64, b: Float64, f: RangeFilter, v: Float64)
    requires
        !a.nan(),
        !b.nan(),
        a.value() <= b.value(),
        f.lower matches Some(x) && x.value == a,
        f.upper matches Some(x) && x.value == b,
    ensures
        f.lower->0.comparison == Comparison::Gte && f.upper->0.comparison == Comparison::Lte ==> {
            &&& f.admits(a)
            &&& f.admits(b)
            &&& !v.nan() && a.value() <= v.value() <= b.value() ==> f.admits(v)
        },
        f.lower->0.comparison == Comparison::Gt ==> !f.admits(a),
        f.upper->0.comparison == Comparison::Lt ==> !f.admits(b),
        v.nan() || v.value() < a.value() || v.value() > b.value() ==> !f.admits(v),
{
}

/// Observing a value counts it, adds it, and moves the least and the greatest
/// value where it lies beyond them; what is not a number moves neither.
pub proof fn law_observing_takes_the_value_in(s: NumericStats, v: Float64)
    requires
        s.count < u64::MAX,
        !s.min.nan(),
        !s.max.nan(),
    ensures
        ({
            let t = s.observed(v);
            &&& t.count == s.count + 1
            &&& t.sum == crate::float64::sum(s.sum, v)
            &&& !t.min.nan() && !t.max.nan()
            &&& v.nan() ==> t.min == s.min && t.max == s.max
            &&& !v.nan() ==> t.min.value() <= v.value() <= t.max.value()
            &&& t.min.value() <= s.min.value() && s.max.value() <= t.max.value()
            &&& t.min == s.min || t.min == v
            &&& t.max == s.max || t.max == v
        }),
{
}

/// Merging adds the counts and the sums, and keeps the lesser of the two least
/// values and the greater of the two greatest.
pub proof fn law_merging_takes_both_in(s: NumericStats, t: NumericStats)
    requires
        s.count + t.count <= u64::MAX,
        !s.min.nan() && !s.max.nan(),
        !t.min.nan() && !t.max.nan(),
    ensures
        ({
            let m = s.merged(t);
            &&& m.count == s.count + t.count
            &&& m.sum == crate::float64::sum(s.sum, t.sum)
            &&& m.min.value() <= s.min.value() && m.min.value() <= t.min.value()
            &&& m.max.value() >= s.max.value() && m.max.value() >= t.max.value()
            &&& m.min == s.min || m.min == t.min
            &&& m.max == s.max || m.max == t.max
        }),
{
}

/// Merging two answers adds the rows up, and of each column takes in what either of
/// them has of it: the sum of both, or the one that there is.
pub proof fn law_merging_answers(a: Answer, b: Answer, n: Seq<char>)
    ensures
        ({
            let m = a.merged(b);
            &&& m.matched == a.matched + b.matched
            &&& m.numeric.contains_key(n) <==> a.numeric.contains_key(n) || b.numeric.contains_key(n)
            &&& a.numeric.contains_key(n) && b.numeric.contains_key(n) ==> m.numeric[n].sum
                == crate::float64::sum(a.numeric[n].sum, b.numeric[n].sum)
            &&& a.numeric.contains_key(n) && !b.numeric.contains_key(n) ==> m.numeric[n]
                == a.numeric[n]
            &&& b.numeric.contains_key(n) && !a.numeric.contains_key(n) ==> m.numeric[n]
                == b.numeric[n]
        }),
{
}

} // verus!
