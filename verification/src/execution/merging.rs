//! What holds of partial results that are merged, whatever they report and in
//! whatever order they arrive.
use vstd::prelude::*;

use crate::execution::aggregator::Aggregator;
use crate::execution::laws;
use crate::float64::Float64;
use crate::query;
use crate::query::{Answer, Response};

verus! {

/// What some partial results merge to, one after the other.
pub open spec fn merged_all(parts: Seq<Answer>) -> Answer
    decreases parts.len(),
{
    if parts.len() == 0 {
        Answer::blank()
    } else {
        merged_all(parts.drop_last()).merged(parts.last())
    }
}

/// Merging goes on step by step: merging one partial result into what was merged
/// so far is merging one result more.
pub proof fn law_merging_goes_on(parts: Seq<Answer>, part: Answer)
    ensures
        merged_all(parts).merged(part) == merged_all(parts.push(part)),
{
    assert(parts.push(part).drop_last() =~= parts);
}

/// An aggregator yields nothing until the last of the expected results, and then
/// what all of them merge to.
pub proof fn law_last_result_completes_the_answer(
    states: Seq<Aggregator>,
    parts: Seq<Answer>,
    results: Seq<Option<Response>>,
    k: int,
)
    requires
        0 < parts.len(),
        states.len() == parts.len() + 1,
        results.len() == parts.len(),
        states[0].expected() == parts.len(),
        states[0].received() == 0,
        states[0].so_far() == Answer::blank(),
        forall|i: int|
            0 <= i < parts.len() ==> #[trigger] Aggregator::merged_in(
                states[i],
                states[i + 1],
                parts[i],
                results[i],
            ),
    ensures
        0 <= k < parts.len() - 1 ==> results[k] is None,
        results.last() matches Some(response) && response.wf() && response@ == merged_all(parts),
{
    let last = parts.len() - 1;
    lemma_so_far(states, parts, results, last);
    assert(Aggregator::merged_in(states[last], states[last + 1], parts[last], results[last]));
    assert(parts.take(last) =~= parts.drop_last());
    if 0 <= k < last {
        lemma_so_far(states, parts, results, k);
        assert(Aggregator::merged_in(states[k], states[k + 1], parts[k], results[k]));
    }
}

/// Before the last result, what was merged so far is what the first results merge
/// to.
proof fn lemma_so_far(
    states: Seq<Aggregator>,
    parts: Seq<Answer>,
    results: Seq<Option<Response>>,
    k: int,
)
    requires
        states.len() == parts.len() + 1,
        states[0].expected() == parts.len(),
        states[0].received() == 0,
        states[0].so_far() == Answer::blank(),
        forall|i: int|
            0 <= i < parts.len() ==> #[trigger] Aggregator::merged_in(
                states[i],
                states[i + 1],
                parts[i],
                results[i],
            ),
        0 <= k < parts.len(),
    ensures
        states[k].expected() == parts.len(),
        states[k].received() == k,
        states[k].so_far() == merged_all(parts.take(k)),
    decreases k,
{
    if k > 0 {
        lemma_so_far(states, parts, results, k - 1);
        assert(Aggregator::merged_in(states[k - 1], states[k - 1 + 1], parts[k - 1], results[k - 1]));
        assert(parts.take(k).drop_last() =~= parts.take(k - 1));
    } else {
        assert(parts.take(0) =~= Seq::empty());
    }
}

/// The total of a number over some partial results.
pub open spec fn total(parts: Seq<Answer>, f: spec_fn(Answer) -> int) -> int {
    parts.fold_left(0, |sum: int, a: Answer| sum + f(a))
}

/// How many rows a partial result counts.
pub open spec fn rows_in() -> spec_fn(Answer) -> int {
    |a: Answer| a.matched as int
}

/// How many values of a column a partial result counts.
pub open spec fn values_in(n: Seq<char>) -> spec_fn(Answer) -> int {
    |a: Answer|
        if a.numeric.contains_key(n) {
            a.numeric[n].count as int
        } else {
            0
        }
}

/// How many hits of a value in a column a partial result counts.
pub open spec fn hits_in(n: Seq<char>, v: Seq<char>) -> spec_fn(Answer) -> int {
    |a: Answer|
        if has_value(a, n, v) {
            a.hits[n][v] as int
        } else {
            0
        }
}

/// Whether a partial result counts a value of a column.
pub open spec fn has_value(a: Answer, n: Seq<char>, v: Seq<char>) -> bool {
    a.hits.contains_key(n) && a.hits[n].contains_key(v)
}

/// Whether a column is aggregated by one of some partial results.
pub open spec fn some_aggregates(parts: Seq<Answer>, n: Seq<char>) -> bool {
    exists|a: Answer| #[trigger] parts.contains(a) && a.numeric.contains_key(n)
}

/// Whether the values of a column are counted by one of some partial results.
pub open spec fn some_counts(parts: Seq<Answer>, n: Seq<char>) -> bool {
    exists|a: Answer| #[trigger] parts.contains(a) && a.hits.contains_key(n)
}

/// Whether a value of a column is counted by one of some partial results.
pub open spec fn some_has_value(parts: Seq<Answer>, n: Seq<char>, v: Seq<char>) -> bool {
    exists|a: Answer| #[trigger] parts.contains(a) && has_value(a, n, v)
}

/// Whether `x` is the least of the minima of a column in some partial results.
pub open spec fn least_min(parts: Seq<Answer>, n: Seq<char>, x: Float64) -> bool {
    &&& exists|a: Answer| #[trigger]
        parts.contains(a) && a.numeric.contains_key(n) && a.numeric[n].min == x
    &&& forall|a: Answer| #[trigger]
        parts.contains(a) && a.numeric.contains_key(n) ==> x.up_to(a.numeric[n].min)
}

/// Whether `x` is the greatest of the maxima of a column in some partial results.
pub open spec fn greatest_max(parts: Seq<Answer>, n: Seq<char>, x: Float64) -> bool {
    &&& exists|a: Answer| #[trigger]
        parts.contains(a) && a.numeric.contains_key(n) && a.numeric[n].max == x
    &&& forall|a: Answer| #[trigger]
        parts.contains(a) && a.numeric.contains_key(n) ==> a.numeric[n].max.up_to(x)
}

/// Whether the minima and maxima of some partial results are numbers.
pub open spec fn numbers_only(parts: Seq<Answer>) -> bool {
    forall|a: Answer, n: Seq<char>| #[trigger]
        parts.contains(a) && #[trigger] a.numeric.contains_key(n) ==> !a.numeric[n].min.nan()
            && !a.numeric[n].max.nan()
}

/// Whether 64 bits hold what the counts of some partial results add up to.
pub open spec fn counts_fit(parts: Seq<Answer>) -> bool {
    &&& total(parts, rows_in()) <= u64::MAX
    &&& forall|n: Seq<char>| total(parts, #[trigger] values_in(n)) <= u64::MAX
    &&& forall|n: Seq<char>, v: Seq<char>| total(parts, #[trigger] hits_in(n, v)) <= u64::MAX
}

/// An aggregator takes every partial result as long as the counts fit.
pub proof fn law_fitting_results_are_taken(parts: Seq<Answer>, part: Answer)
    requires
        counts_fit(parts.push(part)),
    ensures
        counts_fit(parts),
        merged_all(parts).addable(part),
{
    let all = parts.push(part);
    let before = merged_all(parts);
    assert(all.drop_last() =~= parts);
    assert(counts_fit(parts)) by {
        lemma_fits_before(all);
    }
    lemma_rows(parts);
    assert(total(all, rows_in()) == total(parts, rows_in()) + part.matched);
    assert forall|n: Seq<char>| #[trigger]
        before.numeric.contains_key(n) && part.numeric.contains_key(n) implies before.numeric[n].count
        + part.numeric[n].count <= u64::MAX by {
        lemma_column(parts, n);
        assert(total(all, values_in(n)) == total(parts, values_in(n)) + part.numeric[n].count);
    }
    assert forall|n: Seq<char>, v: Seq<char>|
        before.hits.contains_key(n) && part.hits.contains_key(n)
            && #[trigger] before.hits[n].contains_key(v) && part.hits[n].contains_key(
            v,
        ) implies before.hits[n][v] + part.hits[n][v] <= u64::MAX by {
        lemma_value(parts, n, v);
        assert(total(all, hits_in(n, v)) == total(parts, hits_in(n, v)) + part.hits[n][v]);
    }
}

/// Where the counts of some results fit, so do those of the first of them.
proof fn lemma_fits_before(parts: Seq<Answer>)
    requires
        parts.len() > 0,
        counts_fit(parts),
    ensures
        counts_fit(parts.drop_last()),
{
    let first = parts.drop_last();
    assert forall|n: Seq<char>| total(first, #[trigger] values_in(n)) <= u64::MAX by {
        assert(total(parts, values_in(n)) <= u64::MAX);
    }
    assert forall|n: Seq<char>, v: Seq<char>| total(first, #[trigger] hits_in(n, v))
        <= u64::MAX by {
        assert(total(parts, hits_in(n, v)) <= u64::MAX);
    }
}

/// What partial results merge to: the rows of all, the columns of any, per column
/// the number of values of all, the least minimum and the greatest maximum, and
/// per value the hits of all.
pub proof fn law_merged_results_add_up(parts: Seq<Answer>)
    requires
        numbers_only(parts),
        counts_fit(parts),
    ensures
        merged_all(parts).matched == total(parts, rows_in()),
        forall|n: Seq<char>| #[trigger]
            merged_all(parts).numeric.contains_key(n) <==> some_aggregates(parts, n),
        forall|n: Seq<char>| #[trigger]
            merged_all(parts).numeric.contains_key(n) ==> {
                let s = merged_all(parts).numeric[n];
                &&& s.count == total(parts, values_in(n))
                &&& least_min(parts, n, s.min)
                &&& greatest_max(parts, n, s.max)
            },
        forall|n: Seq<char>| #[trigger]
            merged_all(parts).hits.contains_key(n) <==> some_counts(parts, n),
        forall|n: Seq<char>, v: Seq<char>|
            #![trigger has_value(merged_all(parts), n, v)]
            has_value(merged_all(parts), n, v) <==> some_has_value(parts, n, v),
        forall|n: Seq<char>, v: Seq<char>|
            #![trigger has_value(merged_all(parts), n, v)]
            has_value(merged_all(parts), n, v) ==> merged_all(parts).hits[n][v] == total(
                parts,
                hits_in(n, v),
            ),
{
    let all = merged_all(parts);
    assert forall|n: Seq<char>| #[trigger] all.numeric.contains_key(n) <==> some_aggregates(
        parts,
        n,
    ) by {
        lemma_column(parts, n);
    }
    assert forall|n: Seq<char>| #[trigger] all.numeric.contains_key(n) implies {
        let s = all.numeric[n];
        &&& s.count == total(parts, values_in(n))
        &&& least_min(parts, n, s.min)
        &&& greatest_max(parts, n, s.max)
    } by {
        lemma_column(parts, n);
    }
    assert forall|n: Seq<char>| #[trigger] all.hits.contains_key(n) <==> some_counts(
        parts,
        n,
    ) by {
        lemma_value(parts, n, Seq::empty());
    }
    assert forall|n: Seq<char>, v: Seq<char>|
        #![trigger has_value(all, n, v)]
        (has_value(all, n, v) <==> some_has_value(parts, n, v)) && (has_value(all, n, v)
            ==> all.hits[n][v] == total(parts, hits_in(n, v))) by {
        lemma_value(parts, n, v);
    }
    lemma_rows(parts);
}

/// The order in which partial results arrive does not show: the same results in
/// another order merge to the same rows, columns, numbers of values, minima,
/// maxima and hits. Sums are left out: the addition of binary numbers rounds, so
/// their last digits may depend on the order.
pub proof fn law_order_of_results_does_not_show(parts: Seq<Answer>, others: Seq<Answer>)
    requires
        numbers_only(parts),
        counts_fit(parts),
        parts.to_multiset() == others.to_multiset(),
    ensures
        laws::agree(merged_all(parts), merged_all(others)),
{
    let a = merged_all(parts);
    let b = merged_all(others);
    lemma_same_parts(parts, others);
    lemma_same_parts(others, parts);
    assert(counts_fit(others)) by {
        lemma_total_in_any_order(parts, others, rows_in());
        assert forall|n: Seq<char>| total(others, #[trigger] values_in(n)) <= u64::MAX by {
            lemma_total_in_any_order(parts, others, values_in(n));
            assert(total(parts, values_in(n)) <= u64::MAX);
        }
        assert forall|n: Seq<char>, v: Seq<char>| total(others, #[trigger] hits_in(n, v))
            <= u64::MAX by {
            lemma_total_in_any_order(parts, others, hits_in(n, v));
            assert(total(parts, hits_in(n, v)) <= u64::MAX);
        }
    }
    law_merged_results_add_up(parts);
    law_merged_results_add_up(others);
    lemma_total_in_any_order(parts, others, rows_in());
    assert forall|n: Seq<char>|
        a.numeric.contains_key(n) <==> b.numeric.contains_key(n) by {
        assert(some_aggregates(parts, n) <==> some_aggregates(others, n));
    }
    assert(a.numeric.dom() =~= b.numeric.dom());
    assert forall|n: Seq<char>| #[trigger] a.numeric.contains_key(n) implies {
        &&& a.numeric[n].count == b.numeric[n].count
        &&& laws::same_number(a.numeric[n].min, b.numeric[n].min)
        &&& laws::same_number(a.numeric[n].max, b.numeric[n].max)
    } by {
        assert(b.numeric.contains_key(n));
        lemma_total_in_any_order(parts, others, values_in(n));
        assert(least_min(parts, n, b.numeric[n].min));
        assert(greatest_max(parts, n, b.numeric[n].max));
    }
    assert forall|n: Seq<char>| a.hits.contains_key(n) <==> b.hits.contains_key(n) by {
        assert(some_counts(parts, n) <==> some_counts(others, n));
    }
    assert forall|n: Seq<char>| #[trigger] a.hits.contains_key(n) implies a.hits[n]
        == b.hits[n] by {
        assert(b.hits.contains_key(n));
        assert forall|v: Seq<char>| #[trigger] a.hits[n].dom().contains(v) <==> b.hits[n].dom().contains(
            v,
        ) by {
            assert(has_value(a, n, v) == a.hits[n].contains_key(v));
            assert(has_value(b, n, v) == b.hits[n].contains_key(v));
            assert(some_has_value(parts, n, v) <==> some_has_value(others, n, v));
        }
        assert(a.hits[n].dom() =~= b.hits[n].dom());
        assert forall|v: Seq<char>| a.hits[n].contains_key(v) implies #[trigger] a.hits[n][v]
            == b.hits[n][v] by {
            assert(has_value(a, n, v) && has_value(b, n, v));
            lemma_total_in_any_order(parts, others, hits_in(n, v));
        }
        assert(a.hits[n] =~= b.hits[n]);
    }
    assert(a.hits.dom() =~= b.hits.dom());
    assert(a.hits =~= b.hits);
}

/// Sequences with the same elements hold the same ones.
proof fn lemma_same_parts(parts: Seq<Answer>, others: Seq<Answer>)
    requires
        parts.to_multiset() == others.to_multiset(),
    ensures
        forall|a: Answer| #[trigger] parts.contains(a) ==> others.contains(a),
        forall|a: Answer| #[trigger] others.contains(a) ==> parts.contains(a),
{
    parts.to_multiset_ensures();
    others.to_multiset_ensures();
    assert forall|a: Answer| parts.contains(a) <==> others.contains(a) by {
        assert(parts.contains(a) <==> parts.to_multiset().count(a) > 0);
        assert(others.contains(a) <==> others.to_multiset().count(a) > 0);
    }
}

/// A total does not depend on the order.
proof fn lemma_total_in_any_order(
    parts: Seq<Answer>,
    others: Seq<Answer>,
    f: spec_fn(Answer) -> int,
)
    requires
        parts.to_multiset() == others.to_multiset(),
    ensures
        total(parts, f) == total(others, f),
{
    vstd::seq_lib::lemma_fold_left_permutation(
        parts,
        others,
        |sum: int, a: Answer| sum + f(a),
        0,
    );
}

/// What of some results holds of the first of them, and what the last adds.
proof fn lemma_contains_last(parts: Seq<Answer>)
    requires
        parts.len() > 0,
    ensures
        forall|a: Answer| #[trigger]
            parts.contains(a) <==> parts.drop_last().contains(a) || a == parts.last(),
{
    let first = parts.drop_last();
    assert forall|a: Answer| #[trigger] parts.contains(a) <==> first.contains(a) || a
        == parts.last() by {
        if parts.contains(a) {
            let k = parts.index_of(a);
            if k < first.len() {
                assert(first[k] == a);
            }
        }
        if first.contains(a) {
            let k = first.index_of(a);
            assert(parts[k] == a);
        }
        assert(parts[parts.len() - 1] == parts.last());
    }
}

proof fn lemma_rows(parts: Seq<Answer>)
    ensures
        merged_all(parts).matched == total(parts, rows_in()),
    decreases parts.len(),
{
    if parts.len() > 0 {
        lemma_rows(parts.drop_last());
    }
}

/// What partial results say of a column when they are merged.
proof fn lemma_column(parts: Seq<Answer>, n: Seq<char>)
    requires
        counts_fit(parts),
    ensures
        merged_all(parts).numeric.contains_key(n) <==> some_aggregates(parts, n),
        merged_all(parts).numeric.contains_key(n) ==> {
            let s = merged_all(parts).numeric[n];
            &&& s.count == total(parts, values_in(n))
            &&& numbers_only(parts) ==> least_min(parts, n, s.min)
            &&& numbers_only(parts) ==> greatest_max(parts, n, s.max)
        },
        !merged_all(parts).numeric.contains_key(n) ==> total(parts, values_in(n)) == 0,
    decreases parts.len(),
{
    if parts.len() > 0 {
        let first = parts.drop_last();
        let last = parts.last();
        lemma_fits_before(parts);
        lemma_column(first, n);
        lemma_contains_last(parts);
        let before = merged_all(first);
        let all = merged_all(parts);
        assert(parts.contains(last));
        assert(total(parts, values_in(n)) <= u64::MAX);
        if before.numeric.contains_key(n) {
            let a = choose|a: Answer| #[trigger] first.contains(a) && a.numeric.contains_key(n);
            assert(parts.contains(a));
        }
        if before.numeric.contains_key(n) && numbers_only(parts) {
            assert forall|a: Answer, m: Seq<char>| #[trigger]
                first.contains(a) && #[trigger] a.numeric.contains_key(m) implies !a.numeric[m].min.nan()
                && !a.numeric[m].max.nan() by {
                assert(parts.contains(a));
            }
            let lo = choose|a: Answer| #[trigger]
                first.contains(a) && a.numeric.contains_key(n) && a.numeric[n].min
                    == before.numeric[n].min;
            let hi = choose|a: Answer| #[trigger]
                first.contains(a) && a.numeric.contains_key(n) && a.numeric[n].max
                    == before.numeric[n].max;
            assert(parts.contains(lo) && parts.contains(hi));
            assert(before.numeric[n].min.up_to(lo.numeric[n].min));
            assert(hi.numeric[n].max.up_to(before.numeric[n].max));
        }
        if all.numeric.contains_key(n) && numbers_only(parts) {
            let s = all.numeric[n];
            assert forall|a: Answer| #[trigger]
                parts.contains(a) && a.numeric.contains_key(n) implies s.min.up_to(
                a.numeric[n].min,
            ) && a.numeric[n].max.up_to(s.max) by {
                if first.contains(a) {
                    assert(some_aggregates(first, n));
                }
            }
        }
    }
}

/// What partial results say of a value when they are merged.
proof fn lemma_value(parts: Seq<Answer>, n: Seq<char>, v: Seq<char>)
    requires
        counts_fit(parts),
    ensures
        merged_all(parts).hits.contains_key(n) <==> some_counts(parts, n),
        has_value(merged_all(parts), n, v) <==> some_has_value(parts, n, v),
        has_value(merged_all(parts), n, v) ==> merged_all(parts).hits[n][v] == total(
            parts,
            hits_in(n, v),
        ),
        !has_value(merged_all(parts), n, v) ==> total(parts, hits_in(n, v)) == 0,
    decreases parts.len(),
{
    if parts.len() > 0 {
        let first = parts.drop_last();
        let last = parts.last();
        lemma_fits_before(parts);
        lemma_value(first, n, v);
        assert(total(parts, hits_in(n, v)) <= u64::MAX);
        lemma_contains_last(parts);
        let before = merged_all(first);
        let all = merged_all(parts);
        assert(parts.contains(last));
        if some_counts(first, n) {
            let a = choose|a: Answer| #[trigger] first.contains(a) && a.hits.contains_key(n);
            assert(parts.contains(a));
        }
        if some_has_value(first, n, v) {
            let a = choose|a: Answer| #[trigger] first.contains(a) && has_value(a, n, v);
            assert(parts.contains(a));
        }
        if some_counts(parts, n) {
            let a = choose|a: Answer| #[trigger] parts.contains(a) && a.hits.contains_key(n);
            assert(first.contains(a) || a == last);
        }
        if some_has_value(parts, n, v) {
            let a = choose|a: Answer| #[trigger] parts.contains(a) && has_value(a, n, v);
            assert(first.contains(a) || a == last);
        }
        if before.hits.contains_key(n) && last.hits.contains_key(n) {
            assert(all.hits[n] == query::merged_hits(before.hits[n], last.hits[n]));
        }
        if has_value(before, n, v) {
            assert(before.hits[n].contains_key(v) && before.hits.contains_key(n));
        }
        if has_value(last, n, v) {
            assert(last.hits[n].contains_key(v) && last.hits.contains_key(n));
        }
    }
}

} // verus!
