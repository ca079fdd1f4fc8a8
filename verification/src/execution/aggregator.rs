//! Folding partial results.
use vstd::prelude::*;

use crate::name_map::NameMap;
use crate::query;
use crate::query::{Answer, NumericStats, Response};

verus! {

/// Per-chunk output of a worker, in the shape of the whole response: counts and
/// aggregates over the rows of the chunk.
pub type PartialResult = Response;

/// Accumulates the partial results of one query and yields the response once
/// every chunk has reported.
pub struct Aggregator {
    expected_chunks: usize,
    received_chunks: usize,
    acc: Response,
}

/// How far a query has come.
#[verifier::ext_equal]
pub struct Progress {
    /// How many chunks were handed out.
    pub expected: nat,
    /// How many have reported.
    pub received: nat,
    /// What was folded so far.
    pub so_far: Answer,
}

impl Aggregator {
    pub open spec fn progress(&self) -> Progress {
        Progress {
            expected: self.expected(),
            received: self.received(),
            so_far: self.so_far(),
        }
    }

    pub closed spec fn expected(&self) -> nat {
        self.expected_chunks as nat
    }

    pub closed spec fn received(&self) -> nat {
        self.received_chunks as nat
    }

    /// What was folded so far.
    pub closed spec fn so_far(&self) -> Answer {
        self.acc@
    }

    pub closed spec fn wf(&self) -> bool {
        self.acc.wf()
    }

    pub fn new(expected_chunks: usize) -> (r: Aggregator)
        ensures
            r.wf(),
            r.expected() == expected_chunks,
            r.received() == 0,
            r.so_far() == Answer::blank(),
    {
        Aggregator { expected_chunks, received_chunks: 0, acc: Response::default() }
    }

    /// What becomes of a partial result, where `before` and `after` are the states
    /// of the aggregator.
    pub open spec fn merged_in(
        before: Aggregator,
        after: Aggregator,
        part: Answer,
        r: Option<Response>,
    ) -> bool {
        let total = before.so_far().merged(part);
        &&& after.expected() == before.expected()
        &&& after.received() == before.received() + 1
        &&& if before.received() + 1 >= before.expected() {
            &&& r matches Some(response) && response.wf() && response@ == total
            &&& after.so_far() == Answer::blank()
        } else {
            &&& r is None
            &&& after.so_far() == total
        }
    }

    /// Merges one partial result. Returns the response once all chunks have been
    /// folded in. The counts have to add up within 64 bits.
    pub fn merge(&mut self, partial: PartialResult) -> (r: Option<Response>)
        requires
            old(self).wf(),
            old(self).received() < usize::MAX,
            partial.wf(),
            old(self).so_far().addable(partial@),
        ensures
            final(self).wf(),
            Aggregator::merged_in(*old(self), *final(self), partial@, r),
    {
        let ghost before = self.acc@;
        let ghost total = before.merged(partial@);
        self.acc.matched_rows = self.acc.matched_rows + partial.matched_rows;
        merge_numeric(&mut self.acc.numeric, &partial.numeric);
        proof {
            let held = self.acc.string_counts@;
            let fresh = partial.string_counts@;
            assert forall|n: Seq<char>, v: Seq<char>|
                held.contains_key(n) && fresh.contains_key(n) && #[trigger] held[n]@.contains_key(v)
                    && fresh[n]@.contains_key(v) implies held[n]@[v] + fresh[n]@[v] <= u64::MAX by {
                assert(before.hits[n].contains_key(v));
                assert(partial@.hits[n].contains_key(v));
            }
        }
        merge_counts(&mut self.acc.string_counts, &partial.string_counts);
        self.received_chunks = self.received_chunks + 1;
        proof {
            assert(self.acc@.numeric =~= total.numeric);
            assert forall|n: Seq<char>| #[trigger] total.hits.contains_key(n) implies self.acc@.hits[n]
                == total.hits[n] by {
                let _ = self.acc.string_counts@[n];
            }
            assert(self.acc@.hits =~= total.hits);
            assert(self.acc@ =~= total);
        }
        if self.received_chunks >= self.expected_chunks {
            let mut done = Response::default();
            std::mem::swap(&mut done, &mut self.acc);
            Some(done)
        } else {
            None
        }
    }
}

/// Merges the aggregates of each column.
fn merge_numeric(acc: &mut NameMap<NumericStats>, partial: &NameMap<NumericStats>)
    requires
        old(acc).wf(),
        partial.wf(),
        forall|n: Seq<char>| #[trigger]
            old(acc)@.contains_key(n) && partial@.contains_key(n) ==> old(acc)@[n].count
                + partial@[n].count <= u64::MAX,
    ensures
        final(acc).wf(),
        forall|n: Seq<char>| #[trigger]
            final(acc)@.contains_key(n) <==> old(acc)@.contains_key(n) || partial@.contains_key(n),
        forall|n: Seq<char>| #[trigger]
            final(acc)@.contains_key(n) ==> final(acc)@[n] == if !partial@.contains_key(n) {
                old(acc)@[n]
            } else if !old(acc)@.contains_key(n) {
                partial@[n]
            } else {
                old(acc)@[n].merged(partial@[n])
            },
{
    let ghost before = acc@;
    let mut i: usize = 0;
    while i < partial.len()
        invariant
            acc.wf(),
            partial.wf(),
            before == old(acc)@,
            forall|n: Seq<char>| #[trigger]
                before.contains_key(n) && partial@.contains_key(n) ==> before[n].count
                    + partial@[n].count <= u64::MAX,
            i <= partial.keys().len(),
            forall|n: Seq<char>| #[trigger]
                acc@.contains_key(n) <==> before.contains_key(n) || partial.keys().take(
                    i as int,
                ).contains(n),
            forall|n: Seq<char>| #[trigger]
                acc@.contains_key(n) ==> acc@[n] == if !partial.keys().take(i as int).contains(n) {
                    before[n]
                } else if !before.contains_key(n) {
                    partial@[n]
                } else {
                    before[n].merged(partial@[n])
                },
        decreases partial.keys().len() - i,
    {
        let name: &String = partial.name_at(i);
        let stats: NumericStats = *partial.value_at(i);
        let ghost n = name@;
        proof {
            partial.lemma_at(i as int);
            partial.lemma_take(i as int);
        }
        let merged: NumericStats = match acc.get(name.as_str()) {
            Some(existing) => {
                let mut m: NumericStats = *existing;
                m.merge(&stats);
                m
            },
            None => stats,
        };
        acc.insert(name.as_str().to_owned(), merged);
        i += 1;
    }
    proof {
        assert(partial.keys().take(i as int) =~= partial.keys());
    }
}

/// Merges the hits of each column.
fn merge_counts(acc: &mut NameMap<NameMap<u64>>, partial: &NameMap<NameMap<u64>>)
    requires
        old(acc).wf(),
        partial.wf(),
        forall|n: Seq<char>| old(acc)@.contains_key(n) ==> (#[trigger] old(acc)@[n]).wf(),
        forall|n: Seq<char>| partial@.contains_key(n) ==> (#[trigger] partial@[n]).wf(),
        forall|n: Seq<char>, v: Seq<char>|
            old(acc)@.contains_key(n) && partial@.contains_key(n) && #[trigger] old(
                acc,
            )@[n]@.contains_key(v) && partial@[n]@.contains_key(v) ==> old(acc)@[n]@[v]
                + partial@[n]@[v] <= u64::MAX,
    ensures
        final(acc).wf(),
        forall|n: Seq<char>| #[trigger]
            final(acc)@.contains_key(n) <==> old(acc)@.contains_key(n) || partial@.contains_key(n),
        forall|n: Seq<char>|
            final(acc)@.contains_key(n) ==> (#[trigger] final(acc)@[n]).wf() && final(acc)@[n]@
                == if !partial@.contains_key(n) {
                old(acc)@[n]@
            } else if !old(acc)@.contains_key(n) {
                partial@[n]@
            } else {
                query::merged_hits(old(acc)@[n]@, partial@[n]@)
            },
{
    let ghost before = acc@;
    let mut i: usize = 0;
    while i < partial.len()
        invariant
            acc.wf(),
            partial.wf(),
            before == old(acc)@,
            forall|n: Seq<char>| partial@.contains_key(n) ==> (#[trigger] partial@[n]).wf(),
            forall|n: Seq<char>, v: Seq<char>|
                before.contains_key(n) && partial@.contains_key(n)
                    && #[trigger] before[n]@.contains_key(v) && partial@[n]@.contains_key(v)
                    ==> before[n]@[v] + partial@[n]@[v] <= u64::MAX,
            i <= partial.keys().len(),
            forall|n: Seq<char>| #[trigger]
                acc@.contains_key(n) <==> before.contains_key(n) || partial.keys().take(
                    i as int,
                ).contains(n),
            forall|n: Seq<char>|
                acc@.contains_key(n) ==> (#[trigger] acc@[n]).wf() && acc@[n]@
                    == if !partial.keys().take(i as int).contains(n) {
                    before[n]@
                } else if !before.contains_key(n) {
                    partial@[n]@
                } else {
                    query::merged_hits(before[n]@, partial@[n]@)
                },
        decreases partial.keys().len() - i,
    {
        let name: &String = partial.name_at(i);
        let counts: &NameMap<u64> = partial.value_at(i);
        let ghost n = name@;
        let ghost held = acc@;
        proof {
            partial.lemma_at(i as int);
            partial.lemma_take(i as int);
            let _ = partial@[n];
            let _ = held[n];
        }
        let mut entry: NameMap<u64> = match acc.remove(name.as_str()) {
            Some(existing) => existing,
            None => NameMap::new(),
        };
        add_counts(&mut entry, counts);
        assert(!before.contains_key(n) ==> entry@ =~= counts@);
        acc.insert(name.as_str().to_owned(), entry);
        assert forall|m: Seq<char>| acc@.contains_key(m) implies (#[trigger] acc@[m]).wf()
            && acc@[m]@ == if !partial.keys().take(i + 1).contains(m) {
            before[m]@
        } else if !before.contains_key(m) {
            partial@[m]@
        } else {
            query::merged_hits(before[m]@, partial@[m]@)
        } by {
            if m != n {
                let _ = held[m];
            }
        }
        i += 1;
    }
    proof {
        assert(partial.keys().take(i as int) =~= partial.keys());
    }
}

/// Adds hits, value by value.
fn add_counts(entry: &mut NameMap<u64>, counts: &NameMap<u64>)
    requires
        old(entry).wf(),
        counts.wf(),
        forall|v: Seq<char>| #[trigger]
            old(entry)@.contains_key(v) && counts@.contains_key(v) ==> old(entry)@[v] + counts@[v]
                <= u64::MAX,
    ensures
        final(entry).wf(),
        final(entry)@ == query::merged_hits(old(entry)@, counts@),
{
    let ghost before = entry@;
    let mut i: usize = 0;
    while i < counts.len()
        invariant
            entry.wf(),
            counts.wf(),
            before == old(entry)@,
            forall|v: Seq<char>| #[trigger]
                before.contains_key(v) && counts@.contains_key(v) ==> before[v] + counts@[v]
                    <= u64::MAX,
            i <= counts.keys().len(),
            forall|v: Seq<char>| #[trigger]
                entry@.contains_key(v) <==> before.contains_key(v) || counts.keys().take(
                    i as int,
                ).contains(v),
            forall|v: Seq<char>| #[trigger]
                entry@.contains_key(v) ==> entry@[v] == if !counts.keys().take(i as int).contains(
                    v,
                ) {
                    before[v]
                } else if !before.contains_key(v) {
                    counts@[v]
                } else {
                    (before[v] + counts@[v]) as u64
                },
        decreases counts.keys().len() - i,
    {
        let value: &String = counts.name_at(i);
        let count: u64 = *counts.value_at(i);
        proof {
            counts.lemma_at(i as int);
            counts.lemma_take(i as int);
        }
        let sum: u64 = match entry.get(value.as_str()) {
            Some(existing) => *existing + count,
            None => count,
        };
        entry.insert(value.as_str().to_owned(), sum);
        i += 1;
    }
    proof {
        assert(counts.keys().take(i as int) =~= counts.keys());
        assert(entry@ =~= query::merged_hits(before, counts@));
    }
}

} // verus!
