//! Keeping track of the queries that are under way.
use roaring::RoaringBitmap;
use std::collections::HashMap;
use std::sync::Arc;
use vstd::prelude::*;
use vstd::string::*;

use crate::config::{AppConfig, ColumnType, SearchableColumn};
use crate::error::{AppError, AppResult, Fault};
use crate::execution::aggregator::{Aggregator, PartialResult, Progress};
use crate::execution::chunk::Task;
use crate::execution::laws;
use crate::execution::matching;
use crate::execution::planning;
use crate::execution::planning::{build_skip_mask, count_dispatched, cut, validate};
use crate::execution::sorting;
use crate::execution::worker::{aggregate, result_of, Worker};
use crate::name_map::NameMap;
use crate::query::{Answer, ColumnKind, Query, QueryId, Response};
use crate::resource;
use crate::storage::partition;
use crate::storage::table::Table;
use crate::storage::ColumnStore;

verus! {

/// Keeps track of the queries that are under way:
/// - assigns a `QueryId` to every query that is not answered at once,
/// - breaks each query into `Task`s, one per chunk,
/// - folds each partial result into the `Aggregator` of its query,
/// - yields the `Response` with the last of them.
///
/// Tasks of several queries may be worked on in any order.
pub struct Coordinator {
    cfg: AppConfig,
    store: Arc<ColumnStore>,
    next_id: u64,
    inflight: HashMap<u64, Aggregator>,
    /// How many ids were given.
    issued: Ghost<nat>,
}

/// What becomes of a query that was admitted.
pub enum Submission {
    /// It is answered already.
    Done(Response),
    /// It is answered once each of the tasks has been worked on.
    Waiting { query_id: QueryId, tasks: Vec<Task> },
}

/// How a column type is shown.
pub open spec fn shown_as(kind: ColumnType) -> ColumnKind {
    if kind == ColumnType::DateTime {
        ColumnKind::DateTime
    } else {
        ColumnKind::Numeric
    }
}

/// Whether the aggregates of a column are shown.
pub open spec fn shown(cols: Map<Seq<char>, SearchableColumn>, a: Answer, n: Seq<char>) -> bool {
    cols.contains_key(n) && !cols[n].hidden && a.numeric.contains_key(n)
}

/// An answer as it is shown: without the aggregates of hidden columns, and with
/// how to show those of the others.
pub open spec fn presented(cols: Map<Seq<char>, SearchableColumn>, a: Answer) -> Answer {
    Answer {
        numeric: Map::new(
            |n: Seq<char>| a.numeric.contains_key(n) && !(cols.contains_key(n) && cols[n].hidden),
            |n: Seq<char>| a.numeric[n],
        ),
        kinds: Map::new(
            |n: Seq<char>| a.kinds.contains_key(n) || shown(cols, a, n),
            |n: Seq<char>|
                if shown(cols, a, n) {
                    shown_as(cols[n].column_type)
                } else {
                    a.kinds[n]
                },
        ),
        ..a
    }
}

impl Coordinator {
    pub closed spec fn cfg(&self) -> AppConfig {
        self.cfg
    }

    pub closed spec fn store(&self) -> ColumnStore {
        *self.store
    }

    pub closed spec fn next_id(&self) -> u64 {
        self.next_id
    }

    /// How many ids were given. Once there were more than `u64::MAX`, ids are given
    /// again.
    pub closed spec fn issued(&self) -> nat {
        self.issued@
    }

    /// The queries under way.
    pub closed spec fn inflight(&self) -> Map<u64, Progress> {
        Map::new(
            |id: u64| self.inflight@.contains_key(id),
            |id: u64| self.inflight@[id].progress(),
        )
    }

    pub closed spec fn wf(&self) -> bool {
        &&& self.cfg.searchable.wf()
        &&& self.store.wf()
        &&& self.store@.zoned()
        &&& forall|id: u64| #[trigger]
            self.inflight@.contains_key(id) ==> {
                let a = self.inflight@[id];
                &&& a.wf()
                &&& a.received() < a.expected() <= u32::MAX
                &&& a.so_far().bounded(a.received() * u32::MAX)
            }
        &&& self.issued@ < u64::MAX ==> self.next_id == self.issued@ + 1
        &&& self.issued@ == u64::MAX ==> self.next_id == 0
        &&& self.issued@ <= u64::MAX ==> forall|id: u64| #[trigger]
            self.inflight@.contains_key(id) ==> 1 <= id <= self.issued@
    }

    /// What a coordinator asks of its store, and of the queries under way: until
    /// ids start over, the next id is above those under way, and given to none of
    /// them.
    pub proof fn lemma_wf(&self)
        requires
            self.wf(),
        ensures
            self.cfg().searchable.wf(),
            self.store().wf(),
            self.store()@.zoned(),
            forall|id: u64| #[trigger]
                self.inflight().contains_key(id) ==> self.inflight()[id].received
                    < self.inflight()[id].expected <= u32::MAX,
            self.issued() < u64::MAX ==> forall|id: u64| #[trigger]
                self.inflight().contains_key(id) ==> id < self.next_id(),
            self.issued() <= u64::MAX ==> !self.inflight().contains_key(self.next_id()),
    {
    }

    /// Nothing but the queries under way differs.
    pub open spec fn same_engine(&self, other: Coordinator) -> bool {
        self.cfg() == other.cfg() && self.store() == other.store()
    }

    /// A coordinator without queries.
    pub fn start(cfg: AppConfig, store: Arc<ColumnStore>) -> (r: Coordinator)
        requires
            cfg.searchable.wf(),
            store.wf(),
            store@.zoned(),
        ensures
            r.wf(),
            r.cfg() == cfg,
            r.store() == *store,
            r.next_id() == 1,
            r.issued() == 0,
            r.inflight() == Map::<u64, Progress>::empty(),
    {
        broadcast use vstd::std_specs::hash::group_hash_axioms;

        let r = Coordinator { cfg, store, next_id: 1, inflight: HashMap::new(), issued: Ghost(0) };
        assert(r.inflight() =~= Map::<u64, Progress>::empty());
        r
    }

    /// How many workers the engine asks for: at least one.
    pub fn worker_threads(&self) -> (n: usize)
        ensures
            n == if self.cfg().engine.worker_threads > 1 {
                self.cfg().engine.worker_threads
            } else {
                1
            },
    {
        if self.cfg.engine.worker_threads > 1 {
            self.cfg.engine.worker_threads
        } else {
            1
        }
    }

    /// A worker over the store.
    pub fn worker(&self) -> (r: Worker)
        ensures
            r.store() == self.store(),
            r.counting() == self.cfg().engine.string_value_counts,
    {
        Worker::new(self.store.clone(), self.cfg.engine.string_value_counts)
    }

    /// What becomes of a query, where `before` and `after` are the states of the
    /// coordinator.
    pub open spec fn enqueued(
        before: Coordinator,
        after: Coordinator,
        q: Query,
        r: AppResult<Submission>,
    ) -> bool {
        let t = before.store()@;
        match planning::query_fault(t, q) {
            Some(f) => (r matches Err(e) && e@ == f) && after == before,
            None => if planning::dispatched(t, q, t.chunk_count() as int).len() == 0 {
                &&& r matches Ok(Submission::Done(response)) && response.wf() && response@
                    == matching::report(
                    t,
                    Set::empty(),
                    before.cfg().engine.string_value_counts,
                )
                &&& after == before
            } else {
                &&& r matches Ok(Submission::Waiting { query_id, tasks }) && {
                    &&& query_id.0 == before.next_id()
                    &&& planning::are_tasks(t, q, query_id, tasks@)
                }
                &&& after.same_engine(before)
                &&& after.next_id() == if before.next_id() == u64::MAX {
                    0
                } else {
                    (before.next_id() + 1) as u64
                }
                &&& after.issued() == before.issued() + 1
                &&& after.inflight() == before.inflight().insert(
                    before.next_id(),
                    (Progress {
                        expected: planning::dispatched(t, q, t.chunk_count() as int).len(),
                        received: 0,
                        so_far: Answer::blank(),
                    }),
                )
            },
        }
    }

    /// Admits a query and breaks it into tasks. A query without rows to look at is
    /// answered at once: no row matches.
    pub fn enqueue(&mut self, query: Query) -> (r: AppResult<Submission>)
        requires
            old(self).wf(),
            query.wf(),
        ensures
            final(self).wf(),
            Coordinator::enqueued(*old(self), *final(self), query, r),
    {
        broadcast use vstd::std_specs::hash::group_hash_axioms;

        let ghost before = *self;
        let ghost q = query;
        proof {
            self.store.lemma_wf();
        }
        match validate(&query, &self.store) {
            Ok(_) => {},
            Err(e) => return Err(e),
        }
        let chunk_count: usize = self.store.chunk_count();
        let mask: Vec<bool> = build_skip_mask(chunk_count, &self.store, &query);
        let dispatched: usize = count_dispatched(&mask, &self.store, &query);
        if dispatched == 0 {
            let nothing = RoaringBitmap::new();
            return Ok(
                Submission::Done(
                    aggregate(&nothing, &self.store, self.cfg.engine.string_value_counts),
                ),
            );
        }
        proof {
            partition::lemma_chunks_bound(self.store@.rows, self.store@.chunk);
        }
        let query_id: QueryId = self.next_query_id();
        let tasks: Vec<Task> = cut(Arc::new(query), query_id, &self.store, &mask);
        self.inflight.insert(query_id.0, Aggregator::new(dispatched));
        proof {
            let progress = Progress {
                expected: dispatched as nat,
                received: 0,
                so_far: Answer::blank(),
            };
            assert(self.inflight() =~= before.inflight().insert(query_id.0, progress));
        }
        Ok(Submission::Waiting { query_id, tasks })
    }

    /// The next id. Ids start over once the last was given.
    fn next_query_id(&mut self) -> (r: QueryId)
        ensures
            r.0 == old(self).next_id(),
            final(self).next_id() == if old(self).next_id() == u64::MAX {
                0
            } else {
                (old(self).next_id() + 1) as u64
            },
            final(self).issued() == old(self).issued() + 1,
            final(self).cfg == old(self).cfg,
            final(self).store == old(self).store,
            final(self).inflight == old(self).inflight,
    {
        self.issued = Ghost(self.issued@ + 1);
        let id: u64 = self.next_id;
        self.next_id = if id == u64::MAX {
            0
        } else {
            id + 1
        };
        QueryId(id)
    }

    /// What becomes of a query that is submitted while the process uses `rss` bytes,
    /// where `before` and `after` are the states of the coordinator.
    pub open spec fn submitted_at(
        before: Coordinator,
        after: Coordinator,
        q: Query,
        rss: u64,
        r: AppResult<Submission>,
    ) -> bool {
        if rss > before.cfg().engine.memory_limit {
            &&& r matches Err(e) && e@ == resource::over_limit(
                rss,
                before.cfg().engine.memory_limit,
            )
            &&& after == before
        } else {
            Coordinator::enqueued(before, after, q, r)
        }
    }

    /// What becomes of a query that is submitted: the resident set size that is read
    /// decides whether it is admitted.
    pub open spec fn submitted(
        before: Coordinator,
        after: Coordinator,
        q: Query,
        r: AppResult<Submission>,
    ) -> bool {
        exists|rss: u64| #[trigger]
            call_ensures(resource::current_rss_bytes, (), rss) && Coordinator::submitted_at(
                before,
                after,
                q,
                rss,
                r,
            )
    }

    /// Submits a query, unless the process uses more memory than it may: `rss` is
    /// what it uses.
    pub fn submit_at(&mut self, query: Query, rss: u64) -> (r: AppResult<Submission>)
        requires
            old(self).wf(),
            query.wf(),
        ensures
            final(self).wf(),
            Coordinator::submitted_at(*old(self), *final(self), query, rss, r),
    {
        match resource::check_rss(rss, self.cfg.engine.memory_limit) {
            Ok(_) => {},
            Err(e) => return Err(e),
        }
        self.enqueue(query)
    }

    /// Submits a query. Refuses it up front if the process is already over the
    /// configured memory limit.
    pub fn submit(&mut self, query: Query) -> (r: AppResult<Submission>)
        requires
            old(self).wf(),
            query.wf(),
        ensures
            final(self).wf(),
            Coordinator::submitted(*old(self), *final(self), query, r),
            Coordinator::enqueued(*old(self), *final(self), query, r) || {
                &&& r matches Err(e) && exists|rss: u64|
                    rss > old(self).cfg().engine.memory_limit && e@
                        == #[trigger] resource::over_limit(
                        rss,
                        old(self).cfg().engine.memory_limit,
                    )
                &&& *final(self) == *old(self)
            },
            old(self).cfg().engine.memory_limit == u64::MAX ==> Coordinator::enqueued(
                *old(self),
                *final(self),
                query,
                r,
            ),
    {
        let rss: u64 = resource::current_rss_bytes();
        self.submit_at(query, rss)
    }

    /// What becomes of a partial result, where `before` and `after` are the states
    /// of the coordinator.
    pub open spec fn finalized(
        before: Coordinator,
        after: Coordinator,
        query_id: QueryId,
        part: Answer,
        r: Option<Response>,
    ) -> bool {
        &&& after.same_engine(before)
        &&& after.next_id() == before.next_id()
        &&& after.issued() == before.issued()
        &&& if !before.inflight().contains_key(query_id.0) {
            r is None && after.inflight() == before.inflight()
        } else {
            let p = before.inflight()[query_id.0];
            let total = p.so_far.merged(part);
            if p.received + 1 >= p.expected {
                &&& r matches Some(response) && response.wf() && response@ == total
                &&& after.inflight() == before.inflight().remove(query_id.0)
            } else {
                &&& r is None
                &&& after.inflight() == before.inflight().insert(
                    query_id.0,
                    (Progress { received: p.received + 1, so_far: total, ..p }),
                )
            }
        }
    }

    /// Folds the partial result of one task into its query. Returns the response
    /// with the last of them. A result of a query that is not under way is
    /// dropped.
    pub fn finalize(&mut self, query_id: QueryId, partial: PartialResult) -> (r: Option<Response>)
        requires
            old(self).wf(),
            partial.wf(),
            partial@.bounded(u32::MAX as int),
        ensures
            final(self).wf(),
            Coordinator::finalized(*old(self), *final(self), query_id, partial@, r),
    {
        broadcast use vstd::std_specs::hash::group_hash_axioms;

        let ghost before = *self;
        match self.inflight.remove(&query_id.0) {
            None => {
                assert(self.inflight() =~= before.inflight());
                None
            },
            Some(mut aggregator) => {
                let ghost p = aggregator.progress();
                proof {
                    let x = p.received as int;
                    let limit = x * u32::MAX;
                    assert(0 <= limit && limit + u32::MAX == (x + 1) * u32::MAX && limit + u32::MAX
                        <= u64::MAX) by (nonlinear_arith)
                        requires
                            limit == x * u32::MAX,
                            0 <= x < u32::MAX,
                    ;
                    p.so_far.lemma_addable(partial@, limit, u32::MAX as int);
                    p.so_far.lemma_merged_bounded(partial@, limit, u32::MAX as int);
                }
                let merged = aggregator.merge(partial);
                match merged {
                    Some(response) => {
                        assert(self.inflight() =~= before.inflight().remove(query_id.0));
                        Some(response)
                    },
                    None => {
                        self.inflight.insert(query_id.0, aggregator);
                        proof {
                            let next = Progress {
                                received: p.received + 1,
                                so_far: p.so_far.merged(partial@),
                                ..p
                            };
                            assert(aggregator.progress() =~= next);
                            assert(self.inflight() =~= before.inflight().insert(
                                query_id.0,
                                next,
                            ));
                        }
                        None
                    },
                }
            },
        }
    }

    /// Gives a query up whose tasks could not be handed out, and says why.
    pub fn abandon(&mut self, query_id: QueryId) -> (r: AppError)
        requires
            old(self).wf(),
        ensures
            final(self).wf(),
            final(self).same_engine(*old(self)),
            final(self).next_id() == old(self).next_id(),
            final(self).issued() == old(self).issued(),
            final(self).inflight() == old(self).inflight().remove(query_id.0),
            r@ == Fault::Execution("worker pool closed"@),
    {
        broadcast use vstd::std_specs::hash::group_hash_axioms;

        let ghost before = *self;
        self.inflight.remove(&query_id.0);
        assert(self.inflight() =~= before.inflight().remove(query_id.0));
        AppError::Execution("worker pool closed".to_owned())
    }

    /// Makes a response ready to be shown: takes hidden columns out and notes how
    /// to show the others.
    pub fn present(&self, response: Response) -> (r: Response)
        requires
            self.wf(),
            response.wf(),
        ensures
            r.wf(),
            r@ == presented(self.cfg().searchable@, response@),
    {
        let mut response = response;
        let ghost a = response@;
        let ghost cols = self.cfg.searchable@;
        let ghost target = presented(cols, a);
        let ghost keys = self.cfg.searchable.keys();
        let mut i: usize = 0;
        while i < self.cfg.searchable.len()
            invariant
                self.cfg.searchable.wf(),
                cols == self.cfg.searchable@,
                keys == self.cfg.searchable.keys(),
                i <= keys.len(),
                response.wf(),
                response@.matched == a.matched,
                response@.hits == a.hits,
                forall|n: Seq<char>| #[trigger]
                    response.numeric@.contains_key(n) <==> a.numeric.contains_key(n) && !(
                    keys.take(i as int).contains(n) && cols[n].hidden),
                forall|n: Seq<char>| #[trigger]
                    response.numeric@.contains_key(n) ==> response.numeric@[n] == a.numeric[n],
                forall|n: Seq<char>| #[trigger]
                    response.column_types@.contains_key(n) <==> a.kinds.contains_key(n) || (
                    keys.take(i as int).contains(n) && shown(cols, a, n)),
                forall|n: Seq<char>| #[trigger]
                    response.column_types@.contains_key(n) ==> response.column_types@[n] == if (
                    keys.take(i as int).contains(n) && shown(cols, a, n)) {
                        shown_as(cols[n].column_type)
                    } else {
                        a.kinds[n]
                    },
            decreases keys.len() - i,
        {
            let name: &String = self.cfg.searchable.name_at(i);
            let col = self.cfg.searchable.value_at(i);
            proof {
                self.cfg.searchable.lemma_at(i as int);
                self.cfg.searchable.lemma_take(i as int);
            }
            let ghost hits = response@.hits;
            if col.hidden {
                response.numeric.remove(name.as_str());
            } else if response.numeric.contains_key(name.as_str()) {
                let kind: ColumnKind = match col.column_type {
                    ColumnType::DateTime => ColumnKind::DateTime,
                    _ => ColumnKind::Numeric,
                };
                response.column_types.insert(name.as_str().to_owned(), kind);
            }
            assert(response@.hits =~= hits);
            i += 1;
        }
        proof {
            assert(keys.take(i as int) =~= keys);
            assert(response@.numeric =~= target.numeric);
            assert(response@.kinds =~= target.kinds);
            assert(response@ =~= target);
        }
        response
    }
}

/// A query is refused for memory only if the process was read to use more than the
/// limit: it is admitted where no such size can be read, refused where no other
/// can, and a refusal leaves everything as it was.
pub proof fn law_memory_decides_admission(
    before: Coordinator,
    after: Coordinator,
    q: Query,
    r: AppResult<Submission>,
)
    requires
        Coordinator::submitted(before, after, q, r),
    ensures
        (forall|rss: u64| #[trigger]
            call_ensures(resource::current_rss_bytes, (), rss) ==> rss
                <= before.cfg().engine.memory_limit) ==> Coordinator::enqueued(before, after, q, r),
        (forall|rss: u64| #[trigger]
            call_ensures(resource::current_rss_bytes, (), rss) ==> rss
                > before.cfg().engine.memory_limit) ==> (r matches Err(e) && e@ is Storage)
            && after == before,
        Coordinator::enqueued(before, after, q, r) || exists|rss: u64| #[trigger]
            call_ensures(resource::current_rss_bytes, (), rss) && rss
                > before.cfg().engine.memory_limit && (r matches Err(e) && e@
                == resource::over_limit(rss, before.cfg().engine.memory_limit)),
{
}

/// Whether a query is under way, before and after, and has come as far.
pub open spec fn kept(before: Coordinator, after: Coordinator, id: QueryId) -> bool {
    &&& after.same_engine(before)
    &&& before.inflight().contains_key(id.0)
    &&& after.inflight().contains_key(id.0)
    &&& after.inflight()[id.0] == before.inflight()[id.0]
}

/// A new query never takes the place of one that is under way, until ids start
/// over after the last.
pub proof fn law_new_query_displaces_none(
    before: Coordinator,
    after: Coordinator,
    q: Query,
    r: AppResult<Submission>,
    id: QueryId,
)
    requires
        before.wf(),
        before.issued() <= u64::MAX,
        Coordinator::enqueued(before, after, q, r),
        before.inflight().contains_key(id.0),
    ensures
        kept(before, after, id),
        r matches Ok(Submission::Waiting { query_id, .. }) ==> query_id != id,
{
    before.lemma_wf();
}

/// A result of one query leaves the others as they are.
pub proof fn law_results_of_others_change_nothing(
    before: Coordinator,
    after: Coordinator,
    other: QueryId,
    part: Answer,
    r: Option<Response>,
    id: QueryId,
)
    requires
        Coordinator::finalized(before, after, other, part, r),
        before.inflight().contains_key(id.0),
        other != id,
    ensures
        kept(before, after, id),
{
}

/// From submission to answer: once every task of a query was executed and its
/// result handed in, in any order and whatever happened to other queries meanwhile,
/// the last result yields an answer to the query, and none before it does.
///
/// `before[i]` and `after[i]` are the states around the hand-in of the `i`-th
/// result, which is that of task `order[i]`.
pub proof fn law_last_task_yields_the_answer(
    c: Coordinator,
    submitted: Coordinator,
    q: Query,
    query_id: QueryId,
    tasks: Vec<Task>,
    order: Seq<int>,
    before: Seq<Coordinator>,
    after: Seq<Coordinator>,
    results: Seq<Option<Response>>,
    k: int,
)
    requires
        Coordinator::enqueued(
            c,
            submitted,
            q,
            Ok::<Submission, AppError>(Submission::Waiting { query_id, tasks }),
        ),
        sorting::any_order(order, tasks@.len()),
        handed_in(c, submitted, query_id, tasks@, order, before, after, results),
    ensures
        0 <= k < tasks@.len() - 1 ==> results[k] is None,
        results.last() matches Some(response) && response.wf() && sorting::answers(
            c.store()@,
            q,
            c.cfg().engine.string_value_counts,
            response@,
        ),
{
    let t = c.store()@;
    let counting = c.cfg().engine.string_value_counts;
    let sets = laws::in_order(t, q, tasks@, order);
    let last = tasks@.len() - 1;
    lemma_handed_in(c, submitted, q, query_id, tasks, order, before, after, results, last);
    assert(Coordinator::finalized(
        before[last],
        after[last],
        query_id,
        result_of(t, tasks@[order[last]], counting),
        results[last],
    ));
    lemma_result_of(t, q, query_id, tasks@, order[last], counting);
    assert(sets.take(last) =~= sets.drop_last());
    assert(results.last()->0@ == laws::folded(t, sets, counting));
    assert(planning::are_tasks(t, q, query_id, tasks@));
    if 0 <= k < last {
        lemma_handed_in(c, submitted, q, query_id, tasks, order, before, after, results, k);
        assert(Coordinator::finalized(
            before[k],
            after[k],
            query_id,
            result_of(t, tasks@[order[k]], counting),
            results[k],
        ));
    }
}

/// Whether the results of the tasks of a query were handed in, in an order, with
/// nothing done to the query in between.
pub open spec fn handed_in(
    c: Coordinator,
    submitted: Coordinator,
    query_id: QueryId,
    tasks: Seq<Task>,
    order: Seq<int>,
    before: Seq<Coordinator>,
    after: Seq<Coordinator>,
    results: Seq<Option<Response>>,
) -> bool {
    &&& before.len() == tasks.len()
    &&& after.len() == tasks.len()
    &&& results.len() == tasks.len()
    &&& kept(submitted, before[0], query_id)
    &&& forall|i: int|
        0 < i < tasks.len() ==> kept(after[i - 1], #[trigger] before[i], query_id)
    &&& forall|i: int|
        0 <= i < tasks.len() ==> Coordinator::finalized(
            #[trigger] before[i],
            after[i],
            query_id,
            result_of(c.store()@, tasks[order[i]], c.cfg().engine.string_value_counts),
            results[i],
        )
}

/// What a worker reports of a task is what is reported of its rows that match the
/// query.
proof fn lemma_result_of(
    t: Table,
    q: Query,
    id: QueryId,
    tasks: Seq<Task>,
    i: int,
    counting: bool,
)
    requires
        planning::are_tasks(t, q, id, tasks),
        0 <= i < tasks.len(),
    ensures
        result_of(t, tasks[i], counting) == matching::report(
            t,
            laws::task_rows(t, q, tasks[i]),
            counting,
        ),
{
    let chunks = planning::dispatched(t, q, t.chunk_count() as int);
    assert(planning::is_task(t, q, id, chunks[i], tasks[i]));
}

/// How far a query has come when the `k`-th result is about to be handed in.
proof fn lemma_handed_in(
    c: Coordinator,
    submitted: Coordinator,
    q: Query,
    query_id: QueryId,
    tasks: Vec<Task>,
    order: Seq<int>,
    before: Seq<Coordinator>,
    after: Seq<Coordinator>,
    results: Seq<Option<Response>>,
    k: int,
)
    requires
        Coordinator::enqueued(
            c,
            submitted,
            q,
            Ok::<Submission, AppError>(Submission::Waiting { query_id, tasks }),
        ),
        sorting::any_order(order, tasks@.len()),
        handed_in(c, submitted, query_id, tasks@, order, before, after, results),
        0 <= k < tasks@.len(),
    ensures
        before[k].inflight().contains_key(query_id.0),
        before[k].inflight()[query_id.0] == (Progress {
            expected: tasks@.len(),
            received: k as nat,
            so_far: laws::folded(
                c.store()@,
                laws::in_order(c.store()@, q, tasks@, order).take(k),
                c.cfg().engine.string_value_counts,
            ),
        }),
    decreases k,
{
    let t = c.store()@;
    let counting = c.cfg().engine.string_value_counts;
    let sets = laws::in_order(t, q, tasks@, order);
    if k > 0 {
        let i = k - 1;
        lemma_handed_in(c, submitted, q, query_id, tasks, order, before, after, results, i);
        assert(Coordinator::finalized(
            before[i],
            after[i],
            query_id,
            result_of(t, tasks@[order[i]], counting),
            results[i],
        ));
        lemma_result_of(t, q, query_id, tasks@, order[i], counting);
        assert(kept(after[k - 1], before[k], query_id));
        assert(sets.take(k).drop_last() =~= sets.take(i));
        assert(sets.take(k).last() == sets[i]);
    } else {
        assert(sets.take(0) =~= Seq::empty());
    }
}

/// Hidden columns do not show among the aggregates; the others show as they are,
/// date-times as such.
pub proof fn law_hidden_columns_do_not_show(
    cols: Map<Seq<char>, SearchableColumn>,
    a: Answer,
    n: Seq<char>,
)
    requires
        cols.contains_key(n),
    ensures
        ({
            let p = presented(cols, a);
            &&& p.matched == a.matched
            &&& p.hits == a.hits
            &&& if cols[n].hidden {
                !p.numeric.contains_key(n)
            } else {
                &&& p.numeric.contains_key(n) <==> a.numeric.contains_key(n)
                &&& a.numeric.contains_key(n) ==> {
                    &&& p.numeric[n] == a.numeric[n]
                    &&& p.kinds.contains_key(n)
                    &&& p.kinds[n] == ColumnKind::DateTime <==> cols[n].column_type
                        == ColumnType::DateTime
                }
            }
        }),
{
}

/// Whether a table has the columns that a configuration asks for.
pub open spec fn has_schema(t: Table, cfg: AppConfig) -> bool {
    let e = Table::empty(cfg);
    t.names == e.names && t.kinds == e.kinds && t.hidden == e.hidden
}

/// Every answer reports the aggregates of all integer, float and date-time columns
/// that are not hidden, and of no other column, also if no row matches.
pub proof fn law_every_shown_column_is_reported(
    cfg: AppConfig,
    t: Table,
    q: Query,
    a: Answer,
    n: Seq<char>,
)
    requires
        cfg.searchable.wf(),
        t.wf(),
        t.zoned(),
        has_schema(t, cfg),
        sorting::answers(t, q, cfg.engine.string_value_counts, a),
    ensures
        ({
            let cols = cfg.searchable@;
            let p = presented(cols, a);
            &&& p.numeric.contains_key(n) <==> cols.contains_key(n) && !cols[n].hidden
                && cols[n].column_type != ColumnType::String
            &&& p.numeric.contains_key(n) ==> p.kinds.contains_key(n) && p.kinds[n] == shown_as(
                cols[n].column_type,
            )
        }),
{
    let counting = cfg.engine.string_value_counts;
    sorting::lemma_answer_is_right(t, None, t, q, counting, a);
    let b = matching::report(t, sorting::all_matching(t, q), counting);
    assert(a.numeric.dom().contains(n) <==> b.numeric.dom().contains(n));
    assert(a.numeric.contains_key(n) <==> matching::aggregated(t, n));
}

/// There is always a worker, and as many as the configuration asks for otherwise.
pub proof fn law_there_are_workers(c: Coordinator, n: usize)
    requires
        call_ensures(Coordinator::worker_threads, (&c,), n),
    ensures
        n >= 1,
        c.cfg().engine.worker_threads >= 1 ==> n == c.cfg().engine.worker_threads,
{
}

} // verus!
