use vstd::prelude::*;
use vstd::multiset::Multiset;
use crate::engine::{EngineError, EventHandlers, RunError, ScheduleError, SimulationEngine};
use crate::event::Event;
use crate::metrics::MetricStore;
use crate::time::SimTime;

verus! {

/// A worker whose run failed, with the failure it reported.
pub struct WorkerFailure {
    pub worker: usize,
    pub error: RunError,
}

/// The failures among per-worker run outcomes, in worker order.
pub open spec fn failures_of(outcomes: Seq<Result<(), RunError>>) -> Seq<WorkerFailure>
    decreases outcomes.len(),
{
    if outcomes.len() == 0 {
        Seq::empty()
    } else {
        let rest = failures_of(outcomes.drop_last());
        match outcomes.last() {
            Ok(_) => rest,
            Err(e) => rest.push(WorkerFailure { worker: (outcomes.len() - 1) as usize, error: e }),
        }
    }
}

/// Worker engine `before` became `after` by a run to `end_time` with outcome `o`: a
/// success leaves nothing due, a failure names the last event the worker dispatched.
pub open spec fn worker_ran<M>(before: SimulationEngine<M>, after: SimulationEngine<M>, end_time: SimTime, o: Result<(), RunError>) -> bool {
    &&& after.wf()
    &&& before.history().len() <= after.history().len()
    &&& match o {
        Ok(_) => after.finished(end_time),
        Err(e) => {
            &&& after.history().len() > before.history().len()
            &&& e.time == after.dispatched_events().last().time
            &&& e.event_type == after.dispatched_events().last().event_type
            &&& e.model_id == after.dispatched_events().last().model_id
        },
    }
}

/// The observations under `n` of every store, concatenated in store order.
pub open spec fn merged_values(stores: Seq<MetricStore>, n: Seq<char>) -> Seq<u64>
    decreases stores.len(),
{
    if stores.len() == 0 {
        Seq::empty()
    } else {
        merged_values(stores.drop_last(), n) + stores.last().values_of(n)
    }
}

/// Some store holds a series named `n`, even an empty one.
pub open spec fn merged_contains(stores: Seq<MetricStore>, n: Seq<char>) -> bool
    decreases stores.len(),
{
    if stores.len() == 0 {
        false
    } else {
        merged_contains(stores.drop_last(), n) || stores.last().contains(n)
    }
}

/// The metric stores of a sequence of engines.
pub open spec fn stores_of<M>(engines: Seq<SimulationEngine<M>>) -> Seq<MetricStore> {
    engines.map_values(|e: SimulationEngine<M>| e.metric_store())
}

/// Each failure names a worker whose outcome is that failure; workers ascend; and every
/// failed outcome is listed.
pub proof fn lemma_failures_exact(outcomes: Seq<Result<(), RunError>>)
    requires
        outcomes.len() <= usize::MAX,
    ensures
        forall|k: int| 0 <= k < failures_of(outcomes).len() ==> {
            let f = #[trigger] failures_of(outcomes)[k];
            &&& f.worker < outcomes.len()
            &&& outcomes[f.worker as int] == Err::<(), RunError>(f.error)
        },
        forall|a: int, b: int| 0 <= a < b < failures_of(outcomes).len() ==>
            (#[trigger] failures_of(outcomes)[a]).worker < (#[trigger] failures_of(outcomes)[b]).worker,
        forall|j: int| 0 <= j < outcomes.len() && (#[trigger] outcomes[j]) is Err ==>
            exists|k: int| 0 <= k < failures_of(outcomes).len() && failures_of(outcomes)[k].worker == j,
    decreases outcomes.len(),
{
    if outcomes.len() > 0 {
        let init = outcomes.drop_last();
        lemma_failures_exact(init);
        let rest = failures_of(init);
        let f = failures_of(outcomes);
        assert forall|k: int| 0 <= k < rest.len() implies (#[trigger] f[k]) == rest[k] by {}
        assert forall|j: int| 0 <= j < outcomes.len() && (#[trigger] outcomes[j]) is Err implies
            exists|k: int| 0 <= k < f.len() && f[k].worker == j by {
            if j < init.len() {
                assert(init[j] == outcomes[j]);
                let k = choose|k: int| 0 <= k < rest.len() && rest[k].worker == j;
                assert(f[k] == rest[k]);
            } else {
                assert(f[rest.len() as int].worker == j);
            }
        }
        assert forall|k: int| 0 <= k < f.len() implies {
            let w = #[trigger] f[k];
            &&& w.worker < outcomes.len()
            &&& outcomes[w.worker as int] == Err::<(), RunError>(w.error)
        } by {
            if k < rest.len() {
                assert(init[rest[k].worker as int] == outcomes[rest[k].worker as int]);
            }
        }
    }
}

/// Combines per-worker outcomes: success when every worker succeeded, otherwise every
/// failure together with the worker that produced it.
pub fn combine_outcomes(outcomes: Vec<Result<(), RunError>>) -> (r: Result<(), Vec<WorkerFailure>>)
    ensures
        r is Ok <==> failures_of(outcomes@).len() == 0,
        r matches Err(f) ==> f@ == failures_of(outcomes@),
{
    let ghost all = outcomes@;
    let total = outcomes.len();
    let mut rest = outcomes;
    let mut failures: Vec<WorkerFailure> = Vec::new();
    let mut k: usize = 0;
    while rest.len() > 0
        invariant
            k + rest@.len() == all.len(),
            all.len() == total,
            rest@ == all.skip(k as int),
            failures@ == failures_of(all.take(k as int)),
        decreases rest@.len(),
    {
        let o = rest.remove(0);
        proof {
            assert(all.take(k + 1).drop_last() =~= all.take(k as int));
            assert(o == all[k as int]);
        }
        match o {
            Ok(()) => {},
            Err(e) => {
                failures.push(WorkerFailure { worker: k, error: e });
            },
        }
        k = k + 1;
        assert(rest@ =~= all.skip(k as int));
    }
    assert(all.take(k as int) =~= all);
    if failures.len() == 0 {
        Ok(())
    } else {
        Err(failures)
    }
}

/// Several independent engines run to a common deadline. A failure in one engine stops
/// only that engine; every worker is run and every failure is reported.
pub struct ParallelSimulation<M> {
    engines: Vec<SimulationEngine<M>>,
    num_workers: usize,
}

impl<M> ParallelSimulation<M> {
    pub closed spec fn workers(&self) -> Seq<SimulationEngine<M>> {
        self.engines@
    }

    pub closed spec fn wf(&self) -> bool {
        &&& self.engines@.len() == self.num_workers
        &&& self.num_workers >= 1
        &&& forall|i: int| 0 <= i < self.engines@.len() ==> (#[trigger] self.engines@[i]).wf()
    }

    /// `num_workers` empty engines.
    pub fn new(num_workers: usize) -> (r: ParallelSimulation<M>)
        requires
            num_workers >= 1,
        ensures
            r.wf(),
            r.workers().len() == num_workers,
            forall|i: int| 0 <= i < num_workers ==> {
                let e = #[trigger] r.workers()[i];
                &&& e.clock().bits == 0
                &&& e.pending().len() == 0
                &&& e.model_names().len() == 0
                &&& e.history().len() == 0
                &&& e.custom_kinds().len() == 0
                &&& forall|n: Seq<char>| !e.metric_store().contains(n)
            },
    {
        let mut engines: Vec<SimulationEngine<M>> = Vec::new();
        let mut i: usize = 0;
        while i < num_workers
            invariant
                i <= num_workers,
                engines@.len() == i,
                forall|k: int| 0 <= k < i ==> {
                    let e = #[trigger] engines@[k];
                    &&& e.wf()
                    &&& e.clock().bits == 0
                    &&& e.pending().len() == 0
                    &&& e.model_names().len() == 0
                    &&& e.history().len() == 0
                    &&& e.custom_kinds().len() == 0
                    &&& forall|n: Seq<char>| !e.metric_store().contains(n)
                },
            decreases num_workers - i,
        {
            engines.push(SimulationEngine::new());
            i = i + 1;
        }
        ParallelSimulation { engines, num_workers }
    }

    /// Workers made of engines the caller has already populated.
    pub fn with_engines(engines: Vec<SimulationEngine<M>>) -> (r: ParallelSimulation<M>)
        requires
            engines@.len() >= 1,
            forall|i: int| 0 <= i < engines@.len() ==> (#[trigger] engines@[i]).wf(),
        ensures
            r.wf(),
            r.workers() == engines@,
    {
        let n = engines.len();
        ParallelSimulation { engines, num_workers: n }
    }

    pub fn num_workers(&self) -> (r: usize)
        requires
            self.wf(),
        ensures
            r == self.workers().len(),
    {
        self.num_workers
    }

    /// Registers `model` under `name` with one worker's engine.
    pub fn add_model(&mut self, worker: usize, name: String, model: M) -> (r: Result<(), EngineError>)
        requires
            old(self).wf(),
            worker < old(self).workers().len(),
        ensures
            final(self).wf(),
            final(self).workers().len() == old(self).workers().len(),
            r is Err <==> old(self).workers()[worker as int].model_names().contains(name@),
            r is Ok ==> final(self).workers()[worker as int].model_names()
                == old(self).workers()[worker as int].model_names().push(name@),
            forall|i: int| 0 <= i < final(self).workers().len() && i != worker ==>
                #[trigger] final(self).workers()[i] == old(self).workers()[i],
    {
        let ghost before = self.engines@;
        let mut engine = self.engines.remove(worker);
        let r = engine.add_model(name, model);
        self.engines.insert(worker, engine);
        proof {
            assert forall|i: int| 0 <= i < self.engines@.len() && i != worker implies (#[trigger] self.engines@[i]) == before[i] by {}
        }
        r
    }

    /// Schedules `event` on one worker's engine, with the engine's rules for rejection.
    pub fn schedule_event(&mut self, worker: usize, event: Event) -> (r: Result<(), ScheduleError>)
        requires
            old(self).wf(),
            worker < old(self).workers().len(),
        ensures
            final(self).wf(),
            final(self).workers().len() == old(self).workers().len(),
            r == Err::<(), ScheduleError>(ScheduleError::Malformed) <==> !event.time.valid(),
            r == Err::<(), ScheduleError>(ScheduleError::BackDated) <==> event.time.valid()
                && event.time.bits < old(self).workers()[worker as int].clock().bits,
            r is Ok <==> event.time.valid() && event.time.bits >= old(self).workers()[worker as int].clock().bits
                && old(self).workers()[worker as int].next_seq() < u64::MAX,
            r is Err ==> final(self).workers() == old(self).workers(),
            r is Ok ==> final(self).workers()[worker as int].pending().len()
                == old(self).workers()[worker as int].pending().len() + 1,
            forall|i: int| 0 <= i < final(self).workers().len() && i != worker ==>
                #[trigger] final(self).workers()[i] == old(self).workers()[i],
    {
        let ghost before = self.engines@;
        let mut engine = self.engines.remove(worker);
        let r = engine.schedule_event(event);
        self.engines.insert(worker, engine);
        proof {
            assert forall|i: int| 0 <= i < self.engines@.len() && i != worker implies (#[trigger] self.engines@[i]) == before[i] by {}
            if r is Err {
                assert(self.engines@ =~= before);
            }
        }
        r
    }

    pub fn engine(&self, worker: usize) -> (r: &SimulationEngine<M>)
        requires
            self.wf(),
            worker < self.workers().len(),
        ensures
            *r == self.workers()[worker as int],
    {
        &self.engines[worker]
    }

    /// Runs every worker to `end_time` with its own handlers, one worker after another and
    /// whatever the others' outcome; then reports success, or every failure with its worker.
    pub fn run_parallel<H: EventHandlers<M>>(&mut self, end_time: SimTime, handlers: &mut Vec<H>) -> (r: Result<(), Vec<WorkerFailure>>)
        requires
            old(self).wf(),
            old(handlers)@.len() == old(self).workers().len(),
        ensures
            final(self).wf(),
            final(self).workers().len() == old(self).workers().len(),
            final(handlers)@.len() == old(handlers)@.len(),
            forall|i: int| 0 <= i < final(self).workers().len() ==>
                (#[trigger] final(self).workers()[i]).model_names() == old(self).workers()[i].model_names(),
            exists|o: Seq<Result<(), RunError>>| {
                &&& o.len() == old(self).workers().len()
                &&& (r is Ok <==> #[trigger] failures_of(o).len() == 0)
                &&& (r matches Err(f) ==> f@ == failures_of(o))
                &&& forall|i: int| 0 <= i < o.len() ==> worker_ran(
                    old(self).workers()[i], #[trigger] final(self).workers()[i], end_time, o[i])
            },
            r is Ok ==> forall|i: int| 0 <= i < final(self).workers().len() ==> (#[trigger] final(self).workers()[i]).finished(end_time),
            r matches Err(f) ==> {
                &&& f@.len() > 0
                &&& forall|a: int, b: int| 0 <= a < b < f@.len() ==> (#[trigger] f@[a]).worker < (#[trigger] f@[b]).worker
                &&& forall|i: int| 0 <= i < final(self).workers().len() ==>
                    (#[trigger] final(self).workers()[i]).finished(end_time) || exists|k: int| 0 <= k < f@.len() && f@[k].worker == i
            },
    {
        let mut outcomes: Vec<Result<(), RunError>> = Vec::new();
        let mut w: usize = 0;
        while w < self.engines.len()
            invariant
                self.wf(),
                self.num_workers == old(self).num_workers,
                handlers@.len() == self.engines@.len(),
                w <= self.engines@.len(),
                outcomes@.len() == w,
                forall|i: int| 0 <= i < self.engines@.len() ==>
                    (#[trigger] self.engines@[i]).model_names() == old(self).engines@[i].model_names(),
                forall|i: int| w <= i < self.engines@.len() ==> #[trigger] self.engines@[i] == old(self).engines@[i],
                forall|j: int| 0 <= j < w ==> worker_ran(old(self).engines@[j], #[trigger] self.engines@[j], end_time, outcomes@[j]),
            decreases self.engines@.len() - w,
        {
            let ghost before = self.engines@;
            let mut engine = self.engines.remove(w);
            let mut own = handlers.remove(w);
            let outcome = engine.run(end_time, &mut own);
            handlers.insert(w, own);
            self.engines.insert(w, engine);
            proof {
                assert forall|i: int| 0 <= i < self.engines@.len() && i != w implies (#[trigger] self.engines@[i]) == before[i] by {}
            }
            outcomes.push(outcome);
            proof {
                assert forall|j: int| 0 <= j < w + 1 implies worker_ran(old(self).engines@[j], #[trigger] self.engines@[j], end_time, outcomes@[j]) by {
                    if j < w {
                        assert(self.engines@[j] == before[j]);
                    }
                }
            }
            w = w + 1;
        }
        let ghost all = outcomes@;
        proof { lemma_failures_exact(all); }
        let r = combine_outcomes(outcomes);
        proof {
            assert(forall|i: int| 0 <= i < all.len() ==> worker_ran(
                old(self).workers()[i], #[trigger] self.workers()[i], end_time, all[i]));
            if r is Ok {
                assert forall|i: int| 0 <= i < self.engines@.len() implies (#[trigger] self.engines@[i]).finished(end_time) by {
                    assert(worker_ran(old(self).engines@[i], self.engines@[i], end_time, all[i]));
                    if all[i] is Err {
                        let k = choose|k: int| 0 <= k < failures_of(all).len() && failures_of(all)[k].worker == i;
                    }
                }
            }
            if let Err(f) = &r {
                assert forall|i: int| 0 <= i < self.engines@.len() implies (#[trigger] self.engines@[i]).finished(end_time)
                    || exists|k: int| 0 <= k < f@.len() && f@[k].worker == i by {
                    assert(worker_ran(old(self).engines@[i], self.engines@[i], end_time, all[i]));
                    if all[i] is Err {
                        let k = choose|k: int| 0 <= k < failures_of(all).len() && failures_of(all)[k].worker == i;
                    }
                }
            }
        }
        r
    }

    /// Every worker's metric store merged by name: the observations under each name are
    /// those of worker 0, then worker 1, and so on.
    pub fn aggregate_results(&self) -> (r: MetricStore)
        requires
            self.wf(),
        ensures
            r.wf(),
            forall|n: Seq<char>| #[trigger] r.values_of(n) == merged_values(stores_of(self.workers()), n),
            forall|n: Seq<char>| #[trigger] r.contains(n) == merged_contains(stores_of(self.workers()), n),
    {
        let mut out = MetricStore::new();
        let mut w: usize = 0;
        while w < self.engines.len()
            invariant
                self.wf(),
                out.wf(),
                w <= self.engines@.len(),
                forall|n: Seq<char>| #[trigger] out.values_of(n) == merged_values(stores_of(self.engines@.take(w as int)), n),
                forall|n: Seq<char>| #[trigger] out.contains(n) == merged_contains(stores_of(self.engines@.take(w as int)), n),
            decreases self.engines@.len() - w,
        {
            let ghost prev = out;
            out.absorb(self.engines[w].metrics());
            proof {
                let s = stores_of(self.engines@.take(w + 1));
                assert(s.drop_last() =~= stores_of(self.engines@.take(w as int)));
                assert(s.last() == self.engines@[w as int].metric_store());
                assert forall|n: Seq<char>| #[trigger] out.values_of(n) == merged_values(s, n) by {
                    assert(merged_values(s, n) == merged_values(s.drop_last(), n) + s.last().values_of(n));
                }
                assert forall|n: Seq<char>| #[trigger] out.contains(n) == merged_contains(s, n) by {
                    assert(merged_contains(s, n) == (merged_contains(s.drop_last(), n) || s.last().contains(n)));
                }
            }
            w = w + 1;
        }
        assert(self.engines@.take(self.engines@.len() as int) =~= self.engines@);
        out
    }
}

/// Total number of observations under `n` across the stores.
pub open spec fn total_observations(stores: Seq<MetricStore>, n: Seq<char>) -> nat
    decreases stores.len(),
{
    if stores.len() == 0 {
        0
    } else {
        total_observations(stores.drop_last(), n) + stores.last().values_of(n).len()
    }
}

/// Every observation under `n` across the stores, counted with multiplicity.
pub open spec fn union_of_observations(stores: Seq<MetricStore>, n: Seq<char>) -> Multiset<u64>
    decreases stores.len(),
{
    if stores.len() == 0 {
        Multiset::empty()
    } else {
        union_of_observations(stores.drop_last(), n).add(stores.last().values_of(n).to_multiset())
    }
}

/// Merging loses and duplicates nothing: under every name, the merged series has as many
/// observations as all the stores together, and the same observations.
pub proof fn lemma_aggregation_complete(stores: Seq<MetricStore>, n: Seq<char>)
    ensures
        merged_values(stores, n).len() == total_observations(stores, n),
        merged_values(stores, n).to_multiset() == union_of_observations(stores, n),
    decreases stores.len(),
{
    broadcast use vstd::seq_lib::group_to_multiset_ensures;
    if stores.len() == 0 {
        assert(Seq::<u64>::empty().to_multiset() =~= Multiset::<u64>::empty());
    } else {
        lemma_aggregation_complete(stores.drop_last(), n);
        vstd::seq_lib::lemma_multiset_commutative(merged_values(stores.drop_last(), n), stores.last().values_of(n));
    }
}

} // verus!
