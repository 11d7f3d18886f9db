use vstd::prelude::*;
use crate::event::{Event, EventType};
use crate::metrics::MetricStore;
use crate::scheduler::{count_not_after, enqueue, lemma_count_bounds, precedes, EventQueue, Scheduled};
use crate::time::{SimTime, INFINITY_BITS};

verus! {

/// A model's state under the name that events address it by.
pub struct Registered<M> {
    pub name: String,
    pub state: M,
}

/// One observation a handler reports: a metric name and the bit pattern of its value.
pub struct Observation {
    pub metric: String,
    pub value: u64,
}

/// What a handler hands back after acting on its model: observations to append to the
/// engine's metric store, and follow-up events to schedule, each in order.
pub struct Effects {
    pub observations: Vec<Observation>,
    pub follow_ups: Vec<Event>,
}

/// The handlers an engine dispatches to, one per built-in event kind and one for the custom
/// kinds registered with the engine. Each is called only with events of its own kind. A
/// handler may change its model; an `Err` carries the cause of a failure.
pub trait EventHandlers<M> {
    fn update_model(&mut self, model: &mut M, event: &Event) -> Result<Effects, String>
        requires
            event.event_type is ModelUpdate,
    ;

    fn process_data(&mut self, model: &mut M, event: &Event) -> Result<Effects, String>
        requires
            event.event_type is DataArrival,
    ;

    fn train_model(&mut self, model: &mut M, event: &Event) -> Result<Effects, String>
        requires
            event.event_type is TrainingStep,
    ;

    fn evaluate_model(&mut self, model: &mut M, event: &Event) -> Result<Effects, String>
        requires
            event.event_type is Evaluation,
    ;

    fn custom(&mut self, kind: &String, model: &mut M, event: &Event) -> Result<Effects, String>
        requires
            event.event_type == EventType::Custom(*kind),
    ;
}

/// Why an event was not scheduled.
#[derive(Clone, Copy, Debug, PartialEq, Eq, Structural)]
pub enum ScheduleError {
    /// The time is NaN, infinite or negative.
    Malformed,
    /// The time lies before the engine's clock.
    BackDated,
    /// The engine has handed out every sequence number.
    Exhausted,
}

/// Why a model was not registered.
#[derive(Clone, Copy, Debug, PartialEq, Eq, Structural)]
pub enum EngineError {
    DuplicateModel,
}

/// What made a dispatched event fail.
#[derive(Clone, Debug)]
pub enum FailureCause {
    /// The handler reported this failure.
    Handler(String),
    /// A follow-up event the handler returned could not be scheduled.
    FollowUp(ScheduleError),
}

/// A failed run: the event whose handling failed, and why.
#[derive(Clone, Debug)]
pub struct RunError {
    pub time: SimTime,
    pub event_type: EventType,
    pub model_id: String,
    pub cause: FailureCause,
}

/// The names of the registered models, in order of registration.
pub open spec fn names_of<M>(models: Seq<Registered<M>>) -> Seq<Seq<char>> {
    models.map_values(|r: Registered<M>| r.name@)
}

/// Dispatch keys `(time bits, sequence number)` in strictly increasing order.
pub open spec fn keys_ordered(h: Seq<(u64, u64)>) -> bool {
    forall|i: int, j: int|
        0 <= i < j < h.len() ==> precedes((#[trigger] h[i]).0, h[i].1, (#[trigger] h[j]).0, h[j].1)
}

/// Events leave an engine in order: dispatch times never decrease, and among events with
/// equal times, the one scheduled earlier (the smaller sequence number) leaves first.
pub proof fn lemma_dispatch_order<M>(engine: &SimulationEngine<M>)
    requires
        engine.wf(),
    ensures
        forall|i: int, j: int| 0 <= i < j < engine.history().len() ==> {
            &&& (#[trigger] engine.history()[i]).0 <= (#[trigger] engine.history()[j]).0
            &&& engine.history()[i].0 == engine.history()[j].0 ==> engine.history()[i].1 < engine.history()[j].1
        },
        forall|i: int, j: int| 0 <= i < engine.history().len() && 0 <= j < engine.pending().len() ==>
            precedes((#[trigger] engine.history()[i]).0, engine.history()[i].1,
                (#[trigger] engine.pending()[j]).event.time.bits, engine.pending()[j].seq),
{
}

/// The queue is kept in dispatch order, and nothing pending lies before the clock.
pub proof fn lemma_pending_ordered<M>(engine: &SimulationEngine<M>)
    requires
        engine.wf(),
    ensures
        crate::scheduler::queue_ordered(engine.pending()),
        forall|i: int| 0 <= i < engine.pending().len() ==> (#[trigger] engine.pending()[i]).event.time.valid()
            && engine.clock().bits <= engine.pending()[i].event.time.bits && engine.pending()[i].seq < engine.next_seq(),
{
}

/// The clock only moves forward: the clock after each dispatch (that event's time) is at
/// least the clock after every earlier dispatch, and the clock now is the last of them.
pub proof fn lemma_clock_monotone<M>(engine: &SimulationEngine<M>)
    requires
        engine.wf(),
    ensures
        forall|i: int, j: int| 0 <= i <= j < engine.history().len() ==>
            (#[trigger] engine.history()[i]).0 <= (#[trigger] engine.history()[j]).0,
        forall|i: int| 0 <= i < engine.history().len() ==> (#[trigger] engine.history()[i]).0 <= engine.clock().bits,
        engine.history().len() > 0 ==> engine.history().last().0 == engine.clock().bits,
{
    assert forall|i: int, j: int| 0 <= i <= j < engine.history().len() implies
        (#[trigger] engine.history()[i]).0 <= (#[trigger] engine.history()[j]).0 by {
        if i < j {
            assert(precedes(engine.history()[i].0, engine.history()[i].1, engine.history()[j].0, engine.history()[j].1));
        }
    }
}

/// A discrete-event simulation engine: one event queue, one model registry, one metric
/// store and a private clock that moves only when an event is dispatched.
pub struct SimulationEngine<M> {
    time: SimTime,
    queue: EventQueue,
    models: Vec<Registered<M>>,
    metrics: MetricStore,
    custom_kinds: Vec<String>,
    dispatched: Ghost<Seq<(u64, u64)>>,
    dispatched_events: Ghost<Seq<Event>>,
}

/// An event at time `t` given sequence number `seq` is accepted by an engine whose clock
/// reads `clock`: its time is finite, non-negative and not before the clock, and a
/// sequence number is left.
pub open spec fn accepts(clock: SimTime, seq: int, t: SimTime) -> bool {
    t.valid() && t.bits >= clock.bits && seq < u64::MAX
}

/// Why such an event is refused, where it is.
pub open spec fn rejection(clock: SimTime, seq: int, t: SimTime) -> ScheduleError {
    if !t.valid() {
        ScheduleError::Malformed
    } else if t.bits < clock.bits {
        ScheduleError::BackDated
    } else {
        ScheduleError::Exhausted
    }
}

/// The values observed under `n`, in order.
pub open spec fn observed(obs: Seq<Observation>, n: Seq<char>) -> Seq<u64>
    decreases obs.len(),
{
    if obs.len() == 0 {
        Seq::empty()
    } else {
        observed(obs.drop_last(), n) + if obs.last().metric@ == n { seq![obs.last().value] } else { Seq::<u64>::empty() }
    }
}

/// `p` after scheduling `evs` in order, the first with sequence number `seq0`.
pub open spec fn enqueue_all(p: Seq<Scheduled>, seq0: int, evs: Seq<Event>) -> Seq<Scheduled>
    decreases evs.len(),
{
    if evs.len() == 0 {
        p
    } else {
        enqueue(enqueue_all(p, seq0, evs.drop_last()), Scheduled { seq: (seq0 + evs.len() - 1) as u64, event: evs.last() })
    }
}

/// `evs[j]` is the first of `evs` that an engine at `clock` refuses, numbering from `seq0`.
pub open spec fn first_rejected(clock: SimTime, seq0: int, evs: Seq<Event>, j: int) -> bool {
    &&& 0 <= j < evs.len()
    &&& !accepts(clock, seq0 + j, evs[j].time)
    &&& forall|k: int| 0 <= k < j ==> accepts(clock, seq0 + k, #[trigger] evs[k].time)
}

/// The failure reported for `event`.
pub open spec fn failure_of(event: Event, cause: FailureCause) -> RunError {
    RunError { time: event.time, event_type: event.event_type, model_id: event.model_id, cause }
}

/// Engine `new` is engine `old` after handling `event` ended in `outcome`, with result `r`.
/// A handler failure fails the event and changes nothing. Otherwise the observations are
/// appended to the metric store, then the follow-ups are scheduled in order until the
/// first one refused, which fails the event.
pub open spec fn applied<M>(
    old: SimulationEngine<M>,
    outcome: Result<Effects, String>,
    event: Event,
    new: SimulationEngine<M>,
    r: Result<(), RunError>,
) -> bool {
    &&& new.clock() == old.clock()
    &&& new.history() == old.history()
    &&& new.dispatched_events() == old.dispatched_events()
    &&& new.models() == old.models()
    &&& new.custom_kinds() == old.custom_kinds()
    &&& match outcome {
        Err(c) => r == Err::<(), RunError>(failure_of(event, FailureCause::Handler(c))) && new == old,
        Ok(eff) => {
            let f = eff.follow_ups@;
            let s0 = old.next_seq() as int;
            &&& forall|n: Seq<char>| #[trigger] new.metric_store().values_of(n)
                == old.metric_store().values_of(n) + observed(eff.observations@, n)
            &&& (r is Ok <==> forall|k: int| 0 <= k < f.len() ==> accepts(old.clock(), s0 + k, #[trigger] f[k].time))
            &&& r is Ok ==> new.pending() == enqueue_all(old.pending(), s0, f) && new.next_seq() == s0 + f.len()
            &&& r is Err ==> exists|j: int| #[trigger] first_rejected(old.clock(), s0, f, j)
                && r == Err::<(), RunError>(failure_of(event, FailureCause::FollowUp(rejection(old.clock(), s0 + j, f[j].time))))
                && new.pending() == enqueue_all(old.pending(), s0, f.take(j))
                && new.next_seq() == s0 + j
        },
    }
}

/// `a` and `b` agree in everything but their queues and metric stores.
pub open spec fn same_but_queue_and_metrics<M>(a: SimulationEngine<M>, b: SimulationEngine<M>) -> bool {
    &&& a.clock() == b.clock()
    &&& a.history() == b.history()
    &&& a.dispatched_events() == b.dispatched_events()
    &&& a.models() == b.models()
    &&& a.custom_kinds() == b.custom_kinds()
}

/// `a` and `b` agree in everything but their models' states.
pub open spec fn same_but_models<M>(a: SimulationEngine<M>, b: SimulationEngine<M>) -> bool {
    &&& a.clock() == b.clock()
    &&& a.history() == b.history()
    &&& a.dispatched_events() == b.dispatched_events()
    &&& a.pending() == b.pending()
    &&& a.next_seq() == b.next_seq()
    &&& a.metric_store() == b.metric_store()
    &&& a.custom_kinds() == b.custom_kinds()
}

/// `a` and `b` agree in everything but their custom kinds.
pub open spec fn same_but_custom_kinds<M>(a: SimulationEngine<M>, b: SimulationEngine<M>) -> bool {
    &&& a.clock() == b.clock()
    &&& a.history() == b.history()
    &&& a.dispatched_events() == b.dispatched_events()
    &&& a.models() == b.models()
    &&& a.pending() == b.pending()
    &&& a.next_seq() == b.next_seq()
    &&& a.metric_store() == b.metric_store()
}

/// `a` and `b` agree in everything but their queues.
pub open spec fn same_but_queue<M>(a: SimulationEngine<M>, b: SimulationEngine<M>) -> bool {
    &&& a.clock() == b.clock()
    &&& a.history() == b.history()
    &&& a.dispatched_events() == b.dispatched_events()
    &&& a.models() == b.models()
    &&& a.metric_store() == b.metric_store()
    &&& a.custom_kinds() == b.custom_kinds()
}

impl<M> SimulationEngine<M> {
    pub closed spec fn clock(&self) -> SimTime {
        self.time
    }

    /// The pending events, in dispatch order.
    pub closed spec fn pending(&self) -> Seq<Scheduled> {
        self.queue.pending()
    }

    /// The sequence number the next scheduled event receives; numbers follow scheduling order.
    pub closed spec fn next_seq(&self) -> u64 {
        self.queue.next_seq()
    }

    /// The registered models with their states, in order of registration.
    pub closed spec fn models(&self) -> Seq<Registered<M>> {
        self.models@
    }

    pub open spec fn model_names(&self) -> Seq<Seq<char>> {
        names_of(self.models())
    }

    /// The custom event kinds that have a handler; other custom kinds are skipped.
    pub closed spec fn custom_kinds(&self) -> Seq<Seq<char>> {
        self.custom_kinds@.map_values(|k: String| k@)
    }

    /// Every event dispatched so far, in order.
    pub closed spec fn dispatched_events(&self) -> Seq<Event> {
        self.dispatched_events@
    }

    pub closed spec fn metric_store(&self) -> MetricStore {
        self.metrics
    }

    /// The `(time bits, sequence number)` of every event dispatched so far, in order.
    pub closed spec fn history(&self) -> Seq<(u64, u64)> {
        self.dispatched@
    }

    /// History, queue and clock agree: everything dispatched precedes everything pending,
    /// the clock stands at the last dispatch, and nothing pending lies before the clock.
    pub closed spec fn wf(&self) -> bool {
        let h = self.dispatched@;
        let p = self.queue.pending();
        &&& self.queue.wf()
        &&& self.metrics.wf()
        &&& self.time.valid()
        &&& keys_ordered(h)
        &&& forall|i: int| 0 <= i < p.len() ==> self.time.bits <= (#[trigger] p[i]).event.time.bits
        &&& forall|i: int| 0 <= i < h.len() ==> (#[trigger] h[i]).0 <= self.time.bits && h[i].1 < self.queue.next_seq()
        &&& forall|i: int, j: int| 0 <= i < h.len() && 0 <= j < p.len() ==> precedes(
            (#[trigger] h[i]).0, h[i].1, (#[trigger] p[j]).event.time.bits, p[j].seq)
        &&& h.len() > 0 ==> h.last().0 == self.time.bits
        &&& self.dispatched_events@.len() == h.len()
        &&& forall|i: int| 0 <= i < h.len() ==> (#[trigger] h[i]).0 == self.dispatched_events@[i].time.bits
        &&& forall|i: int, j: int| 0 <= i < j < self.models@.len() ==> (#[trigger] self.models@[i]).name@ != (#[trigger] self.models@[j]).name@
    }

    /// `event` reaches a handler: its target is registered, and a custom kind has a handler.
    pub open spec fn routes(&self, event: Event) -> bool {
        &&& self.model_names().contains(event.model_id@)
        &&& event.event_type matches EventType::Custom(k) ==> self.custom_kinds().contains(k@)
    }

    /// Room left in the queue; each dispatch lowers it.
    pub open spec fn room(&self) -> int {
        (u64::MAX - self.next_seq()) + self.pending().len()
    }

    /// No further event is due before `end_time`: the clock has reached it, or the
    /// earliest pending event lies after it, or nothing is pending.
    pub open spec fn finished(&self, end_time: SimTime) -> bool {
        !(self.clock().before(end_time) && self.pending().len() > 0 && self.pending()[0].event.time.at_or_before(end_time))
    }

    pub fn new() -> (r: SimulationEngine<M>)
        ensures
            r.wf(),
            r.clock().bits == 0,
            r.pending().len() == 0,
            r.next_seq() == 0,
            r.model_names().len() == 0,
            r.history().len() == 0,
            r.custom_kinds().len() == 0,
            forall|n: Seq<char>| !r.metric_store().contains(n),
    {
        SimulationEngine {
            time: SimTime::zero(),
            queue: EventQueue::new(),
            models: Vec::new(),
            metrics: MetricStore::new(),
            custom_kinds: Vec::new(),
            dispatched: Ghost(Seq::empty()),
            dispatched_events: Ghost(Seq::empty()),
        }
    }

    pub fn now(&self) -> (r: SimTime)
        ensures
            r == self.clock(),
    {
        self.time
    }

    /// Number of events waiting to be dispatched.
    pub fn pending_count(&self) -> (r: usize)
        ensures
            r == self.pending().len(),
    {
        self.queue.len()
    }

    pub fn metrics(&self) -> (r: &MetricStore)
        requires
            self.wf(),
        ensures
            *r == self.metric_store(),
            r.wf(),
    {
        &self.metrics
    }

    fn find_model(&self, name: &String) -> (r: Option<usize>)
        ensures
            match r {
                Some(i) => i < self.models@.len() && self.models@[i as int].name@ == name@
                    && self.model_names().contains(name@),
                None => !self.model_names().contains(name@),
            },
    {
        let mut i: usize = 0;
        while i < self.models.len()
            invariant
                i <= self.models@.len(),
                forall|k: int| 0 <= k < i ==> (#[trigger] self.models@[k]).name@ != name@,
            decreases self.models@.len() - i,
        {
            if self.models[i].name == *name {
                assert(self.model_names()[i as int] == name@);
                return Some(i);
            }
            i = i + 1;
        }
        proof {
            if self.model_names().contains(name@) {
                let k = choose|k: int| 0 <= k < self.model_names().len() && self.model_names()[k] == name@;
                assert(self.models@[k].name@ == name@);
            }
        }
        None
    }

    /// Custom events of kind `kind` have a handler.
    pub fn has_custom_kind(&self, kind: &String) -> (r: bool)
        ensures
            r == self.custom_kinds().contains(kind@),
    {
        let mut i: usize = 0;
        while i < self.custom_kinds.len()
            invariant
                i <= self.custom_kinds@.len(),
                forall|k: int| 0 <= k < i ==> (#[trigger] self.custom_kinds@[k])@ != kind@,
            decreases self.custom_kinds@.len() - i,
        {
            if self.custom_kinds[i] == *kind {
                assert(self.custom_kinds()[i as int] == kind@);
                return true;
            }
            i = i + 1;
        }
        proof {
            if self.custom_kinds().contains(kind@) {
                let k = choose|k: int| 0 <= k < self.custom_kinds().len() && self.custom_kinds()[k] == kind@;
                assert(self.custom_kinds@[k]@ == kind@);
            }
        }
        false
    }

    /// Routes custom events of kind `kind` to the custom handler from now on.
    pub fn register_custom_kind(&mut self, kind: String)
        requires
            old(self).wf(),
        ensures
            final(self).wf(),
            final(self).custom_kinds().contains(kind@),
            old(self).custom_kinds().contains(kind@) ==> *final(self) == *old(self),
            !old(self).custom_kinds().contains(kind@) ==> final(self).custom_kinds() == old(self).custom_kinds().push(kind@),
            same_but_custom_kinds(*final(self), *old(self)),
    {
        if self.has_custom_kind(&kind) {
            return;
        }
        let ghost k = kind@;
        let ghost before = self.custom_kinds@;
        self.custom_kinds.push(kind);
        proof {
            assert(self.custom_kinds() =~= before.map_values(|s: String| s@).push(k));
            assert(self.custom_kinds()[before.len() as int] == k);
        }
    }

    /// A model is registered under `name`.
    pub fn has_model(&self, name: &String) -> (r: bool)
        ensures
            r == self.model_names().contains(name@),
    {
        self.find_model(name).is_some()
    }

    /// Registers `model` under `name`; fails if the name is taken.
    pub fn add_model(&mut self, name: String, model: M) -> (r: Result<(), EngineError>)
        requires
            old(self).wf(),
        ensures
            final(self).wf(),
            r is Err <==> old(self).model_names().contains(name@),
            r is Ok ==> final(self).models() == old(self).models().push(Registered { name, state: model }),
            r is Ok ==> final(self).model_names() == old(self).model_names().push(name@),
            r is Ok ==> same_but_models(*final(self), *old(self)),
            r is Err ==> *final(self) == *old(self),
    {
        if self.find_model(&name).is_some() {
            return Err(EngineError::DuplicateModel);
        }
        let ghost old_models = self.models@;
        let ghost n = name@;
        self.models.push(Registered { name, state: model });
        proof {
            assert(self.model_names() =~= names_of(old_models).push(n));
            assert forall|i: int, j: int| 0 <= i < j < self.models@.len() implies (#[trigger] self.models@[i]).name@ != (#[trigger] self.models@[j]).name@ by {
                if j == old_models.len() {
                    assert(names_of(old_models)[i] == old_models[i].name@);
                } else {
                    assert(old_models[i].name@ != old_models[j].name@);
                }
            }
        }
        Ok(())
    }

    /// Queues `event` behind every pending event whose time is not later than its own.
    /// Rejects a NaN, infinite or negative time, and a time before the clock; a rejected
    /// call changes nothing.
    pub fn schedule_event(&mut self, event: Event) -> (r: Result<(), ScheduleError>)
        requires
            old(self).wf(),
        ensures
            final(self).wf(),
            r is Ok <==> accepts(old(self).clock(), old(self).next_seq() as int, event.time),
            r matches Err(x) ==> x == rejection(old(self).clock(), old(self).next_seq() as int, event.time)
                && *final(self) == *old(self),
            r is Ok ==> {
                &&& final(self).next_seq() == old(self).next_seq() + 1
                &&& final(self).pending().len() == old(self).pending().len() + 1
                &&& final(self).pending() == enqueue(old(self).pending(), Scheduled { seq: old(self).next_seq(), event })
                &&& same_but_queue(*final(self), *old(self))
            },
    {
        if !event.time.is_valid() {
            return Err(ScheduleError::Malformed);
        }
        if event.time.bits < self.time.bits {
            return Err(ScheduleError::BackDated);
        }
        if self.queue.is_exhausted() {
            return Err(ScheduleError::Exhausted);
        }
        let ghost e = event;
        let ghost p = self.queue.pending();
        self.queue.push(event);
        proof {
            let i = count_not_after(p, e.time.bits);
            let q = self.queue.pending();
            let h = self.dispatched@;
            assert forall|k: int| 0 <= k < q.len() implies self.time.bits <= (#[trigger] q[k]).event.time.bits by {
                if k < i { assert(q[k] == p[k]); } else if k > i { assert(q[k] == p[k - 1]); }
            }
            assert forall|a: int, b: int| 0 <= a < h.len() && 0 <= b < q.len() implies precedes(
                (#[trigger] h[a]).0, h[a].1, (#[trigger] q[b]).event.time.bits, q[b].seq) by {
                if b < i { assert(q[b] == p[b]); } else if b > i { assert(q[b] == p[b - 1]); }
            }
        }
        Ok(())
    }

    /// Removes the earliest pending event and advances the clock to its time, provided the
    /// clock is still before `end_time` and that event's time is not after `end_time`.
    pub fn next_ready(&mut self, end_time: SimTime) -> (r: Option<Event>)
        requires
            old(self).wf(),
        ensures
            final(self).wf(),
            r is None <==> old(self).finished(end_time),
            r is None ==> *final(self) == *old(self),
            r matches Some(e) ==> {
                &&& e == old(self).pending()[0].event
                &&& e.time.at_or_before(end_time)
                &&& final(self).clock() == e.time
                &&& old(self).clock().bits <= e.time.bits
                &&& final(self).pending() == old(self).pending().subrange(1, old(self).pending().len() as int)
                &&& final(self).next_seq() == old(self).next_seq()
                &&& final(self).history() == old(self).history().push((e.time.bits, old(self).pending()[0].seq))
                &&& final(self).dispatched_events() == old(self).dispatched_events().push(e)
                &&& final(self).models() == old(self).models()
                &&& final(self).metric_store() == old(self).metric_store()
                &&& final(self).custom_kinds() == old(self).custom_kinds()
            },
    {
        if !self.time.is_before(&end_time) {
            return None;
        }
        match self.queue.peek_time() {
            None => None,
            Some(t) => {
                if !t.is_at_or_before(&end_time) {
                    return None;
                }
                let ghost p = self.queue.pending();
                let ghost h = self.dispatched@;
                let head = self.queue.pop_front();
                match head {
                    None => None,
                    Some(item) => {
                        self.time = item.event.time;
                        let ghost key = (item.event.time.bits, item.seq);
                        self.dispatched = Ghost(self.dispatched@.push(key));
                        self.dispatched_events = Ghost(self.dispatched_events@.push(item.event));
                        proof {
                            let q = self.queue.pending();
                            let h2 = self.dispatched@;
                            assert forall|k: int| 0 <= k < q.len() implies self.time.bits <= (#[trigger] q[k]).event.time.bits
                                && precedes(key.0, key.1, q[k].event.time.bits, q[k].seq) by {
                                assert(q[k] == p[k + 1]);
                                assert(precedes(p[0].event.time.bits, p[0].seq, p[k + 1].event.time.bits, p[k + 1].seq));
                            }
                            assert forall|a: int, b: int| 0 <= a < b < h2.len() implies precedes(
                                (#[trigger] h2[a]).0, h2[a].1, (#[trigger] h2[b]).0, h2[b].1) by {
                                if b == h.len() {
                                    assert(h2[a] == h[a]);
                                } else {
                                    assert(h2[a] == h[a] && h2[b] == h[b]);
                                }
                            }
                            assert forall|a: int| 0 <= a < h2.len() implies (#[trigger] h2[a]).0 <= self.time.bits
                                && h2[a].1 < self.queue.next_seq() by {
                                if a < h.len() {
                                    assert(h2[a] == h[a]);
                                    assert(precedes(h[a].0, h[a].1, p[0].event.time.bits, p[0].seq));
                                }
                            }
                            assert forall|a: int, b: int| 0 <= a < h2.len() && 0 <= b < q.len() implies precedes(
                                (#[trigger] h2[a]).0, h2[a].1, (#[trigger] q[b]).event.time.bits, q[b].seq) by {
                                assert(q[b] == p[b + 1]);
                                if a < h.len() {
                                    assert(h2[a] == h[a]);
                                }
                                assert(precedes(p[0].event.time.bits, p[0].seq, p[b + 1].event.time.bits, p[b + 1].seq));
                            }
                        }
                        Some(item.event)
                    },
                }
            },
        }
    }

    /// Applies what a handler returned for `event`: a failure fails the event; otherwise its
    /// observations are recorded and its follow-ups scheduled, as `applied` states.
    pub fn apply_outcome(&mut self, outcome: Result<Effects, String>, event: Event) -> (r: Result<(), RunError>)
        requires
            old(self).wf(),
        ensures
            final(self).wf(),
            applied(*old(self), outcome, event, *final(self), r),
            final(self).pending().len() - old(self).pending().len() == final(self).next_seq() - old(self).next_seq(),
            forall|x: Scheduled| old(self).pending().contains(x) ==> #[trigger] final(self).pending().contains(x),
            r matches Err(e) ==> e.time == event.time && e.event_type == event.event_type && e.model_id == event.model_id,
    {
        let ghost o = outcome;
        match outcome {
            Err(c) => {
                let Event { time, event_type, model_id } = event;
                Err(RunError { time, event_type, model_id, cause: FailureCause::Handler(c) })
            },
            Ok(effects) => {
                let Effects { observations, follow_ups } = effects;
                let ghost obs = observations@;
                let ghost f = follow_ups@;
                let ghost s0 = self.queue.next_seq() as int;
                let mut k: usize = 0;
                while k < observations.len()
                    invariant
                        self.wf(),
                        obs == observations@,
                        k <= obs.len(),
                        same_but_queue_and_metrics(*self, *old(self)),
                        self.pending() == old(self).pending(),
                        self.next_seq() == old(self).next_seq(),
                        forall|n: Seq<char>| #[trigger] self.metric_store().values_of(n)
                            == old(self).metric_store().values_of(n) + observed(obs.take(k as int), n),
                    decreases obs.len() - k,
                {
                    let ghost before_e = *self;
                    self.metrics.record(&observations[k].metric, observations[k].value);
                    proof {
                        assert(obs.take(k + 1).drop_last() =~= obs.take(k as int));
                        assert forall|n: Seq<char>| #[trigger] self.metric_store().values_of(n)
                            == old(self).metric_store().values_of(n) + observed(obs.take(k + 1), n) by {
                            let base = old(self).metric_store().values_of(n);
                            let prior = observed(obs.take(k as int), n);
                            assert(obs.take(k + 1).last() == obs[k as int]);
                            assert(before_e.metric_store().values_of(n) == base + prior);
                            assert(observed(obs.take(k + 1), n) == prior + if obs[k as int].metric@ == n {
                                seq![obs[k as int].value]
                            } else {
                                Seq::<u64>::empty()
                            });
                            if n == obs[k as int].metric@ {
                                assert((base + prior).push(obs[k as int].value) =~= base + (prior + seq![obs[k as int].value]));
                            } else {
                                assert(base + prior =~= base + (prior + Seq::<u64>::empty()));
                            }
                        }
                    }
                    k = k + 1;
                }
                assert(obs.take(obs.len() as int) =~= obs);
                let ghost recorded = *self;
                let n_follow = follow_ups.len();
                let mut rest = follow_ups;
                let mut j: usize = 0;
                while rest.len() > 0
                    invariant
                        self.wf(),
                        rest@ == f.skip(j as int),
                        j <= f.len(),
                        f.len() == n_follow,
                        s0 == old(self).next_seq() as int,
                        same_but_queue(*self, recorded),
                        same_but_queue_and_metrics(recorded, *old(self)),
                        forall|n: Seq<char>| #[trigger] recorded.metric_store().values_of(n)
                            == old(self).metric_store().values_of(n) + observed(obs, n),
                        o == outcome,
                        match o {
                            Ok(e) => e.follow_ups@ == f && e.observations@ == obs,
                            Err(_) => false,
                        },
                        self.pending() == enqueue_all(old(self).pending(), s0, f.take(j as int)),
                        self.next_seq() == s0 + j,
                        self.pending().len() == old(self).pending().len() + j,
                        forall|i: int| 0 <= i < j ==> accepts(old(self).clock(), s0 + i, #[trigger] f[i].time),
                        forall|x: Scheduled| old(self).pending().contains(x) ==> #[trigger] self.pending().contains(x),
                    decreases rest@.len(),
                {
                    let next = rest.remove(0);
                    assert(next == f[j as int]);
                    let ghost p = self.pending();
                    match self.schedule_event(next) {
                        Ok(()) => {
                            proof {
                                assert(f.take(j + 1).drop_last() =~= f.take(j as int));
                                lemma_count_bounds(p, f[j as int].time.bits);
                                assert forall|x: Scheduled| old(self).pending().contains(x) implies #[trigger] self.pending().contains(x) by {
                                    assert(p.contains(x));
                                    let m = choose|m: int| 0 <= m < p.len() && p[m] == x;
                                    let i = count_not_after(p, f[j as int].time.bits);
                                    assert(self.pending() == p.insert(i, Scheduled { seq: (s0 + j) as u64, event: f[j as int] }));
                                    if m < i {
                                        assert(self.pending()[m] == x);
                                    } else {
                                        assert(self.pending()[m + 1] == x);
                                    }
                                }
                            }
                            assert(accepts(old(self).clock(), s0 + j, f[j as int].time));
                            j = j + 1;
                            assert(rest@ =~= f.skip(j as int));
                        },
                        Err(err) => {
                            proof {
                                assert(first_rejected(old(self).clock(), s0, f, j as int));
                                assert(err == rejection(old(self).clock(), s0 + j, f[j as int].time));
                            }
                            let Event { time, event_type, model_id } = event;
                            let r = Err(RunError { time, event_type, model_id, cause: FailureCause::FollowUp(err) });
                            proof {
                                assert(r == Err::<(), RunError>(failure_of(event, FailureCause::FollowUp(rejection(old(self).clock(), s0 + j, f[j as int].time)))));
                                assert(self.pending() == enqueue_all(old(self).pending(), s0, f.take(j as int)));
                                assert(!accepts(old(self).clock(), s0 + j, f[j as int].time));
                                assert(forall|n: Seq<char>| #[trigger] self.metric_store().values_of(n)
                                    == old(self).metric_store().values_of(n) + observed(obs, n));
                                assert(applied(*old(self), o, event, *self, r));
                            }
                            return r;
                        },
                    }
                }
                assert(f.take(f.len() as int) =~= f);
                Ok(())
            },
        }
    }

    /// Hands `event` to the handler for its kind, with the state of its target model, then
    /// applies the outcome. An event whose target is not registered, or whose custom kind
    /// has no handler, is skipped and changes nothing.
    pub fn process_event<H: EventHandlers<M>>(&mut self, event: Event, handlers: &mut H) -> (r: Result<(), RunError>)
        requires
            old(self).wf(),
        ensures
            final(self).wf(),
            final(self).clock() == old(self).clock(),
            final(self).history() == old(self).history(),
            final(self).dispatched_events() == old(self).dispatched_events(),
            final(self).model_names() == old(self).model_names(),
            final(self).custom_kinds() == old(self).custom_kinds(),
            final(self).pending().len() - old(self).pending().len() == final(self).next_seq() - old(self).next_seq(),
            forall|x: Scheduled| old(self).pending().contains(x) ==> #[trigger] final(self).pending().contains(x),
            !old(self).routes(event) ==> r is Ok && *final(self) == *old(self),
            old(self).routes(event) ==> exists|i: int, st: M, o: Result<Effects, String>, mid: SimulationEngine<M>| {
                &&& 0 <= i < old(self).models().len()
                &&& old(self).models()[i].name@ == event.model_id@
                &&& mid.models() == #[trigger] old(self).models().update(i, Registered { name: old(self).models()[i].name, state: st })
                &&& same_but_models(mid, *old(self))
                &&& #[trigger] applied(mid, o, event, *final(self), r)
            },
            r matches Err(e) ==> e.time == event.time && e.event_type == event.event_type && e.model_id == event.model_id,
    {
        let routed = match &event.event_type {
            EventType::Custom(kind) => self.has_custom_kind(kind),
            _ => true,
        };
        if !routed {
            return Ok(());
        }
        match self.find_model(&event.model_id) {
            None => Ok(()),
            Some(i) => {
                let ghost before = self.models@;
                let mut target = self.models.remove(i);
                let outcome = match &event.event_type {
                    EventType::ModelUpdate => handlers.update_model(&mut target.state, &event),
                    EventType::DataArrival => handlers.process_data(&mut target.state, &event),
                    EventType::TrainingStep => handlers.train_model(&mut target.state, &event),
                    EventType::Evaluation => handlers.evaluate_model(&mut target.state, &event),
                    EventType::Custom(kind) => handlers.custom(kind, &mut target.state, &event),
                };
                let ghost st = target.state;
                self.models.insert(i, target);
                proof {
                    let after = self.models@;
                    assert(after =~= before.update(i as int, Registered { name: before[i as int].name, state: st }));
                    assert(names_of(after) =~= names_of(before));
                }
                let ghost mid = *self;
                let ghost o = outcome;
                let r = self.apply_outcome(outcome, event);
                assert(applied(mid, o, event, *self, r));
                r
            },
        }
    }

    /// Dispatches pending events in `(time, scheduling order)` until none is due by
    /// `end_time` or the clock has reached it. Stops at the first failing event.
    pub fn run<H: EventHandlers<M>>(&mut self, end_time: SimTime, handlers: &mut H) -> (r: Result<(), RunError>)
        requires
            old(self).wf(),
        ensures
            final(self).wf(),
            old(self).clock().bits <= final(self).clock().bits,
            final(self).model_names() == old(self).model_names(),
            final(self).custom_kinds() == old(self).custom_kinds(),
            old(self).history().len() <= final(self).history().len(),
            final(self).history().subrange(0, old(self).history().len() as int) == old(self).history(),
            final(self).dispatched_events().subrange(0, old(self).history().len() as int) == old(self).dispatched_events(),
            forall|i: int|
                old(self).history().len() <= i < final(self).history().len() ==> end_time.bits <= INFINITY_BITS
                    && old(self).clock().bits <= (#[trigger] final(self).history()[i]).0 <= end_time.bits,
            old(self).finished(end_time) ==> r is Ok && *final(self) == *old(self),
            final(self).history().len() == old(self).history().len() ==> *final(self) == *old(self),
            forall|x: Scheduled| #[trigger] old(self).pending().contains(x) ==> final(self).pending().contains(x)
                || exists|i: int| old(self).history().len() <= i < final(self).history().len()
                    && #[trigger] final(self).history()[i] == (x.event.time.bits, x.seq),
            forall|x: Scheduled| #[trigger] old(self).pending().contains(x) && x.event.time.bits > end_time.bits
                ==> final(self).pending().contains(x),
            (final(self).history().len() - old(self).history().len()) + final(self).pending().len()
                == old(self).pending().len() + (final(self).next_seq() - old(self).next_seq()),
            r is Ok ==> final(self).finished(end_time),
            r matches Err(e) ==> {
                &&& final(self).history().len() > old(self).history().len()
                &&& e.time == final(self).dispatched_events().last().time
                &&& e.event_type == final(self).dispatched_events().last().event_type
                &&& e.model_id == final(self).dispatched_events().last().model_id
            },
    {
        let ghost h0 = self.history().len();
        loop
            invariant
                self.wf(),
                h0 == old(self).history().len(),
                old(self).clock().bits <= self.clock().bits,
                self.model_names() == old(self).model_names(),
                self.custom_kinds() == old(self).custom_kinds(),
                h0 <= self.history().len(),
                self.history().subrange(0, h0 as int) == old(self).history(),
                self.dispatched_events().subrange(0, h0 as int) == old(self).dispatched_events(),
                forall|i: int|
                    h0 <= i < self.history().len() ==> end_time.bits <= INFINITY_BITS
                        && old(self).clock().bits <= (#[trigger] self.history()[i]).0 <= end_time.bits,
                self.history().len() == h0 ==> *self == *old(self),
                old(self).finished(end_time) ==> self.history().len() == h0,
                forall|x: Scheduled| #[trigger] old(self).pending().contains(x) ==> self.pending().contains(x)
                    || exists|i: int| h0 <= i < self.history().len()
                        && #[trigger] self.history()[i] == (x.event.time.bits, x.seq),
                (self.history().len() - h0) + self.pending().len()
                    == old(self).pending().len() + (self.next_seq() - old(self).next_seq()),
            decreases self.room(),
        {
            let ghost h = self.history();
            let ghost ev = self.dispatched_events();
            let ghost p = self.pending();
            match self.next_ready(end_time) {
                None => {
                    return Ok(());
                },
                Some(event) => {
                    proof {
                        let h2 = self.history();
                        let ev2 = self.dispatched_events();
                        assert(h2.subrange(0, h0 as int) =~= h.subrange(0, h0 as int));
                        assert(ev2.subrange(0, h0 as int) =~= ev.subrange(0, h0 as int));
                        assert forall|i: int| h0 <= i < h2.len() implies end_time.bits <= INFINITY_BITS
                            && old(self).clock().bits <= (#[trigger] h2[i]).0 <= end_time.bits by {
                            if i < h.len() {
                                assert(h2[i] == h[i]);
                            }
                        }
                        assert forall|x: Scheduled| #[trigger] old(self).pending().contains(x) implies self.pending().contains(x)
                            || exists|i: int| h0 <= i < h2.len() && #[trigger] h2[i] == (x.event.time.bits, x.seq) by {
                            if p.contains(x) {
                                let m = choose|m: int| 0 <= m < p.len() && p[m] == x;
                                if m == 0 {
                                    assert(h2[h.len() as int] == (x.event.time.bits, x.seq));
                                } else {
                                    assert(self.pending()[m - 1] == x);
                                }
                            } else {
                                let i = choose|i: int| h0 <= i < h.len() && #[trigger] h[i] == (x.event.time.bits, x.seq);
                                assert(h2[i] == h[i]);
                            }
                        }
                    }
                    let ghost mid = *self;
                    match self.process_event(event, handlers) {
                        Ok(()) => {
                            proof {
                                assert forall|x: Scheduled| #[trigger] old(self).pending().contains(x) implies self.pending().contains(x)
                                    || exists|i: int| h0 <= i < self.history().len() && #[trigger] self.history()[i] == (x.event.time.bits, x.seq) by {
                                    if mid.pending().contains(x) {
                                    }
                                }
                            }
                        },
                        Err(err) => {
                            proof {
                                assert forall|x: Scheduled| #[trigger] old(self).pending().contains(x) && x.event.time.bits > end_time.bits
                                    implies self.pending().contains(x) by {
                                    if !self.pending().contains(x) {
                                        if !mid.pending().contains(x) {
                                            let i = choose|i: int| h0 <= i < mid.history().len() && #[trigger] mid.history()[i] == (x.event.time.bits, x.seq);
                                        }
                                    }
                                }
                            }
                            return Err(err);
                        },
                    }
                },
            }
        }
    }
}

} // verus!
