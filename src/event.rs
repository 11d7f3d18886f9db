use vstd::prelude::*;
use crate::time::SimTime;

verus! {

/// What an event asks of its target model. The four built-in kinds are matched
/// exhaustively; `Custom` carries a caller-defined class that the engine routes to one
/// extension point without interpreting it.
#[derive(Clone, Debug, PartialEq, Eq)]
pub enum EventType {
    ModelUpdate,
    DataArrival,
    TrainingStep,
    Evaluation,
    Custom(String),
}

/// A scheduled occurrence: when it happens, what kind it is, and which model it targets.
#[derive(Clone, Debug)]
pub struct Event {
    pub time: SimTime,
    pub event_type: EventType,
    pub model_id: String,
}

impl Event {
    pub fn new(time: SimTime, event_type: EventType, model_id: String) -> (r: Event)
        ensures
            r.time == time,
            r.event_type == event_type,
            r.model_id == model_id,
    {
        Event { time, event_type, model_id }
    }
}

} // verus!
