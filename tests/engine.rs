use simula_sim::engine::{
    EngineError, Effects, EventHandlers, FailureCause, Observation, ScheduleError, SimulationEngine,
};
use simula_sim::event::{Event, EventType};
use simula_sim::time::SimTime;

fn at(t: f64) -> SimTime {
    SimTime::from_bits(t.to_bits())
}

fn ev(t: f64, kind: EventType, model: &str) -> Event {
    Event::new(at(t), kind, model.to_string())
}

/// Records every dispatch; optionally reports an observation, fails, or asks for a follow-up.
#[derive(Default)]
struct Recorder {
    seen: Vec<(f64, String, String)>,
    observe: Option<(String, f64)>,
    fail_at: Option<f64>,
    follow_up_delay: Option<f64>,
}

impl Recorder {
    fn handle(&mut self, label: &str, model: &mut u32, event: &Event) -> Result<Effects, String> {
        let t = f64::from_bits(event.time.to_bits());
        self.seen.push((t, label.to_string(), event.model_id.clone()));
        *model += 1;
        if self.fail_at == Some(t) {
            return Err(format!("handler failed at {}", t));
        }
        let mut effects = Effects { observations: Vec::new(), follow_ups: Vec::new() };
        if let Some((name, value)) = &self.observe {
            effects.observations.push(Observation { metric: name.clone(), value: value.to_bits() });
        }
        if let Some(d) = self.follow_up_delay.take() {
            effects.follow_ups.push(ev(t + d, EventType::Evaluation, &event.model_id));
        }
        Ok(effects)
    }
}

impl EventHandlers<u32> for Recorder {
    fn update_model(&mut self, model: &mut u32, event: &Event) -> Result<Effects, String> {
        self.handle("update", model, event)
    }
    fn process_data(&mut self, model: &mut u32, event: &Event) -> Result<Effects, String> {
        self.handle("data", model, event)
    }
    fn train_model(&mut self, model: &mut u32, event: &Event) -> Result<Effects, String> {
        self.handle("train", model, event)
    }
    fn evaluate_model(&mut self, model: &mut u32, event: &Event) -> Result<Effects, String> {
        self.handle("evaluate", model, event)
    }
    fn custom(&mut self, kind: &String, model: &mut u32, event: &Event) -> Result<Effects, String> {
        let label = format!("custom:{}", kind);
        self.handle(&label, model, event)
    }
}

fn engine_with(models: &[&str]) -> SimulationEngine<u32> {
    let mut e = SimulationEngine::new();
    for m in models {
        e.add_model(m.to_string(), 0).unwrap();
    }
    e
}

#[test]
fn run_dispatches_in_time_order_with_fifo_ties() {
    let mut e = engine_with(&["a", "b", "c", "d"]);
    e.schedule_event(ev(3.0, EventType::TrainingStep, "a")).unwrap();
    e.schedule_event(ev(1.0, EventType::DataArrival, "b")).unwrap();
    e.schedule_event(ev(2.0, EventType::ModelUpdate, "c")).unwrap();
    e.schedule_event(ev(1.0, EventType::Evaluation, "d")).unwrap();
    let mut h = Recorder::default();
    e.run(at(10.0), &mut h).unwrap();
    let order: Vec<(f64, String)> = h.seen.iter().map(|(t, _, m)| (*t, m.clone())).collect();
    assert_eq!(
        order,
        vec![(1.0, "b".to_string()), (1.0, "d".to_string()), (2.0, "c".to_string()), (3.0, "a".to_string())]
    );
    assert_eq!(e.pending_count(), 0);
}

#[test]
fn dispatch_routes_each_kind_to_its_handler() {
    let mut e = engine_with(&["m"]);
    e.schedule_event(ev(1.0, EventType::ModelUpdate, "m")).unwrap();
    e.schedule_event(ev(2.0, EventType::DataArrival, "m")).unwrap();
    e.schedule_event(ev(3.0, EventType::TrainingStep, "m")).unwrap();
    e.schedule_event(ev(4.0, EventType::Evaluation, "m")).unwrap();
    e.schedule_event(ev(5.0, EventType::Custom("probe".to_string()), "m")).unwrap();
    e.register_custom_kind("probe".to_string());
    let mut h = Recorder::default();
    e.run(at(10.0), &mut h).unwrap();
    let labels: Vec<String> = h.seen.iter().map(|(_, l, _)| l.clone()).collect();
    assert_eq!(labels, vec!["update", "data", "train", "evaluate", "custom:probe"]);
}

#[test]
fn clock_is_non_decreasing_across_dispatches() {
    let mut e = engine_with(&["m"]);
    for t in [4.0, 0.5, 2.0, 2.0, 7.25, 0.0] {
        e.schedule_event(ev(t, EventType::TrainingStep, "m")).unwrap();
    }
    let mut h = Recorder::default();
    let mut clocks = Vec::new();
    while let Some(event) = e.next_ready(at(100.0)) {
        clocks.push(f64::from_bits(e.now().to_bits()));
        e.process_event(event, &mut h).unwrap();
    }
    assert_eq!(clocks, vec![0.0, 0.5, 2.0, 2.0, 4.0, 7.25]);
    for w in clocks.windows(2) {
        assert!(w[0] <= w[1]);
    }
}

#[test]
fn run_never_dispatches_past_the_deadline() {
    let mut e = engine_with(&["m"]);
    for t in [1.0, 5.0, 10.0] {
        e.schedule_event(ev(t, EventType::TrainingStep, "m")).unwrap();
    }
    let mut h = Recorder::default();
    e.run(at(6.0), &mut h).unwrap();
    let times: Vec<f64> = h.seen.iter().map(|(t, _, _)| *t).collect();
    assert_eq!(times, vec![1.0, 5.0]);
    assert_eq!(e.pending_count(), 1);
    assert_eq!(e.now(), at(5.0));
}

#[test]
fn run_stops_once_the_clock_reaches_the_deadline() {
    let mut e = engine_with(&["m"]);
    e.schedule_event(ev(6.0, EventType::TrainingStep, "m")).unwrap();
    e.schedule_event(ev(6.0, EventType::Evaluation, "m")).unwrap();
    let mut h = Recorder::default();
    e.run(at(6.0), &mut h).unwrap();
    assert_eq!(h.seen.len(), 1);
    assert_eq!(e.pending_count(), 1);
}

#[test]
fn run_with_nan_or_negative_deadline_dispatches_nothing() {
    let mut e = engine_with(&["m"]);
    e.schedule_event(ev(0.0, EventType::TrainingStep, "m")).unwrap();
    let mut h = Recorder::default();
    e.run(at(f64::NAN), &mut h).unwrap();
    e.run(at(-1.0), &mut h).unwrap();
    assert!(h.seen.is_empty());
    e.run(at(f64::INFINITY), &mut h).unwrap();
    assert_eq!(h.seen.len(), 1);
}

#[test]
fn event_for_missing_model_is_skipped() {
    let mut e = engine_with(&["present"]);
    e.schedule_event(ev(2.5, EventType::Custom("stale".to_string()), "absent")).unwrap();
    let mut h = Recorder::default();
    assert!(e.run(at(10.0), &mut h).is_ok());
    assert!(h.seen.is_empty());
    assert_eq!(e.now(), at(2.5));
    assert_eq!(e.pending_count(), 0);
    assert_eq!(e.metrics().len(), 0);
}

#[test]
fn malformed_times_are_rejected_and_leave_the_queue_unchanged() {
    let mut e = engine_with(&["m"]);
    e.schedule_event(ev(1.0, EventType::TrainingStep, "m")).unwrap();
    let before = e.pending_count();
    assert_eq!(e.schedule_event(ev(f64::NAN, EventType::TrainingStep, "m")), Err(ScheduleError::Malformed));
    assert_eq!(e.pending_count(), before);
    assert_eq!(e.schedule_event(ev(-1.0, EventType::TrainingStep, "m")), Err(ScheduleError::Malformed));
    assert_eq!(e.pending_count(), before);
    assert_eq!(e.schedule_event(ev(f64::INFINITY, EventType::TrainingStep, "m")), Err(ScheduleError::Malformed));
    assert_eq!(e.pending_count(), before);
}

#[test]
fn negative_zero_is_accepted_as_zero() {
    let mut e = engine_with(&["m"]);
    assert_eq!(at(-0.0), at(0.0));
    assert!(e.schedule_event(ev(-0.0, EventType::TrainingStep, "m")).is_ok());
    assert_eq!(e.pending_count(), 1);
}

#[test]
fn back_dated_events_are_rejected() {
    let mut e = engine_with(&["m"]);
    e.schedule_event(ev(5.0, EventType::TrainingStep, "m")).unwrap();
    let mut h = Recorder::default();
    e.run(at(10.0), &mut h).unwrap();
    assert_eq!(e.schedule_event(ev(4.0, EventType::TrainingStep, "m")), Err(ScheduleError::BackDated));
    assert_eq!(e.pending_count(), 0);
    assert!(e.schedule_event(ev(5.0, EventType::TrainingStep, "m")).is_ok());
}

#[test]
fn duplicate_model_names_are_rejected() {
    let mut e: SimulationEngine<u32> = SimulationEngine::new();
    assert!(e.add_model("m".to_string(), 1).is_ok());
    assert_eq!(e.add_model("m".to_string(), 2), Err(EngineError::DuplicateModel));
    assert!(e.has_model(&"m".to_string()));
    assert!(!e.has_model(&"n".to_string()));
}

#[test]
fn handler_failure_stops_the_run_and_names_the_event() {
    let mut e = engine_with(&["m"]);
    for t in [1.0, 5.0, 6.0] {
        e.schedule_event(ev(t, EventType::TrainingStep, "m")).unwrap();
    }
    let mut h = Recorder { fail_at: Some(5.0), ..Recorder::default() };
    let err = e.run(at(10.0), &mut h).unwrap_err();
    assert_eq!(err.time, at(5.0));
    assert_eq!(err.event_type, EventType::TrainingStep);
    assert_eq!(err.model_id, "m");
    match err.cause {
        FailureCause::Handler(msg) => assert_eq!(msg, "handler failed at 5"),
        other => panic!("unexpected cause {:?}", other),
    }
    assert_eq!(e.pending_count(), 1);
    assert_eq!(e.now(), at(5.0));
}

#[test]
fn observations_and_follow_ups_are_applied() {
    let mut e = engine_with(&["m"]);
    e.schedule_event(ev(1.0, EventType::TrainingStep, "m")).unwrap();
    let mut h = Recorder {
        observe: Some(("loss".to_string(), 0.25)),
        follow_up_delay: Some(2.0),
        ..Recorder::default()
    };
    e.run(at(10.0), &mut h).unwrap();
    let times: Vec<f64> = h.seen.iter().map(|(t, _, _)| *t).collect();
    assert_eq!(times, vec![1.0, 3.0]);
    let loss = e.metrics().get(&"loss".to_string()).unwrap();
    assert_eq!(loss, vec![0.25f64.to_bits(), 0.25f64.to_bits()]);
}

#[test]
fn back_dated_follow_up_fails_the_event() {
    let mut e = engine_with(&["m"]);
    e.schedule_event(ev(4.0, EventType::TrainingStep, "m")).unwrap();
    let mut h = Recorder { follow_up_delay: Some(-1.0), ..Recorder::default() };
    let err = e.run(at(10.0), &mut h).unwrap_err();
    assert_eq!(err.time, at(4.0));
    assert!(matches!(err.cause, FailureCause::FollowUp(ScheduleError::BackDated)));
}

#[test]
fn unregistered_custom_kind_is_skipped() {
    let mut e = engine_with(&["m"]);
    e.register_custom_kind("known".to_string());
    assert!(e.has_custom_kind(&"known".to_string()));
    assert!(!e.has_custom_kind(&"other".to_string()));
    e.schedule_event(ev(1.0, EventType::Custom("other".to_string()), "m")).unwrap();
    e.schedule_event(ev(2.0, EventType::Custom("known".to_string()), "m")).unwrap();
    let mut h = Recorder::default();
    e.run(at(10.0), &mut h).unwrap();
    let labels: Vec<String> = h.seen.iter().map(|(_, l, _)| l.clone()).collect();
    assert_eq!(labels, vec!["custom:known"]);
    assert_eq!(e.now(), at(2.0));
}

#[test]
fn apply_outcome_records_then_schedules_in_order() {
    let mut e = engine_with(&["m"]);
    let loss = "loss".to_string();
    let effects = Effects {
        observations: vec![
            Observation { metric: loss.clone(), value: 1 },
            Observation { metric: "acc".to_string(), value: 2 },
            Observation { metric: loss.clone(), value: 3 },
        ],
        follow_ups: vec![ev(4.0, EventType::Evaluation, "m"), ev(-2.0, EventType::Evaluation, "m"), ev(1.0, EventType::Evaluation, "m")],
    };
    let err = e.apply_outcome(Ok(effects), ev(0.0, EventType::TrainingStep, "m")).unwrap_err();
    assert!(matches!(err.cause, FailureCause::FollowUp(ScheduleError::Malformed)));
    assert_eq!(err.event_type, EventType::TrainingStep);
    assert_eq!(e.metrics().get(&loss), Some(vec![1, 3]));
    assert_eq!(e.pending_count(), 1);

    let failed = e.apply_outcome(Err("boom".to_string()), ev(0.5, EventType::DataArrival, "m")).unwrap_err();
    assert_eq!(failed.time, at(0.5));
    assert!(matches!(failed.cause, FailureCause::Handler(ref c) if c == "boom"));
    assert_eq!(e.pending_count(), 1);
}
