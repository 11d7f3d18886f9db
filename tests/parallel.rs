use simula_sim::engine::{Effects, EventHandlers, FailureCause, Observation, RunError, SimulationEngine};
use simula_sim::event::{Event, EventType};
use simula_sim::parallel::{combine_outcomes, ParallelSimulation};
use simula_sim::time::SimTime;

fn at(t: f64) -> SimTime {
    SimTime::from_bits(t.to_bits())
}

#[derive(Clone)]
/// Reports the model's counter as "loss" on every event; fails for model "faulty" at time 5.
struct LossReporter;

impl LossReporter {
    fn handle(&mut self, model: &mut u32, event: &Event) -> Result<Effects, String> {
        let t = f64::from_bits(event.time.to_bits());
        if event.model_id == "faulty" && t == 5.0 {
            return Err("diverged".to_string());
        }
        *model += 1;
        let value = (*model as f64) * 0.5;
        Ok(Effects {
            observations: vec![Observation { metric: "loss".to_string(), value: value.to_bits() }],
            follow_ups: Vec::new(),
        })
    }
}

impl EventHandlers<u32> for LossReporter {
    fn update_model(&mut self, model: &mut u32, event: &Event) -> Result<Effects, String> {
        self.handle(model, event)
    }
    fn process_data(&mut self, model: &mut u32, event: &Event) -> Result<Effects, String> {
        self.handle(model, event)
    }
    fn train_model(&mut self, model: &mut u32, event: &Event) -> Result<Effects, String> {
        self.handle(model, event)
    }
    fn evaluate_model(&mut self, model: &mut u32, event: &Event) -> Result<Effects, String> {
        self.handle(model, event)
    }
    fn custom(&mut self, _kind: &String, model: &mut u32, event: &Event) -> Result<Effects, String> {
        self.handle(model, event)
    }
}

fn worker(model: &str, times: &[f64]) -> SimulationEngine<u32> {
    let mut e = SimulationEngine::new();
    e.add_model(model.to_string(), 0).unwrap();
    for t in times {
        e.schedule_event(Event::new(at(*t), EventType::TrainingStep, model.to_string())).unwrap();
    }
    e
}

fn sorted(mut v: Vec<u64>) -> Vec<u64> {
    v.sort();
    v
}

#[test]
fn new_creates_the_requested_number_of_empty_workers() {
    let sim: ParallelSimulation<u32> = ParallelSimulation::new(4);
    assert_eq!(sim.num_workers(), 4);
    for w in 0..4 {
        assert_eq!(sim.engine(w).pending_count(), 0);
        assert_eq!(sim.engine(w).now(), at(0.0));
    }
}

#[test]
fn aggregation_keeps_every_observation() {
    let mut sim = ParallelSimulation::with_engines(vec![
        worker("a", &[1.0, 2.0]),
        worker("b", &[1.0, 2.0, 3.0]),
        worker("c", &[4.0]),
    ]);
    assert!(sim.run_parallel(at(10.0), &mut vec![LossReporter; 3]).is_ok());
    let merged = sim.aggregate_results();
    let loss = merged.get(&"loss".to_string()).unwrap();
    assert_eq!(loss.len(), 2 + 3 + 1);
    let mut expected = Vec::new();
    for w in 0..3 {
        expected.extend(sim.engine(w).metrics().get(&"loss".to_string()).unwrap());
    }
    assert_eq!(sorted(loss.clone()), sorted(expected));
    let halves: Vec<f64> = loss.iter().map(|b| f64::from_bits(*b)).collect();
    assert_eq!(halves, vec![0.5, 1.0, 0.5, 1.0, 1.5, 0.5]);
}

#[test]
fn failure_in_one_worker_is_isolated_and_reported() {
    let mut sim = ParallelSimulation::with_engines(vec![
        worker("first", &[1.0, 5.0, 8.0]),
        worker("faulty", &[1.0, 5.0, 8.0]),
        worker("third", &[2.0, 5.0]),
    ]);
    let failures = sim.run_parallel(at(10.0), &mut vec![LossReporter; 3]).unwrap_err();
    assert_eq!(failures.len(), 1);
    assert_eq!(failures[0].worker, 1);
    assert_eq!(failures[0].error.time, at(5.0));
    assert_eq!(failures[0].error.model_id, "faulty");
    assert!(matches!(&failures[0].error.cause, FailureCause::Handler(m) if m == "diverged"));
    assert_eq!(sim.engine(0).now(), at(8.0));
    assert_eq!(sim.engine(2).now(), at(5.0));
    let merged = sim.aggregate_results();
    let loss = merged.get(&"loss".to_string()).unwrap();
    assert_eq!(loss.len(), 3 + 1 + 2);
}

#[test]
fn combine_outcomes_lists_every_failure_in_worker_order() {
    let fail = |t: f64, m: &str| RunError {
        time: at(t),
        event_type: EventType::Evaluation,
        model_id: m.to_string(),
        cause: FailureCause::Handler("x".to_string()),
    };
    assert!(combine_outcomes(vec![Ok(()), Ok(())]).is_ok());
    assert!(combine_outcomes(Vec::new()).is_ok());
    let f = combine_outcomes(vec![Err(fail(1.0, "a")), Ok(()), Err(fail(3.0, "c"))]).unwrap_err();
    assert_eq!(f.len(), 2);
    assert_eq!((f[0].worker, f[0].error.model_id.as_str()), (0, "a"));
    assert_eq!((f[1].worker, f[1].error.model_id.as_str()), (2, "c"));
}

#[test]
fn workers_are_populated_one_by_one() {
    let mut sim: ParallelSimulation<u32> = ParallelSimulation::new(2);
    assert!(sim.add_model(0, "a".to_string(), 0).is_ok());
    assert!(sim.add_model(0, "a".to_string(), 0).is_err());
    assert!(sim.add_model(1, "a".to_string(), 0).is_ok());
    assert!(sim.schedule_event(1, Event::new(at(2.0), EventType::DataArrival, "a".to_string())).is_ok());
    assert_eq!(
        sim.schedule_event(0, Event::new(at(f64::NAN), EventType::DataArrival, "a".to_string())),
        Err(simula_sim::engine::ScheduleError::Malformed)
    );
    assert_eq!(sim.engine(0).pending_count(), 0);
    assert_eq!(sim.engine(1).pending_count(), 1);
    assert!(sim.run_parallel(at(3.0), &mut vec![LossReporter; 2]).is_ok());
    assert_eq!(sim.engine(1).now(), at(2.0));
    assert_eq!(sim.aggregate_results().get(&"loss".to_string()), Some(vec![0.5f64.to_bits()]));
}

#[test]
fn merged_store_keeps_names_of_every_worker() {
    let mut a: SimulationEngine<u32> = SimulationEngine::new();
    let mut b: SimulationEngine<u32> = SimulationEngine::new();
    a.add_model("m".to_string(), 0).unwrap();
    b.add_model("m".to_string(), 0).unwrap();
    a.schedule_event(Event::new(at(1.0), EventType::TrainingStep, "m".to_string())).unwrap();
    let mut sim = ParallelSimulation::with_engines(vec![a, b]);
    assert!(sim.run_parallel(at(5.0), &mut vec![LossReporter, LossReporter]).is_ok());
    let merged = sim.aggregate_results();
    assert_eq!(merged.names(), vec!["loss".to_string()]);
    assert_eq!(merged.get(&"loss".to_string()), Some(vec![0.5f64.to_bits()]));
}
