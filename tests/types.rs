use simula_sim::errors::{BackendError, FrontendError, IRError, RuntimeError, TestError, VerificationError};
use simula_sim::model::{ActivationFunction, LossFunction, Metric, ModelType, Optimizer, SimulationConfig};
use simula_sim::time::SimTime;

#[test]
fn error_messages_carry_their_prefix() {
    assert_eq!(BackendError::CodeGen("x".to_string()).message(), "Code generation error: x");
    assert_eq!(BackendError::LLVM("y".to_string()).message(), "LLVM error: y");
    assert_eq!(FrontendError::Syntax("z".to_string()).message(), "Syntax error: z");
    assert_eq!(IRError::TypeMismatch("t".to_string()).message(), "Type mismatch: t");
    assert_eq!(RuntimeError::Time("late".to_string()).message(), "Time error: late");
    assert_eq!(RuntimeError::Memory("m".to_string()).message(), "Memory error: m");
    assert_eq!(TestError::SetupError("s".to_string()).message(), "Setup error: s");
    assert_eq!(VerificationError::InvariantViolation("i".to_string()).message(), "Invariant violation: i");
    assert_eq!(VerificationError::Internal("q".to_string()).message(), "Internal error: q");
}

#[test]
fn metric_names() {
    assert_eq!(Metric::Loss.name(), "loss");
    assert_eq!(Metric::Accuracy.name(), "accuracy");
    assert_eq!(Metric::Reward.name(), "reward");
    assert_eq!(Metric::Custom("f1".to_string()).name(), "f1");
}

#[test]
fn model_descriptors_compare_by_value() {
    assert_eq!(ModelType::Custom("gbm".to_string()), ModelType::Custom("gbm".to_string()));
    assert_ne!(ActivationFunction::ReLU, ActivationFunction::Tanh);
    assert_ne!(Optimizer::Adam, Optimizer::SGD);
    assert_eq!(LossFunction::MSE, LossFunction::MSE);
    let cfg = SimulationConfig { time_steps: 10, parallel_simulations: 2, metrics: vec![Metric::Loss] };
    assert_eq!(cfg.clone().metrics, vec![Metric::Loss]);
}

#[test]
fn sim_time_validity() {
    assert!(SimTime::from_bits(3.5f64.to_bits()).is_valid());
    assert!(SimTime::zero().is_valid());
    assert!(!SimTime::from_bits(f64::NAN.to_bits()).is_valid());
    assert!(!SimTime::from_bits((-1.0f64).to_bits()).is_valid());
    assert!(!SimTime::from_bits(f64::INFINITY.to_bits()).is_valid());
    assert_eq!(SimTime::from_bits((-0.0f64).to_bits()).to_bits(), 0);
    let a = SimTime::from_bits(1.0f64.to_bits());
    let b = SimTime::from_bits(2.0f64.to_bits());
    assert!(a.is_before(&b) && a.is_at_or_before(&b) && a.is_at_or_before(&a) && !a.is_before(&a));
    assert!(!a.is_at_or_before(&SimTime::from_bits(f64::NAN.to_bits())));
}
