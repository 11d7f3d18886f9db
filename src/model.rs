use vstd::prelude::*;

verus! {

/// The family a model belongs to.
#[derive(Clone, Debug, PartialEq, Eq)]
pub enum ModelType {
    NeuralNetwork,
    DecisionTree,
    ReinforcementLearning,
    SimulationModel,
    Custom(String),
}

#[derive(Clone, Debug, PartialEq, Eq)]
pub enum ActivationFunction {
    ReLU,
    Sigmoid,
    Tanh,
    Softmax,
    Custom(String),
}

#[derive(Clone, Debug, PartialEq, Eq)]
pub enum Optimizer {
    SGD,
    Adam,
    RMSprop,
    Custom(String),
}

#[derive(Clone, Debug, PartialEq, Eq)]
pub enum LossFunction {
    MSE,
    CrossEntropy,
    Custom(String),
}

/// A quantity a simulation reports.
#[derive(Clone, Debug, PartialEq, Eq)]
pub enum Metric {
    Accuracy,
    Loss,
    Reward,
    Custom(String),
}

/// How a model is simulated: how many steps, how many independent runs, what to measure.
#[derive(Clone, Debug)]
pub struct SimulationConfig {
    pub time_steps: usize,
    pub parallel_simulations: usize,
    pub metrics: Vec<Metric>,
}

impl Metric {
    /// The name under which the metric's observations are stored.
    pub fn name(&self) -> (r: String)
        ensures
            self matches Metric::Custom(s) ==> r@ == s@,
            self is Accuracy ==> r@ == "accuracy"@,
            self is Loss ==> r@ == "loss"@,
            self is Reward ==> r@ == "reward"@,
    {
        match self {
            Metric::Accuracy => String::from_str("accuracy"),
            Metric::Loss => String::from_str("loss"),
            Metric::Reward => String::from_str("reward"),
            Metric::Custom(s) => s.clone(),
        }
    }
}

} // verus!
