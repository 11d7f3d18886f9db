//! A discrete-event simulation core: a time-ordered event queue per engine, dispatch of
//! events to per-model handlers, independent engines run to a shared deadline with every
//! worker failure reported, and merging of their metric series.
//!
//! Instants and observations are IEEE-754 doubles held as their bit patterns (`u64`), so
//! that their validity and order are decided, and proved, on integers.

use vstd::prelude::*;

pub mod time;
pub mod event;
pub mod scheduler;
pub mod metrics;
pub mod engine;
pub mod parallel;
pub mod statistics;
pub mod model;
pub mod errors;

verus! {

} // verus!
