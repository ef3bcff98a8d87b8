//! The engine: lifecycle calls and the cycle that dispatches.

pub mod cycle;
pub mod laws;

pub use cycle::{CycleConfig, CycleOutcome, LifecycleError, Scheduler};
