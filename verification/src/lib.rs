//! Fixed-step evaluation of a named system of update rules, in the style of
//! the explicit Euler method for coupled ordinary differential equations.
//!
//! The [`evaluator::Evaluator`] holds the current values of named state
//! variables, one update rule per variable, and an append-only history of
//! snapshots.  Each step computes every new value from the *same* pre-step
//! snapshot (a simultaneous update), never from a partially updated state.

pub mod evaluator;
pub mod keyed;

pub use evaluator::EvalError;
pub use evaluator::Evaluator;
pub use evaluator::VariablesContext;
