//! A fine-grained reactive runtime: signals hold values, effects are computations whose
//! reads of signals are tracked, and writing a signal re-schedules exactly the effects that
//! (transitively) depend on it.

pub mod graph;
pub mod runtime;
pub mod signal;
pub mod storage;
pub mod value;
