//! Incremental sorting engine: advances a comparison-based sorting algorithm
//! by exactly one observable unit of work (one comparison, optionally one
//! swap) per call, so that an external driver can animate the sort at its own
//! cadence.

pub mod bars;
pub mod bubble;
pub mod engine;
pub mod event;
pub mod insertion;
pub mod order;
pub mod quick;
pub mod selection;
