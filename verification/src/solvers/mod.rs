//! The greedy scheduler, its mathematical model and what is proved of it.

pub mod errors;
pub mod greedy;
pub mod consistency;
pub mod laws;
pub mod plan;
pub mod run_state;
