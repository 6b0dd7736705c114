//! Heuristic sequencing of jobs on a single machine so that the summed
//! tardiness of the jobs is small.

pub mod job;
pub mod tardiness;
pub mod engine;
pub mod edd;
pub mod solve;
