//! Observation-only routing state: bounded lifecycle mirrors, the caller
//! transactions that compare against them, and the scheduling decisions that
//! need no production handle.
pub mod charge;
pub mod go_time;
pub mod ordered;
pub mod selector;
pub mod shadow;
pub mod simulation;
pub mod slices;
pub mod texts;
