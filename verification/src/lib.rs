//! Grading, exam assembly and learner-memory rules for a mock exam of the
//! German naturalisation test.

pub mod ai;
pub mod chance;
pub mod clock;
pub mod counts;
pub mod laws;
pub mod memory;
pub mod models;
pub mod order;
pub mod quiz;
pub mod routes;
pub mod storage;
pub mod text;
