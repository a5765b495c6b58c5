//! Monte Carlo forecasting of how many sprints a team needs to finish a
//! given amount of work, driven by historical per-sprint throughput.
//!
//! The crate is organised leaves first:
//!
//! - [`allocation`]: the share of a sprint that goes to the work, as an
//!   exact fraction.
//! - [`pool`]: the velocity pool, built from the records of past sprints.
//! - [`simulation`]: one trial, and a run of many trials.
//! - [`aggregate`]: from the round counts of many trials to a frequency
//!   table and a cumulative confidence table.
//! - [`report`]: the cumulative table as rows with exact percentages.
//! - [`forecast`]: the whole way from target, pool and allocation to the
//!   cumulative table.

pub mod aggregate;
pub mod allocation;
pub mod forecast;
pub mod pool;
pub mod report;
pub mod simulation;
