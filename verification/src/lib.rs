//! Core of an HTTP load-generation engine: outcome classification, a
//! log-linear latency histogram with quantile queries, a statistics
//! accumulator whose aggregate is independent of recording order, a
//! cancellation/budget controller for the worker pool, and the report
//! builder that turns a finished accumulator into a benchmark summary.
pub mod cli;
pub mod control;
pub mod histogram;
pub mod outcome;
pub mod report;
pub mod stats;
pub mod url;
