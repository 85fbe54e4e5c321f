//! Measures the marginal build cost contributed by each function body in a
//! source tree.  For every function opening found by the scanner, a no-op
//! statement is spliced in just after the opening brace, the project is
//! rebuilt under an instruction-counting profiler, and the count is recorded.
//! Experiments are then ranked by cost and written out as ratios against a
//! calibrated baseline.
//!
//! This crate holds the verified pipeline: scanning, the mutate/restore
//! cycle, profiler-report parsing, ranking, and report selection.  Process
//! spawning and file I/O live in the surrounding application.

pub mod experiment;
pub mod harness;
pub mod mutation;
pub mod ranking;
pub mod report;
pub mod scanner;
