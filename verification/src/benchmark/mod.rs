//! The decision logic of the benchmark harness: which datasets and methods
//! a command line names, the ground-truth cache format, and how recall
//! against ground truth is counted.
pub mod cli;
pub mod datasets;
pub mod ground_truth;
pub mod runner;
