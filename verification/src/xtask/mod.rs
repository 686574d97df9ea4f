//! The selection logic of the benchmark task runner: which benchmark targets a request names.
pub mod aggregate;
pub mod bench_runner;
pub mod cli;
pub mod result_names;
