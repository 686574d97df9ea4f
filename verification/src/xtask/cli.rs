//! The choices that the task runner's command line offers.
use vstd::prelude::*;

verus! {

/// A benchmark suite.
#[derive(Clone, Copy, Debug, PartialEq, Eq, Structural)]
pub enum Suite {
    All,
    Micro,
    Macro,
    Sweeps,
    Memory,
    Callgrind,
}

/// A kind of benchmark, as the command line names it.
#[derive(Clone, Copy, Debug, PartialEq, Eq, Structural)]
pub enum BenchKind {
    Criterion,
    Dhat,
    Callgrind,
}

/// A family of benchmarks, as the command line names it.
#[derive(Clone, Copy, Debug, PartialEq, Eq, Structural)]
pub enum BenchFamily {
    All,
    Micro,
    Macro,
    Sweeps,
}

} // verus!
