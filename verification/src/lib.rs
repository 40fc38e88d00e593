use vstd::prelude::*;

pub mod benchmarks;
pub mod dataflow;
pub mod ir;
pub mod lower;
pub mod optimize;
pub mod release;
pub mod report;
pub mod schedule;
pub mod semantics;
pub mod simulate;

verus! {
} // verus!
