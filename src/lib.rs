//! Core of a tracing, evacuating garbage collector: per-object forwarding, a heap model
//! with regions and remembered sets, the evacuating tracer that runs to a fixpoint, a
//! semispace copying space, and the staged work-bucket scheduler that orders a
//! collection.

pub mod forwarding;
pub mod heap;
pub mod tracer;
pub mod copyspace;
pub mod work_bucket;
pub mod plan;
pub mod mutator;
