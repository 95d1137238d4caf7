//! An array-backed binary heap with a pluggable priority rule, together with
//! two smaller companion containers: a stack built from two queues, and an
//! in-place partitioning sort.

pub mod heap;
pub mod sorting;
pub mod stack;
pub mod order;
