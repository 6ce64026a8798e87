//! Incremental dataflow engine core: Z-sets with signed multiplicities,
//! time-indexed traces, and incremental relational join operators over
//! nested circuits.

pub mod circuits;
pub mod csv;
pub mod data;
pub mod distinct_trace;
pub mod funcs;
pub mod indexed;
pub mod join;
pub mod join_trace;
pub mod map2;
pub mod stream;
pub mod time;
pub mod trace;
pub mod zset;
