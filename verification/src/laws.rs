//! What holds of the engine across its operations.

pub mod bounds;
pub mod compaction;
pub mod coverage;
pub mod deletion;
pub mod point_deletion;
pub mod window;
pub mod workloads;
