//! Physical-memory accounting for groups of processes.
//!
//! A process is described by a plain snapshot of what the kernel reports about
//! it. Snapshots are partitioned into named groups, and each group's footprint
//! is the union of the physical frames of its members, so a frame shared by
//! several members is counted once.

pub mod ordered_set;
pub mod pagemap;
pub mod process;
pub mod group;
pub mod usage;
pub mod partition;
pub mod splitter;
pub mod discovery;
