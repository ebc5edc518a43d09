//! Critical-participation analysis of program activity graphs, and the
//! event-log adapter that produces the logs they are built from.
//!
//! - `pag`: nodes and edges of a program activity graph.
//! - `explore`: the exploration that counts, edge by edge, how many ways
//!   lead to it from a frontier, epoch by epoch.
//! - `metric`: combining forward and backward counts into the critical
//!   participation of an edge.
//! - `time`: epoch and system-time timestamps.
//! - `logger`: the event logger that writes a computation's log per epoch.
//! - `replay`: which logged sources each worker replays.

pub mod explore;
pub mod logger;
pub mod metric;
pub mod pag;
pub mod replay;
pub mod time;

pub use explore::{GroupExplorer, NodeInfo};
pub use logger::{
    is_done_marker, ComputationStatus, EventClass, LogOutput, LogTuple, PagLogger, MAX_FUEL,
};
pub use metric::{counts_combinable, critical_participation, hash_code, is_reported, ScaleReduce};
pub use pag::{ActivityType, PagEdge, PagNode};
pub use replay::replay_sources;
pub use time::{NextEpoch, Pair};
