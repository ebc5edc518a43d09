use std::time::Duration;
use vstd::prelude::*;
use crate::time::duration_eq;

verus! {

/// The kind of activity that an edge of the program activity graph stands for.
#[derive(Clone, Copy, Debug)]
pub enum ActivityType {
    /// Operator scheduled, not yet known whether it did work.
    Scheduling,
    /// Operator doing work.
    Processing,
    /// Operator scheduled without doing work.
    Spinning,
    /// Remote control message, such as progress.
    ControlMessage,
    /// Remote data message.
    DataMessage,
    /// Waiting to be unblocked.
    Waiting,
    /// Waiting while the next activity is prepared.
    Busy,
}

/// A node of the program activity graph: an event of one worker.
#[derive(Clone, Copy, Debug)]
pub struct PagNode {
    /// When the event happened.
    pub timestamp: Duration,
    /// The worker that logged it.
    pub worker_id: u64,
    /// The epoch it belongs to.
    pub epoch: u64,
    /// Whether it is the first event of its epoch on its worker.
    pub start: bool,
    /// Whether it is the last event of its epoch on its worker.
    pub end: bool,
}

/// An edge of the program activity graph: an activity between two events.
#[derive(Clone, Copy, Debug)]
pub struct PagEdge {
    /// The event where the activity begins.
    pub source: PagNode,
    /// The event where the activity ends.
    pub destination: PagNode,
    /// What the activity is.
    pub edge_type: ActivityType,
}

impl ActivityType {
    /// Whether this is the `Waiting` activity.
    pub fn is_waiting(&self) -> (r: bool)
        ensures
            r == (*self is Waiting),
    {
        match self {
            ActivityType::Waiting => true,
            _ => false,
        }
    }
}

impl PagNode {
    /// Whether two nodes are the same event.
    pub fn same_as(&self, other: &PagNode) -> (r: bool)
        ensures
            r == (*self == *other),
    {
        self.worker_id == other.worker_id && self.epoch == other.epoch && self.start == other.start
            && self.end == other.end && duration_eq(&self.timestamp, &other.timestamp)
    }
}

/// The node at which an exploration joins an edge with the frontier: the
/// destination when exploring forward, the source when exploring backward.
pub open spec fn join_node(e: PagEdge, forward: bool) -> PagNode {
    if forward {
        e.destination
    } else {
        e.source
    }
}

/// The node under which an exploration groups an edge as outgoing: the
/// source when exploring forward, the destination when exploring backward.
pub open spec fn group_node(e: PagEdge, forward: bool) -> PagNode {
    if forward {
        e.source
    } else {
        e.destination
    }
}

impl PagEdge {
    /// Whether the critical-participation metric traverses this edge:
    /// waiting edges are traversed only when asked for.
    pub fn is_traversed(&self, with_waiting: bool) -> (r: bool)
        ensures
            r == (with_waiting || !(self.edge_type is Waiting)),
    {
        with_waiting || !self.edge_type.is_waiting()
    }

    /// Whether a forward exploration starts from this edge: its source
    /// opens an epoch.
    pub fn starts_forward(&self) -> (r: bool)
        ensures
            r == self.source.start,
    {
        self.source.start
    }

    /// Whether a backward exploration starts from this edge: its
    /// destination closes an epoch.
    pub fn starts_backward(&self) -> (r: bool)
        ensures
            r == self.destination.end,
    {
        self.destination.end
    }

    /// The join node of this edge (see `join_node`).
    pub fn join(&self, forward: bool) -> (n: PagNode)
        ensures
            n == join_node(*self, forward),
    {
        if forward {
            self.destination
        } else {
            self.source
        }
    }

    /// The group node of this edge (see `group_node`).
    pub fn group(&self, forward: bool) -> (n: PagNode)
        ensures
            n == group_node(*self, forward),
    {
        if forward {
            self.source
        } else {
            self.destination
        }
    }
}

} // verus!
