//! Change notifications that workspaces and replicas publish to their
//! observers.

use vstd::prelude::*;

verus! {

/// A change of a peer-to-peer workspace.
#[derive(Clone, Copy, Debug, PartialEq, Eq, Structural)]
pub enum WorkspaceEvent {
    ContentChanged,
    StatusChanged,
}

/// A change of a workspace held in an Automerge document.
#[derive(Clone, Copy, Debug, PartialEq, Eq, Structural)]
pub enum AutomergeWorkspaceEvent {
    ContentChanged,
    MembershipChanged,
    StatusChanged,
}

/// A change of a replica synchronized through the central server.
#[derive(Clone, Copy, Debug, PartialEq, Eq, Structural)]
pub enum ReplicaEvent {
    ContentChanged,
    StatusChanged,
}

} // verus!
