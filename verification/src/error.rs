//! Errors surfaced at the game-core boundary.

use vstd::prelude::*;

use crate::model::node::NodeId;

verus! {

/// The two error kinds the core can report. Both are recoverable: the
/// surrounding session loop decides whether to abort or to go on.
#[derive(Clone, Copy, PartialEq, Eq, Structural, Debug)]
pub enum RpgError {
    /// A lookup used an id that does not index the node table.
    UnknownNodeId(NodeId),
    /// A move targeted a node that is not adjacent to the current one;
    /// the fields are the current node and the rejected target.
    NodeNotConnected(NodeId, NodeId),
}

pub type RpgResult<T> = Result<T, RpgError>;

} // verus!
