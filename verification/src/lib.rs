//! State core of a text-driven exploration game: a lazily expanded graph of
//! locations, the rules that fire when a node is first visited, and the
//! protocol that decides which actions are legal from the player's position.

use vstd::prelude::*;

pub mod error;
pub mod model;

use crate::model::node::NodeId;

verus! {

/// One legal action offered to the player. The surrounding input loop
/// enumerates these, collects a validated index, and hands the chosen
/// action back to the game.
#[derive(Clone, Copy, PartialEq, Eq, Structural, Debug)]
pub enum PlayerChoice {
    /// End the session (after a confirmation handled by the caller).
    Quit,
    /// Move to an adjacent, not yet visited node.
    DiscoverNode(NodeId),
    /// Move to an adjacent, already visited node.
    VisitNode(NodeId),
    /// Address the occupant with this index at the current node.
    TalkTo(usize),
}

} // verus!
