//! Nodes of the exploration graph, their identifiers, and undirected
//! connections between them.

use vstd::prelude::*;

use crate::model::effect::{generate_surroundings_effect, seeded_effects, spawn_npc_effect, Effect};

verus! {

/// Identifier of a node: an index into the game's append-only node table.
/// Stable for the lifetime of the game; never reused or renumbered.
#[derive(Clone, Copy, PartialEq, Eq, Structural, Debug)]
pub struct NodeId(pub usize);

/// An undirected edge: the pair `(a, b)` denotes the same edge as `(b, a)`.
#[derive(Clone, Copy, Eq, Debug)]
pub struct Connection(pub (NodeId, NodeId));

impl Connection {
    /// `node` is one of the edge's two endpoints.
    pub open spec fn spec_contains(self, node: NodeId) -> bool {
        self.0.0 == node || self.0.1 == node
    }

    /// The endpoint opposite `node`.
    pub open spec fn spec_other_end(self, node: NodeId) -> NodeId {
        if self.0.0 == node {
            self.0.1
        } else {
            self.0.0
        }
    }

    /// Symmetric edge identity: two connections are the same edge when they
    /// join the same endpoints, in either orientation.
    pub open spec fn spec_eq(self, other: Connection) -> bool {
        ||| (self.0.0 == other.0.0 && self.0.1 == other.0.1)
        ||| (self.0.0 == other.0.1 && self.0.1 == other.0.0)
    }

    pub fn contains(&self, node: NodeId) -> (r: bool)
        ensures
            r == self.spec_contains(node),
    {
        self.0.0 == node || self.0.1 == node
    }

    /// The other endpoint of this edge. Callers establish containment first:
    /// querying with a node that is not an endpoint is undefined.
    pub fn other_end(&self, node: NodeId) -> (r: NodeId)
        requires
            self.spec_contains(node),
        ensures
            r == self.spec_other_end(node),
    {
        if self.0.0 == node {
            self.0.1
        } else {
            self.0.0
        }
    }
}

impl PartialEq for Connection {
    fn eq(&self, other: &Self) -> (r: bool) {
        (self.0.0 == other.0.0 && self.0.1 == other.0.1) || (self.0.0 == other.0.1 && self.0.1
            == other.0.0)
    }
}

impl vstd::std_specs::cmp::PartialEqSpecImpl for Connection {
    open spec fn obeys_eq_spec() -> bool {
        true
    }

    open spec fn eq_spec(&self, other: &Self) -> bool {
        self.spec_eq(*other)
    }
}

/// A node's visitation state. Monotonic: a node moves from `Unvisited` to
/// `Visited` at most once, never back.
#[derive(Clone, Copy, PartialEq, Eq, Structural, Debug)]
pub enum NodeStatus {
    Visited,
    Unvisited,
}

/// A minimal occupant entity, owned by the node that holds it.
#[derive(Clone, Copy, PartialEq, Eq, Structural, Debug)]
pub struct Npc {}

/// A single location: its visitation state, the queue of effects to run on
/// first visit (drained exactly once), and its occupants.
#[derive(Clone, Debug)]
pub struct Node {
    pub status: NodeStatus,
    pub on_first_visit_effects: Vec<Effect>,
    pub npcs: Vec<Npc>,
}

/// A node as `Node::new` returns it: unvisited, unoccupied, and carrying the
/// two seeded first-visit effects.
pub open spec fn freshly_seeded(n: Node) -> bool {
    &&& n.status == NodeStatus::Unvisited
    &&& n.npcs@ == Seq::<Npc>::empty()
    &&& seeded_effects(n.on_first_visit_effects@)
}

impl Node {
    /// Create an unvisited node, seeded with the default first-visit policy:
    /// one surroundings roll, then one certain NPC spawn.
    pub fn new() -> (n: Node)
        ensures
            freshly_seeded(n),
    {
        let mut effects: Vec<Effect> = Vec::new();
        effects.push(generate_surroundings_effect());
        effects.push(spawn_npc_effect());
        Node { status: NodeStatus::Unvisited, on_first_visit_effects: effects, npcs: Vec::new() }
    }
}

} // verus!
