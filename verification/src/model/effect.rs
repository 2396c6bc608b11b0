//! First-visit effects and the randomized policy that seeds them.

use vstd::prelude::*;

use rand::Rng;

verus! {

/// A probability written as the exact ratio `numerator / denominator`.
#[derive(Clone, Copy, PartialEq, Eq, Structural, Debug)]
pub struct Chance {
    pub numerator: u32,
    pub denominator: u32,
}

impl Chance {
    /// A chance is meaningful when it lies in `[0, 1]`.
    pub open spec fn wf(self) -> bool {
        0 < self.denominator && self.numerator <= self.denominator
    }
}

/// A deferred, data-described action attached to a node and executed exactly
/// once, on the first visit to that node. Effects are data; the game
/// interprets them.
#[derive(Clone, Copy, PartialEq, Eq, Structural, Debug)]
pub enum Effect {
    /// Expand the graph around the newly visited node: create this many brand
    /// new neighbours, then connect up to this many already unvisited nodes.
    GenerateSurroundings {
        connections_with_new_nodes: u8,
        connections_to_unvisited_nodes: u8,
    },
    /// Roll a Bernoulli trial and, on success, place one occupant at the
    /// newly visited node.
    SpawnNpc { spawn_chance: Chance },
}

/// The shape of a freshly rolled surroundings effect: two or three new
/// neighbours, and at most two reconnections to unvisited nodes.
pub open spec fn is_surroundings_roll(e: Effect) -> bool {
    match e {
        Effect::GenerateSurroundings {
            connections_with_new_nodes,
            connections_to_unvisited_nodes,
        } => 2 <= connections_with_new_nodes <= 3 && connections_to_unvisited_nodes <= 2,
        Effect::SpawnNpc { .. } => false,
    }
}

/// The NPC-spawn effect every node is seeded with: a trial that always fires.
pub open spec fn certain_npc_effect() -> Effect {
    Effect::SpawnNpc { spawn_chance: (Chance { numerator: 1, denominator: 1 }) }
}

/// The queue every node carries at creation: one surroundings roll, then one
/// certain NPC spawn, in that order.
pub open spec fn seeded_effects(effects: Seq<Effect>) -> bool {
    &&& effects.len() == 2
    &&& is_surroundings_roll(effects[0])
    &&& effects[1] == certain_npc_effect()
}

/// Relies on `rand::Rng::gen_range` over `low..high`: a uniform draw from the
/// half-open range. It panics only on an empty range, which `requires` rules
/// out.
#[verifier::external_body]
fn random_in_range(low: u8, high: u8) -> (r: u8)
    requires
        low < high,
    ensures
        low <= r < high,
{
    rand::thread_rng().gen_range(low..high)
}

/// Roll the surroundings effect a new node is seeded with: two or three
/// brand-new neighbours, and zero to two reconnections, drawn uniformly.
pub fn generate_surroundings_effect() -> (e: Effect)
    ensures
        is_surroundings_roll(e),
{
    Effect::GenerateSurroundings {
        connections_with_new_nodes: random_in_range(2, 4),
        connections_to_unvisited_nodes: random_in_range(0, 3),
    }
}

/// The NPC-spawn effect a new node is seeded with: it always fires.
pub fn spawn_npc_effect() -> (e: Effect)
    ensures
        e == certain_npc_effect(),
{
    Effect::SpawnNpc { spawn_chance: Chance { numerator: 1, denominator: 1 } }
}

} // verus!
