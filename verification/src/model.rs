//! The game's data model: nodes and connections, first-visit effects, and
//! the orchestrating [`game::Game`].

pub mod effect;
pub mod game;
pub mod node;

pub use effect::{Chance, Effect};
pub use game::Game;
pub use node::{Connection, Node, NodeId, NodeStatus, Npc};
