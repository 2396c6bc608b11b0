//! The orchestrator: owns the node table, the connection set and the
//! player's position; grows the graph and validates choices.

use vstd::prelude::*;

use crate::error::{RpgError, RpgResult};
use crate::model::effect::{certain_npc_effect, is_surroundings_roll, seeded_effects, Chance,
    Effect};
use crate::model::node::{freshly_seeded, Connection, Node, NodeId, NodeStatus, Npc};
use crate::PlayerChoice;

use rand::seq::SliceRandom;
use rand::Rng;

verus! {

broadcast use vstd::std_specs::vec::axiom_spec_len;

/// The exploration game: an append-only node table, a deduplicated set of
/// undirected connections, and the player's current position. `NodeId` is
/// the only external reference into the table, so nodes can be added without
/// invalidating ids already handed out.
pub struct Game {
    nodes: Vec<Node>,
    connections: Vec<Connection>,
    current_node: NodeId,
}

/// Edge `c` joins `a` and `b`, in either orientation.
pub open spec fn links(c: Connection, a: NodeId, b: NodeId) -> bool {
    (c.0.0 == a && c.0.1 == b) || (c.0.0 == b && c.0.1 == a)
}

/// Some edge of `s` joins `a` and `b`.
pub open spec fn has_edge(s: Seq<Connection>, a: NodeId, b: NodeId) -> bool {
    exists|i: int| 0 <= i < s.len() && links(#[trigger] s[i], a, b)
}

/// Idempotent insertion into the connection set: an edge already present, in
/// either orientation, is not added again.
pub open spec fn insert_edge(s: Seq<Connection>, c: Connection) -> Seq<Connection> {
    if has_edge(s, c.0.0, c.0.1) {
        s
    } else {
        s.push(c)
    }
}

/// How many entries of `s` are the edge joining `a` and `b`.
pub open spec fn edge_count(s: Seq<Connection>, a: NodeId, b: NodeId) -> nat
    decreases s.len(),
{
    if s.len() == 0 {
        0
    } else {
        edge_count(s.drop_last(), a, b) + if links(s.last(), a, b) {
            1nat
        } else {
            0nat
        }
    }
}

/// No two entries of `s` are the same edge under symmetric identity.
pub open spec fn dup_free(s: Seq<Connection>) -> bool {
    forall|i: int, j: int|
        #![trigger s[i], s[j]]
        0 <= i < j < s.len() ==> !links(s[i], s[j].0.0, s[j].0.1)
}

/// A connection is sound for a table of `n` nodes: both endpoints are live
/// and it is not a self-loop.
pub open spec fn conn_wf(c: Connection, n: nat) -> bool {
    c.0.0.0 < n && c.0.1.0 < n && c.0.0 != c.0.1
}

/// A node of a reachable game: a visited node has drained its queue for
/// good; an unvisited node still carries the seeded queue and no occupants.
pub open spec fn node_wf(node: Node) -> bool {
    &&& node.status == NodeStatus::Visited ==> node.on_first_visit_effects@ == Seq::<
        Effect,
    >::empty()
    &&& node.status == NodeStatus::Unvisited ==> seeded_effects(node.on_first_visit_effects@)
        && node.npcs@ == Seq::<Npc>::empty()
}

impl Game {
    /// The node table, indexed by `NodeId`.
    pub closed spec fn nodes_seq(self) -> Seq<Node> {
        self.nodes@
    }

    /// The connection set, in insertion order.
    pub closed spec fn conns_seq(self) -> Seq<Connection> {
        self.connections@
    }

    /// The player's current position.
    pub closed spec fn cur(self) -> NodeId {
        self.current_node
    }

    /// `a` and `b` are adjacent.
    pub open spec fn connected(self, a: NodeId, b: NodeId) -> bool {
        has_edge(self.conns_seq(), a, b)
    }

    /// The game's invariant: the current position indexes a live node, every
    /// connection joins two distinct live nodes, no edge is stored twice, and
    /// every node is in a reachable visitation state.
    pub open spec fn wf(self) -> bool {
        &&& self.cur().0 < self.nodes_seq().len()
        &&& forall|i: int|
            0 <= i < self.conns_seq().len() ==> conn_wf(
                #[trigger] self.conns_seq()[i],
                self.nodes_seq().len(),
            )
        &&& dup_free(self.conns_seq())
        &&& forall|i: int| 0 <= i < self.nodes_seq().len() ==> node_wf(#[trigger] self.nodes_seq()[i])
    }

    /// Look a node up by id; an id outside the table is the `UnknownNodeId`
    /// error.
    pub fn get_node(&self, id: NodeId) -> (r: RpgResult<&Node>)
        ensures
            id.0 < self.nodes_seq().len() ==> (r matches Ok(node) && *node == self.nodes_seq()[id.0
                as int]),
            id.0 >= self.nodes_seq().len() ==> (r matches Err(e) && e == RpgError::UnknownNodeId(
                id,
            )),
    {
        if id.0 < self.nodes.len() {
            Ok(&self.nodes[id.0])
        } else {
            Err(RpgError::UnknownNodeId(id))
        }
    }

    /// Look a node up by id for mutation; an id outside the table is the
    /// `UnknownNodeId` error. What the caller writes through the reference is
    /// what the table ends up holding.
    pub fn get_node_mut(&mut self, id: NodeId) -> (r: RpgResult<&mut Node>)
        ensures
            id.0 < old(self).nodes_seq().len() ==> (r matches Ok(node) && *node == old(
                self,
            ).nodes_seq()[id.0 as int] && final(self).nodes_seq() == old(self).nodes_seq().update(
                id.0 as int,
                *final(node),
            )),
            id.0 >= old(self).nodes_seq().len() ==> (r matches Err(e) && e
                == RpgError::UnknownNodeId(id)) && *final(self) == *old(self),
            final(self).conns_seq() == old(self).conns_seq(),
            final(self).cur() == old(self).cur(),
            final(self).nodes_seq().len() == old(self).nodes_seq().len(),
    {
        if id.0 < self.nodes.len() {
            Ok(&mut self.nodes[id.0])
        } else {
            Err(RpgError::UnknownNodeId(id))
        }
    }

    /// The id of the node the player occupies, and a mutable view of it.
    pub fn get_current_node_mut(&mut self) -> (r: (NodeId, &mut Node))
        requires
            old(self).wf(),
        ensures
            r.0 == old(self).cur(),
            *r.1 == old(self).nodes_seq()[old(self).cur().0 as int],
            final(self).nodes_seq() == old(self).nodes_seq().update(
                old(self).cur().0 as int,
                *final(r.1),
            ),
            final(self).conns_seq() == old(self).conns_seq(),
            final(self).cur() == old(self).cur(),
    {
        let at = self.current_node;
        (at, &mut self.nodes[at.0])
    }

    /// The id of the node the player occupies, and a read-only view of it.
    pub fn get_current_node(&self) -> (r: (NodeId, &Node))
        requires
            self.wf(),
        ensures
            r.0 == self.cur(),
            *r.1 == self.nodes_seq()[self.cur().0 as int],
    {
        (self.current_node, &self.nodes[self.current_node.0])
    }

    /// The ids of all nodes with the given status, in increasing id order.
    pub fn get_node_ids_with_status(&self, status: NodeStatus) -> (r: Vec<NodeId>)
        ensures
            r@ == ids_with_status(self.nodes_seq(), status),
    {
        let mut ids: Vec<NodeId> = Vec::new();
        let mut i: usize = 0;
        while i < self.nodes.len()
            invariant
                i <= self.nodes.len(),
                ids@ == ids_with_status(self.nodes_seq().take(i as int), status),
            decreases self.nodes.len() - i,
        {
            let ghost prefix = self.nodes_seq().take(i as int);
            if self.nodes[i].status == status {
                ids.push(NodeId(i));
            }
            i += 1;
            proof {
                let longer = self.nodes_seq().take(i as int);
                assert(longer.drop_last() =~= prefix);
                assert(longer.last() == self.nodes_seq()[i - 1]);
            }
        }
        proof {
            assert(self.nodes_seq().take(self.nodes_seq().len() as int) =~= self.nodes_seq());
        }
        ids
    }

    /// Insert an edge, keeping the set deduplicated under symmetric identity:
    /// an edge already present, in either orientation, is left alone.
    fn insert_connection(&mut self, c: Connection)
        requires
            old(self).wf(),
            conn_wf(c, old(self).nodes_seq().len()),
        ensures
            final(self).wf(),
            final(self).nodes_seq() == old(self).nodes_seq(),
            final(self).cur() == old(self).cur(),
            final(self).conns_seq() == insert_edge(old(self).conns_seq(), c),
    {
        let mut i: usize = 0;
        while i < self.connections.len()
            invariant
                *self == *old(self),
                old(self).wf(),
                conn_wf(c, old(self).nodes_seq().len()),
                i <= self.connections.len(),
                forall|j: int| 0 <= j < i ==> !links(#[trigger] self.conns_seq()[j], c.0.0, c.0.1),
            decreases self.connections.len() - i,
        {
            if self.connections[i] == c {
                proof {
                    assert(links(self.conns_seq()[i as int], c.0.0, c.0.1));
                    assert(has_edge(self.conns_seq(), c.0.0, c.0.1));
                }
                return ;
            }
            i += 1;
        }
        assert(!has_edge(self.conns_seq(), c.0.0, c.0.1));
        self.connections.push(c);
        proof {
            let s = self.conns_seq();
            let olds = old(self).conns_seq();
            assert forall|i: int, j: int|
                #![trigger s[i], s[j]]
                0 <= i < j < s.len() implies !links(s[i], s[j].0.0, s[j].0.1) by {
                if j < olds.len() {
                    assert(s[i] == olds[i] && s[j] == olds[j]);
                } else {
                    assert(s[j] == c);
                    assert(s[i] == olds[i]);
                }
            }
            assert forall|i: int|
                0 <= i < s.len() implies conn_wf(#[trigger] s[i], self.nodes_seq().len()) by {
                if i < olds.len() {
                    assert(s[i] == olds[i]);
                }
            }
        }
    }

    /// Interpret a `SpawnNpc` effect at the current node: roll the trial and,
    /// on success, place one occupant there.
    fn generate_npc(&mut self, spawn_chance: Chance)
        requires
            old(self).wf(),
            spawn_chance.wf(),
            old(self).nodes_seq()[old(self).cur().0 as int].status == NodeStatus::Visited,
        ensures
            final(self).wf(),
            npc_fired(*old(self), *final(self), old(self).cur(), spawn_chance),
    {
        if random_ratio(spawn_chance.numerator, spawn_chance.denominator) {
            let at = self.current_node;
            let node = &mut self.nodes[at.0];
            node.npcs.push(Npc {  });
        }
    }

    /// Interpret a `GenerateSurroundings` effect at the current node: create
    /// the rolled number of fresh neighbours, then draw up to the rolled
    /// number of extra edges to unvisited nodes, shuffled into random order
    /// and taken without replacement.
    fn generate_surroundings(&mut self, connections_with_new_nodes: u8, connections_to_unvisited_nodes: u8)
        requires
            old(self).wf(),
            old(self).nodes_seq()[old(self).cur().0 as int].status == NodeStatus::Visited,
        ensures
            final(self).wf(),
            surroundings_fired(
                *old(self),
                *final(self),
                old(self).cur(),
                connections_with_new_nodes,
                connections_to_unvisited_nodes,
            ),
    {
        let at = self.current_node;
        let mut k: u8 = 0;
        while k < connections_with_new_nodes
            invariant
                old(self).wf(),
                at == old(self).cur(),
                self.cur() == at,
                k <= connections_with_new_nodes,
                self.wf(),
                self.nodes.len() == self.nodes_seq().len(),
                self.nodes.len() <= usize::MAX,
                self.nodes_seq().len() == old(self).nodes_seq().len() + k,
                forall|i: int|
                    0 <= i < old(self).nodes_seq().len() ==> #[trigger] self.nodes_seq()[i] == old(
                        self,
                    ).nodes_seq()[i],
                forall|i: int|
                    old(self).nodes_seq().len() <= i < self.nodes_seq().len() ==> freshly_seeded(
                        #[trigger] self.nodes_seq()[i],
                    ),
                self.conns_seq().len() == old(self).conns_seq().len() + k,
                forall|i: int|
                    0 <= i < old(self).conns_seq().len() ==> #[trigger] self.conns_seq()[i] == old(
                        self,
                    ).conns_seq()[i],
                forall|j: int|
                    0 <= j < k ==> #[trigger] self.conns_seq()[old(self).conns_seq().len() + j]
                        == (Connection((at, NodeId((old(self).nodes_seq().len() + j) as usize)))),
            decreases connections_with_new_nodes - k,
        {
            let new_node = Node::new();
            let new_node_id = NodeId(self.nodes.len());
            self.nodes.push(new_node);
            let ghost before = *self;
            proof {
                assert forall|i: int|
                    0 <= i < self.conns_seq().len() implies !links(
                    #[trigger] self.conns_seq()[i],
                    at,
                    new_node_id,
                ) by {
                    assert(conn_wf(self.conns_seq()[i], (before.nodes_seq().len() - 1) as nat));
                }
            }
            self.insert_connection(Connection((at, new_node_id)));
            proof {
                assert(self.conns_seq() == before.conns_seq().push(
                    Connection((at, new_node_id)),
                ));
            }
            k += 1;
        }
        let ghost grown = *self;
        let mut unvisited_nodes = self.get_node_ids_with_status(NodeStatus::Unvisited);
        proof {
            assert(self.nodes.len() == self.nodes_seq().len());
            lemma_ids_with_status(self.nodes_seq(), NodeStatus::Unvisited);
        }
        shuffle_node_ids(&mut unvisited_nodes);
        proof {
            broadcast use vstd::seq_lib::group_to_multiset_ensures;

            assert forall|x: NodeId| unvisited_nodes@.contains(x) implies x.0
                < grown.nodes_seq().len() && grown.nodes_seq()[x.0 as int].status
                == NodeStatus::Unvisited by {
                let pre_shuffle = ids_with_status(grown.nodes_seq(), NodeStatus::Unvisited);
                assert(unvisited_nodes@.to_multiset().count(x) > 0);
                assert(pre_shuffle.contains(x));
            }
        }
        let mut t: u8 = 0;
        while t < connections_to_unvisited_nodes
            invariant
                grown.wf(),
                at == grown.cur(),
                grown.nodes_seq()[at.0 as int].status == NodeStatus::Visited,
                t <= connections_to_unvisited_nodes,
                self.wf(),
                self.cur() == at,
                self.nodes_seq() == grown.nodes_seq(),
                forall|x: NodeId|
                    unvisited_nodes@.contains(x) ==> x.0 < grown.nodes_seq().len()
                        && grown.nodes_seq()[x.0 as int].status == NodeStatus::Unvisited,
                forall|i: int|
                    0 <= i < grown.conns_seq().len() ==> #[trigger] self.conns_seq()[i]
                        == grown.conns_seq()[i],
                grown.conns_seq().len() <= self.conns_seq().len() <= grown.conns_seq().len() + t,
                forall|j: int|
                    grown.conns_seq().len() <= j < self.conns_seq().len() ==> (
                    #[trigger] self.conns_seq()[j]).0.0 == at && self.conns_seq()[j].0.1.0
                        < grown.nodes_seq().len() && grown.nodes_seq()[self.conns_seq()[j].0.1.0
                        as int].status == NodeStatus::Unvisited,
            decreases connections_to_unvisited_nodes - t,
        {
            let ghost pre_pop = unvisited_nodes@;
            if let Some(id) = unvisited_nodes.pop() {
                proof {
                    assert(pre_pop.contains(id)) by {
                        assert(pre_pop[pre_pop.len() - 1] == id);
                    }
                    assert(grown.nodes_seq()[id.0 as int].status == NodeStatus::Unvisited);
                    assert(at != id);
                    assert forall|x: NodeId| unvisited_nodes@.contains(x) implies x.0
                        < grown.nodes_seq().len() && grown.nodes_seq()[x.0 as int].status
                        == NodeStatus::Unvisited by {
                        let ix = choose|ix: int|
                            0 <= ix < unvisited_nodes@.len() && unvisited_nodes@[ix] == x;
                        assert(pre_pop[ix] == x);
                        assert(pre_pop.contains(x));
                    }
                }
                let ghost before = *self;
                self.insert_connection(Connection((at, id)));
                proof {
                    assert(self.conns_seq() == insert_edge(
                        before.conns_seq(),
                        Connection((at, id)),
                    ));
                }
            }
            t += 1;
        }
        proof {
            let pre = *old(self);
            let oc = pre.conns_seq().len() as int;
            let on = pre.nodes_seq().len() as int;
            assert forall|k: int|
                0 <= k < connections_with_new_nodes implies #[trigger] self.conns_seq()[oc + k]
                == (Connection((at, NodeId((on + k) as usize)))) by {
                assert(grown.conns_seq()[oc + k] == (Connection((at, NodeId((on + k) as usize)))));
                assert(self.conns_seq()[oc + k] == grown.conns_seq()[oc + k]);
            }
            assert forall|j: int|
                oc <= j < self.conns_seq().len() implies (#[trigger] self.conns_seq()[j]).0.0 == at
                && self.conns_seq()[j].0.1.0 < self.nodes_seq().len() && self.nodes_seq()[
            self.conns_seq()[j].0.1.0 as int].status == NodeStatus::Unvisited by {
                if j < grown.conns_seq().len() {
                    let k = j - oc;
                    assert(grown.conns_seq()[oc + k] == (Connection(
                        (at, NodeId((on + k) as usize)),
                    )));
                    assert(self.conns_seq()[j] == grown.conns_seq()[j]);
                    assert(freshly_seeded(self.nodes_seq()[on + k]));
                }
            }
        }
    }

    /// The visit procedure: move the player to `node_id`; on a first visit,
    /// mark the node visited, drain its queue for good, and interpret the
    /// drained effects in order. Re-visiting changes nothing but the
    /// position. Every id this game has issued stays valid.
    fn move_to(&mut self, node_id: NodeId) -> (r: RpgResult<()>)
        requires
            old(self).wf(),
            node_id.0 < old(self).nodes_seq().len(),
        ensures
            r is Ok,
            final(self).wf(),
            visit_outcome(*old(self), *final(self), node_id),
    {
        self.current_node = node_id;

        if self.nodes[node_id.0].status == NodeStatus::Unvisited {
            let node = &mut self.nodes[node_id.0];
            node.status = NodeStatus::Visited;
            let mut first_visit_effects: Vec<Effect> = Vec::new();
            core::mem::swap(&mut first_visit_effects, &mut node.on_first_visit_effects);
            let ghost fx = first_visit_effects@;
            let ghost mid = *self;
            proof {
                assert(fx == old(self).nodes_seq()[node_id.0 as int].on_first_visit_effects@);
                assert(seeded_effects(fx));
                assert forall|i: int|
                    0 <= i < mid.nodes_seq().len() implies node_wf(
                    #[trigger] mid.nodes_seq()[i],
                ) by {
                    if i != node_id.0 {
                        assert(mid.nodes_seq()[i] == old(self).nodes_seq()[i]);
                    }
                }
                assert(mid.wf());
            }
            let ghost mut stage1 = *self;
            let mut k: usize = 0;
            while k < first_visit_effects.len()
                invariant
                    fx == first_visit_effects@,
                    fx.len() == 2,
                    is_surroundings_roll(fx[0]),
                    fx[1] == certain_npc_effect(),
                    mid.wf(),
                    mid.cur() == node_id,
                    node_id.0 < mid.nodes_seq().len(),
                    mid.nodes_seq()[node_id.0 as int].status == NodeStatus::Visited,
                    k <= 2,
                    self.wf(),
                    k == 0 ==> *self == mid,
                    k >= 1 ==> surroundings_fired(
                        mid,
                        stage1,
                        node_id,
                        surroundings_roll_w(fx[0]),
                        surroundings_roll_u(fx[0]),
                    ) && stage1.wf(),
                    k == 1 ==> *self == stage1,
                    k == 2 ==> npc_fired(
                        stage1,
                        *self,
                        node_id,
                        (Chance { numerator: 1, denominator: 1 }),
                    ),
                decreases 2 - k,
            {
                let effect = first_visit_effects[k];
                match effect {
                    Effect::GenerateSurroundings {
                        connections_with_new_nodes,
                        connections_to_unvisited_nodes,
                    } => {
                        proof {
                            assert(k == 0);
                        }
                        self.generate_surroundings(
                            connections_with_new_nodes,
                            connections_to_unvisited_nodes,
                        );
                        proof {
                            stage1 = *self;
                        }
                    },
                    Effect::SpawnNpc { spawn_chance } => {
                        proof {
                            assert(k == 1);
                            assert(spawn_chance == (Chance { numerator: 1, denominator: 1 }));
                            assert(stage1.nodes_seq()[node_id.0 as int].status
                                == NodeStatus::Visited);
                        }
                        self.generate_npc(spawn_chance);
                    },
                }
                k += 1;
            }
            proof {
                let pre = *old(self);
                let post = *self;
                let w = surroundings_roll_w(fx[0]);
                assert forall|i: int|
                    0 <= i < pre.nodes_seq().len() && i != node_id.0 implies #[trigger] post.nodes_seq()[i]
                    == pre.nodes_seq()[i] by {
                    assert(post.nodes_seq()[i] == stage1.nodes_seq()[i]);
                    assert(stage1.nodes_seq()[i] == mid.nodes_seq()[i]);
                }
                assert forall|i: int|
                    pre.nodes_seq().len() <= i < post.nodes_seq().len() implies freshly_seeded(
                    #[trigger] post.nodes_seq()[i],
                ) by {
                    assert(post.nodes_seq()[i] == stage1.nodes_seq()[i]);
                }
                assert forall|i: int|
                    0 <= i < pre.conns_seq().len() implies #[trigger] post.conns_seq()[i]
                    == pre.conns_seq()[i] by {
                    assert(stage1.conns_seq()[i] == mid.conns_seq()[i]);
                }
                assert forall|kk: int|
                    0 <= kk < w implies #[trigger] post.conns_seq()[pre.conns_seq().len() + kk]
                    == (Connection((node_id, NodeId((pre.nodes_seq().len() + kk) as usize)))) by {
                    assert(stage1.conns_seq()[mid.conns_seq().len() + kk] == (Connection(
                        (node_id, NodeId((mid.nodes_seq().len() + kk) as usize)),
                    )));
                }
                assert forall|j: int|
                    pre.conns_seq().len() <= j < post.conns_seq().len() implies (
                #[trigger] post.conns_seq()[j]).0.0 == node_id && post.conns_seq()[j].0.1.0
                    < post.nodes_seq().len() && post.nodes_seq()[post.conns_seq()[j].0.1.0
                    as int].status == NodeStatus::Unvisited by {
                    assert((#[trigger] stage1.conns_seq()[j]).0.0 == node_id
                        && stage1.conns_seq()[j].0.1.0 < stage1.nodes_seq().len()
                        && stage1.nodes_seq()[stage1.conns_seq()[j].0.1.0 as int].status
                        == NodeStatus::Unvisited);
                    let other = stage1.conns_seq()[j].0.1.0 as int;
                    if other == node_id.0 {
                        assert(stage1.nodes_seq()[other].status == NodeStatus::Visited);
                    }
                    assert(post.nodes_seq()[other] == stage1.nodes_seq()[other]);
                }
                assert(discovery_fired(pre, post, node_id));
            }
        }
        Ok(())
    }

    /// Move to an adjacent node. A target that is not connected to the
    /// current node is rejected with `NodeNotConnected` and nothing changes;
    /// otherwise the visit procedure runs.
    pub fn visit_surrounding_node(&mut self, node_id: NodeId) -> (r: RpgResult<()>)
        requires
            old(self).wf(),
        ensures
            final(self).wf(),
            old(self).connected(old(self).cur(), node_id) ==> r is Ok && visit_outcome(
                *old(self),
                *final(self),
                node_id,
            ),
            !old(self).connected(old(self).cur(), node_id) ==> (r matches Err(e) && e
                == RpgError::NodeNotConnected(old(self).cur(), node_id)) && *final(self) == *old(
                self,
            ),
    {
        let probe = Connection((self.current_node, node_id));
        let mut found = false;
        let mut i: usize = 0;
        while i < self.connections.len()
            invariant
                *self == *old(self),
                probe == (Connection((old(self).cur(), node_id))),
                i <= self.connections.len(),
                found <==> has_edge(self.conns_seq().take(i as int), old(self).cur(), node_id),
            decreases self.connections.len() - i,
        {
            let ghost prefix = self.conns_seq().take(i as int);
            if self.connections[i] == probe {
                found = true;
            }
            i += 1;
            proof {
                let longer = self.conns_seq().take(i as int);
                assert(longer.drop_last() =~= prefix);
                assert(longer.last() == self.conns_seq()[i - 1]);
                if found {
                    if links(self.conns_seq()[i - 1], old(self).cur(), node_id) {
                        assert(has_edge(longer, old(self).cur(), node_id));
                    } else {
                        let w = choose|w: int|
                            0 <= w < prefix.len() && links(prefix[w], old(self).cur(), node_id);
                        assert(links(longer[w], old(self).cur(), node_id));
                        assert(has_edge(longer, old(self).cur(), node_id));
                    }
                } else {
                    assert forall|w: int|
                        0 <= w < longer.len() implies !links(
                        #[trigger] longer[w],
                        old(self).cur(),
                        node_id,
                    ) by {
                        if w < prefix.len() {
                            assert(longer[w] == prefix[w]);
                        }
                    }
                }
            }
        }
        proof {
            assert(self.conns_seq().take(self.conns_seq().len() as int) =~= self.conns_seq());
        }
        if !found {
            return Err(RpgError::NodeNotConnected(self.current_node, node_id));
        }
        proof {
            let w = choose|w: int|
                0 <= w < self.conns_seq().len() && links(
                    self.conns_seq()[w],
                    old(self).cur(),
                    node_id,
                );
            assert(conn_wf(self.conns_seq()[w], self.nodes_seq().len()));
        }
        self.move_to(node_id)
    }

    /// The ids of all nodes adjacent to the current one, in the connection
    /// set's order.
    pub fn get_surrounding_node_ids(&self) -> (r: Vec<NodeId>)
        requires
            self.wf(),
        ensures
            r@ == surrounding_of(*self),
    {
        let mut ids: Vec<NodeId> = Vec::new();
        let mut i: usize = 0;
        while i < self.connections.len()
            invariant
                self.wf(),
                i <= self.connections.len(),
                ids@ == surr_ids(self.conns_seq().take(i as int), self.cur()),
            decreases self.connections.len() - i,
        {
            let ghost prefix = self.conns_seq().take(i as int);
            let c = self.connections[i];
            if c.contains(self.current_node) {
                ids.push(c.other_end(self.current_node));
            }
            i += 1;
            proof {
                let longer = self.conns_seq().take(i as int);
                assert(longer.drop_last() =~= prefix);
                assert(longer.last() == self.conns_seq()[i - 1]);
            }
        }
        proof {
            assert(self.conns_seq().take(self.conns_seq().len() as int) =~= self.conns_seq());
        }
        ids
    }

    /// Each adjacent node, paired with its id, in the connection set's order.
    pub fn get_surrounding_nodes(&self) -> (r: Vec<(NodeId, &Node)>)
        requires
            self.wf(),
        ensures
            r@.len() == surrounding_of(*self).len(),
            forall|k: int|
                0 <= k < r@.len() ==> (#[trigger] r@[k]).0 == surrounding_of(*self)[k] && *r@[k].1
                    == self.nodes_seq()[surrounding_of(*self)[k].0 as int],
    {
        proof {
            lemma_surr_ids_live(self.conns_seq(), self.cur(), self.nodes_seq().len());
        }
        let ids = self.get_surrounding_node_ids();
        let mut out: Vec<(NodeId, &Node)> = Vec::new();
        let mut i: usize = 0;
        while i < ids.len()
            invariant
                self.wf(),
                i <= ids.len(),
                ids@ == surrounding_of(*self),
                forall|k: int|
                    0 <= k < ids@.len() ==> (#[trigger] ids@[k]).0 < self.nodes_seq().len(),
                out@.len() == i,
                forall|k: int|
                    0 <= k < i ==> (#[trigger] out@[k]).0 == ids@[k] && *out@[k].1
                        == self.nodes_seq()[ids@[k].0 as int],
            decreases ids.len() - i,
        {
            let id = ids[i];
            out.push((id, &self.nodes[id.0]));
            i += 1;
        }
        out
    }

    /// The enumerated list the surrounding input loop presents: one move per
    /// adjacent node (`VisitNode` if it was seen before, else
    /// `DiscoverNode`), then one `TalkTo` per occupant of the current node,
    /// then always `Quit`, last.
    pub fn generate_choices(&self) -> (r: Vec<PlayerChoice>)
        requires
            self.wf(),
        ensures
            r@ == choices_of(*self),
    {
        proof {
            lemma_surr_ids_live(self.conns_seq(), self.cur(), self.nodes_seq().len());
        }
        let mut choices: Vec<PlayerChoice> = Vec::new();
        let surrounding = self.get_surrounding_node_ids();
        let mut i: usize = 0;
        while i < surrounding.len()
            invariant
                self.wf(),
                i <= surrounding.len(),
                surrounding@ == surrounding_of(*self),
                forall|k: int|
                    0 <= k < surrounding@.len() ==> (#[trigger] surrounding@[k]).0
                        < self.nodes_seq().len(),
                choices@ =~= Seq::new(i as nat, |k: int| move_choice(*self, surrounding@[k])),
            decreases surrounding.len() - i,
        {
            let id = surrounding[i];
            match self.nodes[id.0].status {
                NodeStatus::Visited => choices.push(PlayerChoice::VisitNode(id)),
                NodeStatus::Unvisited => choices.push(PlayerChoice::DiscoverNode(id)),
            }
            i += 1;
            proof {
                assert(choices@ =~= Seq::new(i as nat, |k: int| move_choice(*self, surrounding@[k])));
            }
        }
        let ghost move_part = choices@;
        let npc_count = self.nodes[self.current_node.0].npcs.len();
        let mut npc_id: usize = 0;
        while npc_id < npc_count
            invariant
                npc_id <= npc_count,
                choices@ =~= move_part + Seq::new(
                    npc_id as nat,
                    |k: int| PlayerChoice::TalkTo(k as usize),
                ),
            decreases npc_count - npc_id,
        {
            choices.push(PlayerChoice::TalkTo(npc_id));
            npc_id += 1;
            proof {
                assert(choices@ =~= move_part + Seq::new(
                    npc_id as nat,
                    |k: int| PlayerChoice::TalkTo(k as usize),
                ));
            }
        }
        choices.push(PlayerChoice::Quit);
        proof {
            assert(choices@ =~= choices_of(*self));
        }
        choices
    }

    /// Execute one choice. `Quit` asks to end the session; a move is gated
    /// on adjacency; talking is a stubbed interaction. The boolean says
    /// whether the session should now confirm quitting.
    pub fn handle_choice(&mut self, choice: &PlayerChoice) -> (r: RpgResult<bool>)
        requires
            old(self).wf(),
        ensures
            final(self).wf(),
            choice matches PlayerChoice::Quit ==> (r matches Ok(q) && q) && *final(self) == *old(
                self,
            ),
            choice matches PlayerChoice::TalkTo(_) ==> (r matches Ok(q) && !q) && *final(self)
                == *old(self),
            choice matches PlayerChoice::DiscoverNode(id) ==> move_handled(
                *old(self),
                *final(self),
                *id,
                r,
            ),
            choice matches PlayerChoice::VisitNode(id) ==> move_handled(
                *old(self),
                *final(self),
                *id,
                r,
            ),
    {
        match choice {
            PlayerChoice::Quit => {
                return Ok(true);
            },
            PlayerChoice::DiscoverNode(node_id) => {
                match self.visit_surrounding_node(*node_id) {
                    Ok(()) => {},
                    Err(e) => {
                        return Err(e);
                    },
                }
            },
            PlayerChoice::VisitNode(node_id) => {
                match self.visit_surrounding_node(*node_id) {
                    Ok(()) => {},
                    Err(e) => {
                        return Err(e);
                    },
                }
            },
            PlayerChoice::TalkTo(_name) => {
                // the stubbed dialogue point: the occupant declines; the
                // caller renders that acknowledgment
            },
        }
        Ok(false)
    }

    /// Build a game with a single seeded spawn node, then run the visit
    /// procedure on it, which seeds the spawn's surroundings and places its
    /// occupant. Construction itself cannot fail; the fallible shape comes
    /// from reusing the visit code path.
    pub fn new() -> (r: RpgResult<Game>)
        ensures
            r matches Ok(game) && ({
                &&& game.wf()
                &&& game.cur().0 == 0
                &&& 3 <= game.nodes_seq().len() <= 4
                &&& game.nodes_seq()[0].status == NodeStatus::Visited
                &&& game.nodes_seq()[0].on_first_visit_effects@ == Seq::<Effect>::empty()
                &&& game.nodes_seq()[0].npcs@.len() == 1
                &&& forall|i: int|
                    1 <= i < game.nodes_seq().len() ==> freshly_seeded(
                        #[trigger] game.nodes_seq()[i],
                    )
                &&& game.conns_seq().len() == game.nodes_seq().len() - 1
                &&& forall|k: int|
                    0 <= k < game.conns_seq().len() ==> #[trigger] game.conns_seq()[k]
                        == (Connection((NodeId(0usize), NodeId((k + 1) as usize))))
            }),
    {
        let spawn = Node::new();
        let mut nodes: Vec<Node> = Vec::new();
        nodes.push(spawn);
        let mut game = Game {
            nodes,
            connections: Vec::new(),
            current_node: NodeId(0),
        };
        proof {
            assert(game.wf());
        }
        let ghost pre = game;
        match game.move_to(NodeId(0)) {
            Ok(()) => {
                proof {
                    let w = surroundings_roll_w(
                        pre.nodes_seq()[0].on_first_visit_effects@[0],
                    ) as int;
                    assert(discovery_fired(pre, game, NodeId(0usize)));
                    assert(game.nodes_seq().len() == 1 + w);
                    assert(game.conns_seq().len() >= w);
                    assert forall|k: int|
                        0 <= k < game.conns_seq().len() implies #[trigger] game.conns_seq()[k]
                        == (Connection((NodeId(0usize), NodeId((k + 1) as usize)))) by {
                        if k < w {
                            assert(game.conns_seq()[0 + k] == (Connection(
                                (NodeId(0usize), NodeId((1 + k) as usize)),
                            )));
                        } else {
                            let other = game.conns_seq()[k].0.1.0 as int;
                            assert(game.nodes_seq()[other].status == NodeStatus::Unvisited);
                            assert(other != 0);
                            assert(1 <= other < 1 + w);
                            let e = other - 1;
                            assert(game.conns_seq()[0 + e] == (Connection(
                                (NodeId(0usize), NodeId((1 + e) as usize)),
                            )));
                            assert(links(
                                game.conns_seq()[e],
                                game.conns_seq()[k].0.0,
                                game.conns_seq()[k].0.1,
                            ));
                            assert(false);
                        }
                    }
                    if game.conns_seq().len() > w {
                        assert(game.conns_seq()[w] == (Connection(
                            (NodeId(0usize), NodeId((w + 1) as usize)),
                        )));
                        assert(conn_wf(game.conns_seq()[w], game.nodes_seq().len()));
                        assert(false);
                    }
                    assert(game.conns_seq().len() == w);
                }
                Ok(game)
            },
            Err(e) => Err(e),
        }
    }
}

/// The ids adjacent to `cur`: for each edge of `conns` touching `cur`, in
/// order, the edge's other endpoint.
pub open spec fn surr_ids(conns: Seq<Connection>, cur: NodeId) -> Seq<NodeId>
    decreases conns.len(),
{
    if conns.len() == 0 {
        Seq::empty()
    } else {
        let rest = surr_ids(conns.drop_last(), cur);
        if conns.last().spec_contains(cur) {
            rest.push(conns.last().spec_other_end(cur))
        } else {
            rest
        }
    }
}

/// The ids adjacent to the current node, in the connection set's order.
pub open spec fn surrounding_of(g: Game) -> Seq<NodeId> {
    surr_ids(g.conns_seq(), g.cur())
}

/// The move offered for an adjacent node: visit it again if it was seen
/// before, else discover it.
pub open spec fn move_choice(g: Game, id: NodeId) -> PlayerChoice {
    if id.0 < g.nodes_seq().len() && g.nodes_seq()[id.0 as int].status == NodeStatus::Visited {
        PlayerChoice::VisitNode(id)
    } else {
        PlayerChoice::DiscoverNode(id)
    }
}

/// Exactly what `generate_choices` returns: the moves, the talks, then one
/// `Quit`, last.
pub open spec fn choices_of(g: Game) -> Seq<PlayerChoice> {
    Seq::new(surrounding_of(g).len(), |k: int| move_choice(g, surrounding_of(g)[k])) + Seq::new(
        g.nodes_seq()[g.cur().0 as int].npcs@.len(),
        |k: int| PlayerChoice::TalkTo(k as usize),
    ) + seq![PlayerChoice::Quit]
}

/// What handling a move choice towards `id` does: gated on adjacency, it
/// either runs the visit procedure and reports no quit, or rejects the move
/// unchanged.
pub open spec fn move_handled(pre: Game, post: Game, id: NodeId, r: RpgResult<bool>) -> bool {
    &&& pre.connected(pre.cur(), id) ==> (r matches Ok(q) && !q) && visit_outcome(pre, post, id)
    &&& !pre.connected(pre.cur(), id) ==> (r matches Err(e) && e == RpgError::NodeNotConnected(
        pre.cur(),
        id,
    )) && post == pre
}

/// Every id adjacent to `cur` indexes a live node, and none of them is `cur`
/// itself, as long as every edge is sound for a table of `n` nodes.
pub proof fn lemma_surr_ids_live(conns: Seq<Connection>, cur: NodeId, n: nat)
    requires
        forall|i: int| 0 <= i < conns.len() ==> conn_wf(#[trigger] conns[i], n),
    ensures
        forall|k: int|
            0 <= k < surr_ids(conns, cur).len() ==> (#[trigger] surr_ids(conns, cur)[k]).0 < n
                && surr_ids(conns, cur)[k] != cur,
    decreases conns.len(),
{
    if conns.len() > 0 {
        assert(forall|i: int|
            0 <= i < conns.drop_last().len() ==> #[trigger] conns.drop_last()[i] == conns[i]);
        lemma_surr_ids_live(conns.drop_last(), cur, n);
        let shorter = surr_ids(conns.drop_last(), cur);
        let full = surr_ids(conns, cur);
        assert(conn_wf(conns[conns.len() - 1], n));
        assert forall|k: int| 0 <= k < full.len() implies (#[trigger] full[k]).0 < n && full[k]
            != cur by {
            if k < shorter.len() {
                assert(full[k] == shorter[k]);
            } else {
                assert(full[k] == conns.last().spec_other_end(cur));
            }
        }
    }
}

/// An id is adjacent to `cur` exactly when some edge joins the two: the list
/// of surroundings and the membership test of the connection set agree.
pub proof fn lemma_surr_ids_iff_connected(conns: Seq<Connection>, cur: NodeId, x: NodeId)
    ensures
        surr_ids(conns, cur).contains(x) <==> has_edge(conns, cur, x),
    decreases conns.len(),
{
    if conns.len() > 0 {
        lemma_surr_ids_iff_connected(conns.drop_last(), cur, x);
        let shorter = surr_ids(conns.drop_last(), cur);
        let full = surr_ids(conns, cur);
        assert(forall|i: int|
            0 <= i < conns.drop_last().len() ==> #[trigger] conns.drop_last()[i] == conns[i]);
        if full.contains(x) {
            let k = choose|k: int| 0 <= k < full.len() && full[k] == x;
            if k < shorter.len() {
                assert(shorter.contains(x));
                let w = choose|w: int|
                    0 <= w < conns.drop_last().len() && links(conns.drop_last()[w], cur, x);
                assert(links(conns[w], cur, x));
            } else {
                assert(conns.last().spec_contains(cur) && conns.last().spec_other_end(cur) == x);
                assert(links(conns[conns.len() - 1], cur, x));
            }
            assert(has_edge(conns, cur, x));
        }
        if has_edge(conns, cur, x) {
            let w = choose|w: int| 0 <= w < conns.len() && links(conns[w], cur, x);
            if w < conns.len() - 1 {
                assert(links(conns.drop_last()[w], cur, x));
                assert(shorter.contains(x));
                let k = choose|k: int| 0 <= k < shorter.len() && shorter[k] == x;
                assert(full[k] == x);
            } else {
                assert(conns.last().spec_contains(cur));
                assert(conns.last().spec_other_end(cur) == x);
                assert(full.last() == x);
            }
            assert(full.contains(x));
        }
    }
}

/// Under a deduplicated connection set, no adjacent node is listed twice.
pub proof fn lemma_surr_ids_distinct(conns: Seq<Connection>, cur: NodeId)
    requires
        dup_free(conns),
    ensures
        forall|k1: int, k2: int|
            0 <= k1 < k2 < surr_ids(conns, cur).len() ==> #[trigger] surr_ids(conns, cur)[k1] != (
            #[trigger] surr_ids(conns, cur)[k2]),
    decreases conns.len(),
{
    if conns.len() > 0 {
        let rest = conns.drop_last();
        assert(forall|i: int| 0 <= i < rest.len() ==> #[trigger] rest[i] == conns[i]);
        assert(dup_free(rest));
        lemma_surr_ids_distinct(rest, cur);
        let shorter = surr_ids(rest, cur);
        let full = surr_ids(conns, cur);
        if conns.last().spec_contains(cur) {
            let x = conns.last().spec_other_end(cur);
            assert(links(conns[conns.len() - 1], cur, x));
            if shorter.contains(x) {
                lemma_surr_ids_iff_connected(rest, cur, x);
                let w = choose|w: int| 0 <= w < rest.len() && links(rest[w], cur, x);
                assert(links(
                    conns[w],
                    conns[conns.len() - 1].0.0,
                    conns[conns.len() - 1].0.1,
                ));
                assert(false);
            }
            assert forall|k1: int, k2: int| 0 <= k1 < k2 < full.len() implies #[trigger] full[k1]
                != (#[trigger] full[k2]) by {
                if k2 < shorter.len() {
                    assert(full[k1] == shorter[k1] && full[k2] == shorter[k2]);
                } else {
                    assert(full[k2] == x);
                    assert(full[k1] == shorter[k1]);
                    assert(shorter.contains(shorter[k1]));
                }
            }
        }
    }
}

/// The first roll of a surroundings effect: how many brand-new nodes to
/// create and connect.
pub open spec fn surroundings_roll_w(e: Effect) -> u8 {
    match e {
        Effect::GenerateSurroundings { connections_with_new_nodes, .. } => {
            connections_with_new_nodes
        },
        Effect::SpawnNpc { .. } => 0,
    }
}

/// The second roll of a surroundings effect: to how many already unvisited
/// nodes, at most, a fresh edge is drawn.
pub open spec fn surroundings_roll_u(e: Effect) -> u8 {
    match e {
        Effect::GenerateSurroundings { connections_to_unvisited_nodes, .. } => {
            connections_to_unvisited_nodes
        },
        Effect::SpawnNpc { .. } => 0,
    }
}

/// What one `GenerateSurroundings` firing at `at`, with rolls `w` and `u`,
/// does to the game: `w` fresh seeded nodes are appended and each connected
/// to `at`; then up to `u` further edges are drawn from `at`, every one of
/// them to a node that is unvisited afterwards. Existing nodes and edges are
/// untouched; which unvisited nodes are reconnected is left to chance.
pub open spec fn surroundings_fired(pre: Game, post: Game, at: NodeId, w: u8, u: u8) -> bool {
    &&& post.cur() == pre.cur()
    &&& post.nodes_seq().len() == pre.nodes_seq().len() + w
    &&& forall|i: int|
        0 <= i < pre.nodes_seq().len() ==> #[trigger] post.nodes_seq()[i] == pre.nodes_seq()[i]
    &&& forall|i: int|
        pre.nodes_seq().len() <= i < post.nodes_seq().len() ==> freshly_seeded(
            #[trigger] post.nodes_seq()[i],
        )
    &&& forall|i: int|
        0 <= i < pre.conns_seq().len() ==> #[trigger] post.conns_seq()[i] == pre.conns_seq()[i]
    &&& pre.conns_seq().len() + w <= post.conns_seq().len() <= pre.conns_seq().len() + w + u
    &&& forall|k: int|
        0 <= k < w ==> #[trigger] post.conns_seq()[pre.conns_seq().len() + k] == (Connection(
            (at, NodeId((pre.nodes_seq().len() + k) as usize)),
        ))
    &&& forall|j: int|
        pre.conns_seq().len() <= j < post.conns_seq().len() ==> (#[trigger] post.conns_seq()[j]).0.0
            == at && post.conns_seq()[j].0.1.0 < post.nodes_seq().len() && post.nodes_seq()[
        post.conns_seq()[j].0.1.0 as int].status == NodeStatus::Unvisited
}

/// What one `SpawnNpc` firing at `at` with chance `c` does to the game: at
/// most one occupant is appended to that node and nothing else changes; a
/// certain chance always spawns, an impossible one never does.
pub open spec fn npc_fired(pre: Game, post: Game, at: NodeId, c: Chance) -> bool {
    &&& post.cur() == pre.cur()
    &&& post.conns_seq() == pre.conns_seq()
    &&& post.nodes_seq().len() == pre.nodes_seq().len()
    &&& forall|i: int|
        0 <= i < pre.nodes_seq().len() && i != at.0 ==> #[trigger] post.nodes_seq()[i]
            == pre.nodes_seq()[i]
    &&& post.nodes_seq()[at.0 as int].status == pre.nodes_seq()[at.0 as int].status
    &&& post.nodes_seq()[at.0 as int].on_first_visit_effects@ == pre.nodes_seq()[at.0
        as int].on_first_visit_effects@
    &&& {
        let before = pre.nodes_seq()[at.0 as int].npcs@;
        let after = post.nodes_seq()[at.0 as int].npcs@;
        &&& (after == before || after == before.push(Npc {  }))
        &&& (c.numerator == c.denominator ==> after == before.push(Npc {  }))
        &&& (c.numerator == 0 ==> after == before)
    }
}

/// A first visit to `id`, starting from a game whose node `id` is unvisited
/// and seeded: the node is marked visited, its queue is drained, the
/// surroundings roll fires, then the certain NPC spawn fires.
pub open spec fn discovery_fired(pre: Game, post: Game, id: NodeId) -> bool {
    let w = surroundings_roll_w(pre.nodes_seq()[id.0 as int].on_first_visit_effects@[0]);
    let u = surroundings_roll_u(pre.nodes_seq()[id.0 as int].on_first_visit_effects@[0]);
    &&& post.cur() == id
    &&& post.nodes_seq().len() == pre.nodes_seq().len() + w
    &&& forall|i: int|
        0 <= i < pre.nodes_seq().len() && i != id.0 ==> #[trigger] post.nodes_seq()[i]
            == pre.nodes_seq()[i]
    &&& post.nodes_seq()[id.0 as int].status == NodeStatus::Visited
    &&& post.nodes_seq()[id.0 as int].on_first_visit_effects@ == Seq::<Effect>::empty()
    &&& post.nodes_seq()[id.0 as int].npcs@ == pre.nodes_seq()[id.0 as int].npcs@.push(Npc {  })
    &&& forall|i: int|
        pre.nodes_seq().len() <= i < post.nodes_seq().len() ==> freshly_seeded(
            #[trigger] post.nodes_seq()[i],
        )
    &&& forall|i: int|
        0 <= i < pre.conns_seq().len() ==> #[trigger] post.conns_seq()[i] == pre.conns_seq()[i]
    &&& pre.conns_seq().len() + w <= post.conns_seq().len() <= pre.conns_seq().len() + w + u
    &&& forall|k: int|
        0 <= k < w ==> #[trigger] post.conns_seq()[pre.conns_seq().len() + k] == (Connection(
            (id, NodeId((pre.nodes_seq().len() + k) as usize)),
        ))
    &&& forall|j: int|
        pre.conns_seq().len() <= j < post.conns_seq().len() ==> (#[trigger] post.conns_seq()[j]).0.0
            == id && post.conns_seq()[j].0.1.0 < post.nodes_seq().len() && post.nodes_seq()[
        post.conns_seq()[j].0.1.0 as int].status == NodeStatus::Unvisited
}

/// The visit procedure's whole effect on the game: position moves to `id`,
/// `id` ends up visited, ids already issued keep indexing the same nodes, and
/// the connection set only grows. A re-visit changes nothing but the
/// position; a first visit fires the seeded effects.
pub open spec fn visit_outcome(pre: Game, post: Game, id: NodeId) -> bool {
    &&& post.cur() == id
    &&& pre.nodes_seq().len() <= post.nodes_seq().len()
    &&& post.nodes_seq()[id.0 as int].status == NodeStatus::Visited
    &&& forall|i: int|
        0 <= i < pre.nodes_seq().len() && i != id.0 ==> #[trigger] post.nodes_seq()[i]
            == pre.nodes_seq()[i]
    &&& forall|i: int|
        0 <= i < pre.conns_seq().len() ==> #[trigger] post.conns_seq()[i] == pre.conns_seq()[i]
    &&& pre.conns_seq().len() <= post.conns_seq().len()
    &&& (pre.nodes_seq()[id.0 as int].status == NodeStatus::Visited ==> post.nodes_seq()
        == pre.nodes_seq() && post.conns_seq() == pre.conns_seq())
    &&& (pre.nodes_seq()[id.0 as int].status == NodeStatus::Unvisited ==> discovery_fired(
        pre,
        post,
        id,
    ))
}

/// Relies on `rand::Rng::gen_ratio`: `true` with probability
/// `numerator / denominator`; its documentation guarantees `true` whenever
/// the ratio is one and `false` whenever the numerator is zero, and a panic
/// only on a ratio above one or a zero denominator, which `requires` rules
/// out.
#[verifier::external_body]
fn random_ratio(numerator: u32, denominator: u32) -> (r: bool)
    requires
        0 < denominator,
        numerator <= denominator,
    ensures
        numerator == denominator ==> r,
        numerator == 0 ==> !r,
{
    rand::thread_rng().gen_ratio(numerator, denominator)
}

/// Relies on `rand::seq::SliceRandom::shuffle`: a Fisher-Yates pass that
/// permutes the slice in place by swapping elements, so the result holds
/// exactly the elements it started with.
#[verifier::external_body]
fn shuffle_node_ids(ids: &mut Vec<NodeId>)
    ensures
        final(ids)@.len() == old(ids)@.len(),
        final(ids)@.to_multiset() == old(ids)@.to_multiset(),
{
    ids.shuffle(&mut rand::thread_rng());
}

/// The ids of the nodes of `nodes` whose status is `status`, in increasing
/// id order.
pub open spec fn ids_with_status(nodes: Seq<Node>, status: NodeStatus) -> Seq<NodeId>
    decreases nodes.len(),
{
    if nodes.len() == 0 {
        Seq::empty()
    } else {
        ids_with_status(nodes.drop_last(), status) + if nodes.last().status == status {
            seq![NodeId((nodes.len() - 1) as usize)]
        } else {
            Seq::empty()
        }
    }
}

/// Law: adjacency is symmetric. An edge joins `(a, b)` exactly when it joins
/// `(b, a)`, so membership queries in either orientation agree.
pub proof fn lemma_connection_symmetry(s: Seq<Connection>, a: NodeId, b: NodeId)
    ensures
        has_edge(s, a, b) <==> has_edge(s, b, a),
        (Connection((a, b))).spec_eq(Connection((b, a))),
{
    assert(forall|i: int|
        0 <= i < s.len() ==> (links(#[trigger] s[i], a, b) <==> links(s[i], b, a)));
}

/// The edge joining `a` and `b` occurs in `s` exactly when some entry links
/// them: a count of zero and an absent edge coincide.
pub proof fn lemma_edge_count_zero(s: Seq<Connection>, a: NodeId, b: NodeId)
    ensures
        (edge_count(s, a, b) == 0) <==> !has_edge(s, a, b),
    decreases s.len(),
{
    if s.len() == 0 {
        assert(!has_edge(s, a, b));
    } else {
        lemma_edge_count_zero(s.drop_last(), a, b);
        assert(forall|i: int| 0 <= i < s.len() - 1 ==> #[trigger] s.drop_last()[i] == s[i]);
        if edge_count(s, a, b) == 0 {
            if has_edge(s, a, b) {
                let w = choose|w: int| 0 <= w < s.len() && links(s[w], a, b);
                if w < s.len() - 1 {
                    assert(links(s.drop_last()[w], a, b));
                    assert(has_edge(s.drop_last(), a, b));
                } else {
                    assert(links(s.last(), a, b));
                }
                assert(false);
            }
        } else {
            if links(s.last(), a, b) {
                assert(has_edge(s, a, b));
            } else {
                assert(has_edge(s.drop_last(), a, b));
                let w = choose|w: int|
                    0 <= w < s.drop_last().len() && links(s.drop_last()[w], a, b);
                assert(links(s[w], a, b));
                assert(has_edge(s, a, b));
            }
        }
    }
}

/// Law: inserting an edge makes it queryable in either orientation, and
/// inserting it again, even flipped, is a no-op: a set holding neither
/// orientation holds exactly one copy after both insertions.
pub proof fn lemma_insert_edge_idempotent(s: Seq<Connection>, a: NodeId, b: NodeId)
    ensures
        has_edge(insert_edge(s, Connection((a, b))), b, a),
        insert_edge(insert_edge(s, Connection((a, b))), Connection((b, a))) == insert_edge(
            s,
            Connection((a, b)),
        ),
        edge_count(s, a, b) == 0 ==> edge_count(
            insert_edge(insert_edge(s, Connection((a, b))), Connection((b, a))),
            a,
            b,
        ) == 1,
{
    let c1 = Connection((a, b));
    let s1 = insert_edge(s, c1);
    if has_edge(s, a, b) {
        let w = choose|w: int| 0 <= w < s.len() && links(s[w], a, b);
        assert(links(s1[w], b, a));
    } else {
        assert(s1 == s.push(c1));
        assert(links(s1[s.len() as int], b, a));
    }
    assert(has_edge(s1, b, a));
    if edge_count(s, a, b) == 0 {
        lemma_edge_count_zero(s, a, b);
        assert(s1 == s.push(c1));
        assert(s1.drop_last() =~= s);
        assert(links(s1.last(), a, b));
        assert(edge_count(s1, a, b) == 1);
    }
}

/// Law: a move to `x` is offered exactly when `x` is adjacent to the current
/// node; together with `handle_choice`'s contract, a move to any other node
/// fails with `NodeNotConnected`.
pub proof fn lemma_adjacency_gating(g: Game, x: NodeId)
    requires
        g.wf(),
    ensures
        offers_move(choices_of(g), x) <==> g.connected(g.cur(), x),
{
    let surr = surrounding_of(g);
    let npcs = g.nodes_seq()[g.cur().0 as int].npcs@.len();
    let cs = choices_of(g);
    lemma_surr_ids_iff_connected(g.conns_seq(), g.cur(), x);
    if offers_move(cs, x) {
        let k = choose|k: int|
            0 <= k < cs.len() && (cs[k] == PlayerChoice::DiscoverNode(x) || cs[k]
                == PlayerChoice::VisitNode(x));
        if k < surr.len() {
            assert(cs[k] == move_choice(g, surr[k]));
            assert(surr[k] == x);
            assert(surr.contains(x));
        } else if k < surr.len() + npcs {
            assert(cs[k] == PlayerChoice::TalkTo((k - surr.len()) as usize));
            assert(false);
        } else {
            assert(cs[k] == PlayerChoice::Quit);
            assert(false);
        }
    }
    if g.connected(g.cur(), x) {
        assert(surr.contains(x));
        let k = choose|k: int| 0 <= k < surr.len() && surr[k] == x;
        assert(cs[k] == move_choice(g, x));
        assert(cs[k] == PlayerChoice::DiscoverNode(x) || cs[k] == PlayerChoice::VisitNode(x));
        assert(offers_move(cs, x));
    }
}

/// Some entry of `cs` is a move towards `x`.
pub open spec fn offers_move(cs: Seq<PlayerChoice>, x: NodeId) -> bool {
    exists|k: int|
        0 <= k < cs.len() && ((#[trigger] cs[k]) == PlayerChoice::DiscoverNode(x) || cs[k]
            == PlayerChoice::VisitNode(x))
}

/// Law: the choice list is complete and nothing more. It holds one move per
/// adjacent node, in order, then one `TalkTo` per occupant of the current
/// node, and exactly one `Quit`, last.
pub proof fn lemma_choice_completeness(g: Game)
    requires
        g.wf(),
    ensures
        choices_of(g).len() == surrounding_of(g).len() + g.nodes_seq()[g.cur().0
            as int].npcs@.len() + 1,
        choices_of(g).last() == PlayerChoice::Quit,
        forall|k: int|
            0 <= k < choices_of(g).len() - 1 ==> #[trigger] choices_of(g)[k] != PlayerChoice::Quit,
        forall|k: int|
            0 <= k < surrounding_of(g).len() ==> #[trigger] choices_of(g)[k] == move_choice(
                g,
                surrounding_of(g)[k],
            ),
        forall|k: int|
            0 <= k < g.nodes_seq()[g.cur().0 as int].npcs@.len() ==> #[trigger] choices_of(g)[
                surrounding_of(g).len() + k] == PlayerChoice::TalkTo(k as usize),
        forall|k1: int, k2: int|
            0 <= k1 < k2 < surrounding_of(g).len() ==> #[trigger] surrounding_of(g)[k1] != (
            #[trigger] surrounding_of(g)[k2]),
{
    let surr = surrounding_of(g);
    let npcs = g.nodes_seq()[g.cur().0 as int].npcs@.len();
    let cs = choices_of(g);
    assert forall|k: int| 0 <= k < cs.len() - 1 implies #[trigger] cs[k] != PlayerChoice::Quit by {
        if k < surr.len() {
            assert(cs[k] == move_choice(g, surr[k]));
        } else {
            assert(cs[k] == PlayerChoice::TalkTo((k - surr.len()) as usize));
        }
    }
    lemma_surr_ids_distinct(g.conns_seq(), g.cur());
}

/// Law: re-visiting is idempotent. Visiting a node and then visiting it again
/// leaves the state after the second visit identical to the state after the
/// first: no new surroundings, no duplicate occupants.
pub proof fn lemma_revisit_idempotent(pre: Game, mid: Game, post: Game, id: NodeId)
    requires
        visit_outcome(pre, mid, id),
        visit_outcome(mid, post, id),
    ensures
        post.nodes_seq() == mid.nodes_seq(),
        post.conns_seq() == mid.conns_seq(),
        post.cur() == mid.cur(),
{
}

/// Law: ids are stable. Whatever a visit does to the graph, every id issued
/// before still indexes a live node, and every node but the visited one is
/// untouched.
pub proof fn lemma_id_stability(pre: Game, post: Game, target: NodeId, id: NodeId)
    requires
        visit_outcome(pre, post, target),
        id.0 < pre.nodes_seq().len(),
    ensures
        id.0 < post.nodes_seq().len(),
        id != target ==> post.nodes_seq()[id.0 as int] == pre.nodes_seq()[id.0 as int],
{
}

/// Every id listed by `ids_with_status` is live and has the asked-for
/// status; every node with that status is listed; and the list is strictly
/// increasing, so it holds no duplicates.
pub proof fn lemma_ids_with_status(nodes: Seq<Node>, status: NodeStatus)
    requires
        nodes.len() <= usize::MAX,
    ensures
        forall|k: int|
            0 <= k < ids_with_status(nodes, status).len() ==> (#[trigger] ids_with_status(
                nodes,
                status,
            )[k]).0 < nodes.len() && nodes[ids_with_status(nodes, status)[k].0 as int].status
                == status,
        forall|i: int|
            0 <= i < nodes.len() && (#[trigger] nodes[i]).status == status ==> ids_with_status(
                nodes,
                status,
            ).contains(NodeId(i as usize)),
        forall|k1: int, k2: int|
            0 <= k1 < k2 < ids_with_status(nodes, status).len() ==> (#[trigger] ids_with_status(
                nodes,
                status,
            )[k1]).0 < (#[trigger] ids_with_status(nodes, status)[k2]).0,
    decreases nodes.len(),
{
    if nodes.len() > 0 {
        lemma_ids_with_status(nodes.drop_last(), status);
        let shorter = ids_with_status(nodes.drop_last(), status);
        let full = ids_with_status(nodes, status);
        if nodes.last().status == status {
            assert(full =~= shorter.push(NodeId((nodes.len() - 1) as usize)));
        } else {
            assert(full =~= shorter);
        }
        assert(forall|k: int| 0 <= k < shorter.len() ==> full[k] == shorter[k]);
        assert(forall|i: int|
            0 <= i < nodes.len() - 1 ==> #[trigger] nodes.drop_last()[i] == nodes[i]);
        assert forall|k: int| 0 <= k < full.len() implies (#[trigger] full[k]).0 < nodes.len()
            && nodes[full[k].0 as int].status == status by {
            if k < shorter.len() {
                assert(full[k] == shorter[k]);
                assert(shorter[k].0 < nodes.drop_last().len());
                assert(nodes.drop_last()[shorter[k].0 as int].status == status);
                assert(nodes.drop_last()[shorter[k].0 as int] == nodes[shorter[k].0 as int]);
                assert(full[k].0 < nodes.len());
                assert(nodes[full[k].0 as int].status == status);
            } else {
                assert(full[k] == NodeId((nodes.len() - 1) as usize));
                assert(full[k].0 < nodes.len());
                assert(nodes[nodes.len() - 1] == nodes.last());
                assert(nodes.last().status == status);
                assert(nodes[full[k].0 as int].status == status);
            }
        }
        assert forall|i: int|
            0 <= i < nodes.len() && (#[trigger] nodes[i]).status == status implies full.contains(
            NodeId(i as usize),
        ) by {
            if i < nodes.len() - 1 {
                assert(nodes.drop_last()[i] == nodes[i]);
                assert(shorter.contains(NodeId(i as usize)));
                let k = choose|k: int| 0 <= k < shorter.len() && shorter[k] == NodeId(i as usize);
                assert(full[k] == NodeId(i as usize));
            } else {
                assert(full.last() == NodeId(i as usize));
            }
        }
        assert forall|k1: int, k2: int| 0 <= k1 < k2 < full.len() implies (#[trigger] full[k1]).0 < (
        #[trigger] full[k2]).0 by {
            if k2 < shorter.len() {
                assert(full[k1] == shorter[k1] && full[k2] == shorter[k2]);
            } else {
                assert(full[k2] == NodeId((nodes.len() - 1) as usize));
                assert(k1 < shorter.len());
                assert(full[k1] == shorter[k1]);
                assert(shorter[k1].0 < nodes.drop_last().len());
                assert(nodes.drop_last().len() == nodes.len() - 1);
            }
        }
    }
}

} // verus!
