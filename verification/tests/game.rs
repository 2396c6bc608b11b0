use chat_rpg::error::RpgError;
use chat_rpg::model::effect::{generate_surroundings_effect, spawn_npc_effect, Chance, Effect};
use chat_rpg::model::game::Game;
use chat_rpg::model::node::{Connection, NodeId, NodeStatus};
use chat_rpg::PlayerChoice;

fn total_nodes(game: &Game) -> usize {
    game.get_node_ids_with_status(NodeStatus::Visited).len()
        + game.get_node_ids_with_status(NodeStatus::Unvisited).len()
}

#[test]
fn fresh_game_state() {
    let game = Game::new().expect("construction cannot fail");
    let (id, node) = game.get_current_node();
    assert_eq!(id, NodeId(0));
    assert_eq!(node.status, NodeStatus::Visited);
    assert_eq!(node.npcs.len(), 1);
    assert_eq!(node.on_first_visit_effects.len(), 0);
    let unvisited = game.get_node_ids_with_status(NodeStatus::Unvisited);
    assert!(unvisited.len() == 2 || unvisited.len() == 3);
    let visited = game.get_node_ids_with_status(NodeStatus::Visited);
    assert_eq!(visited, vec![NodeId(0)]);
}

#[test]
fn fresh_game_choices() {
    let game = Game::new().expect("construction cannot fail");
    let neighbours = game.get_surrounding_node_ids();
    assert!(neighbours.len() == 2 || neighbours.len() == 3);
    let choices = game.generate_choices();
    assert_eq!(choices.len(), neighbours.len() + 2);
    assert_eq!(choices.last(), Some(&PlayerChoice::Quit));
    let mut discoveries = 0;
    let mut visits = 0;
    let mut talks = 0;
    let mut quits = 0;
    for choice in &choices {
        match choice {
            PlayerChoice::Quit => quits += 1,
            PlayerChoice::DiscoverNode(_) => discoveries += 1,
            PlayerChoice::VisitNode(_) => visits += 1,
            PlayerChoice::TalkTo(_) => talks += 1,
        }
    }
    assert_eq!(discoveries, neighbours.len());
    assert_eq!(visits, 0);
    assert_eq!(talks, 1);
    assert_eq!(quits, 1);
}

#[test]
fn choices_move_targets_match_surroundings() {
    let game = Game::new().expect("construction cannot fail");
    let neighbours = game.get_surrounding_node_ids();
    let choices = game.generate_choices();
    for (k, id) in neighbours.iter().enumerate() {
        assert_eq!(choices[k], PlayerChoice::DiscoverNode(*id));
    }
    let pairs = game.get_surrounding_nodes();
    assert_eq!(pairs.len(), neighbours.len());
    for (k, (id, node)) in pairs.iter().enumerate() {
        assert_eq!(*id, neighbours[k]);
        assert_eq!(node.status, NodeStatus::Unvisited);
    }
}

#[test]
fn quit_flow_mutates_nothing() {
    let mut game = Game::new().expect("construction cannot fail");
    let nodes_before = total_nodes(&game);
    let neighbours_before = game.get_surrounding_node_ids();
    let npcs_before = game.get_current_node().1.npcs.len();
    let result = game.handle_choice(&PlayerChoice::Quit);
    assert_eq!(result, Ok(true));
    assert_eq!(total_nodes(&game), nodes_before);
    assert_eq!(game.get_surrounding_node_ids(), neighbours_before);
    assert_eq!(game.get_current_node().1.npcs.len(), npcs_before);
    assert_eq!(game.get_current_node().0, NodeId(0));
}

#[test]
fn talk_to_is_a_noop() {
    let mut game = Game::new().expect("construction cannot fail");
    let nodes_before = total_nodes(&game);
    let result = game.handle_choice(&PlayerChoice::TalkTo(0));
    assert_eq!(result, Ok(false));
    assert_eq!(total_nodes(&game), nodes_before);
    assert_eq!(game.get_current_node().0, NodeId(0));
}

#[test]
fn invalid_move_is_rejected() {
    let mut game = Game::new().expect("construction cannot fail");
    let result = game.handle_choice(&PlayerChoice::VisitNode(NodeId(999)));
    assert_eq!(
        result,
        Err(RpgError::NodeNotConnected(NodeId(0), NodeId(999)))
    );
    assert_eq!(game.get_current_node().0, NodeId(0));
}

#[test]
fn moving_to_the_current_node_is_rejected() {
    let mut game = Game::new().expect("construction cannot fail");
    let result = game.handle_choice(&PlayerChoice::VisitNode(NodeId(0)));
    assert_eq!(result, Err(RpgError::NodeNotConnected(NodeId(0), NodeId(0))));
}

#[test]
fn unknown_node_id_lookup() {
    let game = Game::new().expect("construction cannot fail");
    assert!(total_nodes(&game) < 50);
    let result = game.get_node(NodeId(50));
    assert!(matches!(result, Err(RpgError::UnknownNodeId(NodeId(50)))));
    assert!(game.get_node(NodeId(0)).is_ok());
}

#[test]
fn discover_expands_then_revisit_is_idempotent() {
    let mut game = Game::new().expect("construction cannot fail");
    let nodes_before = total_nodes(&game);
    let choices = game.generate_choices();
    let target = choices
        .iter()
        .find_map(|c| match c {
            PlayerChoice::DiscoverNode(id) => Some(*id),
            _ => None,
        })
        .expect("a fresh game offers discoveries");

    let result = game.handle_choice(&PlayerChoice::DiscoverNode(target));
    assert_eq!(result, Ok(false));
    assert_eq!(game.get_current_node().0, target);

    // the first visit creates two or three fresh neighbours
    let nodes_after_first = total_nodes(&game);
    assert!(nodes_after_first >= nodes_before + 2);
    assert!(nodes_after_first <= nodes_before + 3);

    let (_, visited_target) = game.get_current_node();
    assert_eq!(visited_target.status, NodeStatus::Visited);
    assert_eq!(visited_target.npcs.len(), 1);
    assert_eq!(visited_target.on_first_visit_effects.len(), 0);
    let surroundings_after_first = game.get_surrounding_node_ids();

    // go back to the spawn, then visit the target again: nothing regenerates
    assert_eq!(game.handle_choice(&PlayerChoice::VisitNode(NodeId(0))), Ok(false));
    assert_eq!(total_nodes(&game), nodes_after_first);
    assert_eq!(game.handle_choice(&PlayerChoice::VisitNode(target)), Ok(false));
    assert_eq!(total_nodes(&game), nodes_after_first);
    assert_eq!(game.get_surrounding_node_ids(), surroundings_after_first);
    let (_, revisited) = game.get_current_node();
    assert_eq!(revisited.status, NodeStatus::Visited);
    assert_eq!(revisited.npcs.len(), 1);
    assert_eq!(revisited.on_first_visit_effects.len(), 0);
}

#[test]
fn previously_issued_ids_stay_live() {
    let mut game = Game::new().expect("construction cannot fail");
    let mut issued = game.get_node_ids_with_status(NodeStatus::Visited);
    issued.extend(game.get_node_ids_with_status(NodeStatus::Unvisited));
    let choices = game.generate_choices();
    let target = choices
        .iter()
        .find_map(|c| match c {
            PlayerChoice::DiscoverNode(id) => Some(*id),
            _ => None,
        })
        .expect("a fresh game offers discoveries");
    game.handle_choice(&PlayerChoice::DiscoverNode(target))
        .expect("the offered move is legal");
    for id in &issued {
        assert!(game.get_node(*id).is_ok());
    }
    // the spawn node is exactly as the first visit left it
    let spawn = game.get_node(NodeId(0)).expect("the spawn stays live");
    assert_eq!(spawn.status, NodeStatus::Visited);
    assert_eq!(spawn.npcs.len(), 1);
}

#[test]
fn connection_identity_is_symmetric() {
    let a = NodeId(3);
    let b = NodeId(7);
    assert_eq!(Connection((a, b)), Connection((b, a)));
    assert_eq!(Connection((a, b)), Connection((a, b)));
    assert_ne!(Connection((a, b)), Connection((a, NodeId(8))));
    let edge = Connection((a, b));
    assert!(edge.contains(a));
    assert!(edge.contains(b));
    assert!(!edge.contains(NodeId(4)));
    assert_eq!(edge.other_end(a), b);
    assert_eq!(edge.other_end(b), a);
}

#[test]
fn surroundings_hold_no_duplicate_edges() {
    // the connection set deduplicates under symmetric identity, so the spawn's
    // neighbour list never lists an id twice
    let game = Game::new().expect("construction cannot fail");
    let neighbours = game.get_surrounding_node_ids();
    for i in 0..neighbours.len() {
        for j in (i + 1)..neighbours.len() {
            assert_ne!(neighbours[i], neighbours[j]);
        }
    }
}

#[test]
fn mutable_lookups_agree_with_shared_ones() {
    let mut game = Game::new().expect("construction cannot fail");
    assert!(matches!(
        game.get_node_mut(NodeId(50)),
        Err(RpgError::UnknownNodeId(NodeId(50)))
    ));
    {
        let node = game.get_node_mut(NodeId(0)).expect("the spawn stays live");
        assert_eq!(node.status, NodeStatus::Visited);
    }
    let (id, node) = game.get_current_node_mut();
    assert_eq!(id, NodeId(0));
    assert_eq!(node.npcs.len(), 1);
}

#[test]
fn effect_policy_rolls_in_range() {
    for _ in 0..50 {
        match generate_surroundings_effect() {
            Effect::GenerateSurroundings {
                connections_with_new_nodes,
                connections_to_unvisited_nodes,
            } => {
                assert!((2..=3).contains(&connections_with_new_nodes));
                assert!(connections_to_unvisited_nodes <= 2);
            }
            Effect::SpawnNpc { .. } => panic!("the surroundings roll never spawns"),
        }
    }
    assert_eq!(
        spawn_npc_effect(),
        Effect::SpawnNpc { spawn_chance: Chance { numerator: 1, denominator: 1 } }
    );
}
