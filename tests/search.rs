use mcts::connect4::{Game, Player, HEIGHT, WIDTH};
use mcts::game::GameState;
use mcts::mcts::{Mcts, Node};

/// Visits first, so that every child gets tried; a plain integer order key.
fn fewest_visits(_parent_visits: u64, _wins: u64, visits: u64) -> u64 {
    u64::MAX - visits
}

fn same_board(a: &Game, b: &Game) -> bool {
    for col in 0..WIDTH {
        for row in 0..HEIGHT {
            if a.get_cell(col, row) != b.get_cell(col, row) {
                return false;
            }
        }
    }
    a.get_current_player() == b.get_current_player() && a.get_winner() == b.get_winner()
}

fn child_visit_sum(m: &Mcts<Game>) -> u64 {
    let root = m.get_cur_node();
    root.child_nodes.iter().map(|&c| m.get_node(c).visits).sum()
}

#[test]
fn node_starts_with_every_move_untried() {
    let n = Node::new(None, None, Game::new());
    assert_eq!(n.untried_mvs, vec![0, 1, 2, 3, 4, 5, 6]);
    assert_eq!(n.visits, 0);
    assert_eq!(n.wins, 0);
    assert!(!n.is_fully_expanded());
    assert!(!n.has_children());
}

#[test]
fn node_update_credits_the_player_who_moved_in() {
    let mut state = Game::new();
    state.make_move(0).unwrap();
    // Red moved into this node.
    let mut n = Node::new(Some(0), Some(0), state);
    n.update(Some(Player::Red));
    assert_eq!((n.visits, n.wins), (1, 1));
    n.update(Some(Player::Yellow));
    assert_eq!((n.visits, n.wins), (2, 1));
    n.update(None);
    assert_eq!((n.visits, n.wins), (3, 1));
}

#[test]
fn new_engine_has_one_root() {
    let g = Game::new();
    let m = Mcts::new(Player::Red, &g);
    assert_eq!(m.tree_len(), 1);
    assert_eq!(m.get_cur_node_id(), 0);
    let root = m.get_cur_node();
    assert_eq!(root.mv, None);
    assert_eq!(root.parent_node, None);
    assert_eq!(root.untried_mvs, vec![0, 1, 2, 3, 4, 5, 6]);
    assert!(same_board(&root.state, &g));
}

#[test]
fn rounds_add_up_at_the_root() {
    let g = Game::new();
    let mut m = Mcts::new(Player::Red, &g);
    for k in 1..=50u64 {
        m.search_round(&fewest_visits);
        assert_eq!(m.get_cur_node().visits, k);
        assert_eq!(child_visit_sum(&m), k);
    }
    for id in 0..m.tree_len() {
        let n = m.get_node(id);
        assert!(n.wins <= n.visits);
    }
    // One new node per round until the root is fully expanded.
    assert_eq!(m.tree_len(), 51);
    assert!(m.get_cur_node().is_fully_expanded());
    assert_eq!(m.get_cur_node().child_nodes.len(), 7);
}

#[test]
fn expanded_children_hold_their_moves() {
    let g = Game::new();
    let mut m = Mcts::new(Player::Red, &g);
    for _ in 0..7 {
        m.search_round(&fewest_visits);
    }
    let root = m.get_cur_node();
    let mut moves: Vec<u8> = root
        .child_nodes
        .iter()
        .map(|&c| m.get_node(c).mv.unwrap())
        .collect();
    moves.sort();
    assert_eq!(moves, vec![0, 1, 2, 3, 4, 5, 6]);
    for &c in root.child_nodes.iter() {
        let child = m.get_node(c);
        assert_eq!(child.parent_node, Some(0));
        let expected = g.from_move(child.mv.unwrap()).unwrap();
        assert!(same_board(&child.state, &expected));
        assert_eq!(child.visits, 1);
    }
}

#[test]
fn chosen_move_is_legal() {
    let mut g = Game::new();
    for mv in [0u8, 0, 0, 0, 0, 0] {
        g.make_move(mv).unwrap();
    }
    let mut m = Mcts::new(Player::Red, &g);
    for _ in 0..30 {
        m.search_round(&fewest_visits);
    }
    let mv = m.phase_action_select();
    assert!(g.get_moves().contains(&mv));
    assert_ne!(mv, 0);
}

#[test]
fn action_select_prefers_the_best_rate() {
    // Red wins at once by column 3.
    let mut g = Game::new();
    for mv in [3u8, 0, 3, 0, 3, 0] {
        g.make_move(mv).unwrap();
    }
    let mut m = Mcts::new(Player::Red, &g);
    // About a hundred playouts per column, so that no other column keeps a perfect rate.
    for _ in 0..700 {
        m.search_round(&fewest_visits);
    }
    assert_eq!(m.phase_action_select(), 3);
}

#[test]
fn advance_without_child_adds_one() {
    let g = Game::new();
    let mut m = Mcts::new(Player::Yellow, &g);
    m.update_opponent_move(2);
    assert_eq!(m.tree_len(), 2);
    assert_eq!(m.get_cur_node_id(), 1);
    let n = m.get_cur_node();
    assert_eq!(n.mv, Some(2));
    assert_eq!(n.parent_node, Some(0));
    assert_eq!((n.visits, n.wins), (0, 0));
    let expected = g.from_move(2).unwrap();
    assert!(same_board(&n.state, &expected));
    assert_eq!(m.get_node(0).child_nodes, vec![1]);
    assert_eq!(m.get_node(0).untried_mvs, vec![0, 1, 3, 4, 5, 6]);
    m.update_target_move(4);
    assert_eq!(m.tree_len(), 3);
    assert_eq!(m.get_cur_node().mv, Some(4));
    assert_eq!(m.get_cur_node().parent_node, Some(1));
}

#[test]
fn advance_to_explored_child_reuses_it() {
    let g = Game::new();
    let mut m = Mcts::new(Player::Red, &g);
    for _ in 0..20 {
        m.search_round(&fewest_visits);
    }
    let len = m.tree_len();
    let target = m
        .get_cur_node()
        .child_nodes
        .iter()
        .copied()
        .find(|&c| m.get_node(c).mv == Some(5))
        .unwrap();
    let visits = m.get_node(target).visits;
    m.update_target_move(5);
    assert_eq!(m.tree_len(), len);
    assert_eq!(m.get_cur_node_id(), target);
    assert_eq!(m.get_cur_node().visits, visits);
}

#[test]
fn pruning_keeps_the_subtree_statistics() {
    let g = Game::new();
    let mut m = Mcts::new(Player::Red, &g);
    for _ in 0..60 {
        m.search_round(&fewest_visits);
    }
    m.update_target_move(1);
    let root = m.get_cur_node();
    let before_root = (root.visits, root.wins, root.untried_mvs.clone());
    let mut before: Vec<(Option<u8>, u64, u64, Vec<u8>)> = root
        .child_nodes
        .iter()
        .map(|&c| {
            let n = m.get_node(c);
            (n.mv, n.visits, n.wins, n.untried_mvs.clone())
        })
        .collect();
    before.sort();
    m.prune_nodes();
    assert_eq!(m.get_cur_node_id(), 0);
    let root = m.get_cur_node();
    assert_eq!(root.parent_node, None);
    assert_eq!((root.visits, root.wins, root.untried_mvs.clone()), before_root);
    let mut after: Vec<(Option<u8>, u64, u64, Vec<u8>)> = root
        .child_nodes
        .iter()
        .map(|&c| {
            let n = m.get_node(c);
            assert_eq!(n.parent_node, Some(0));
            (n.mv, n.visits, n.wins, n.untried_mvs.clone())
        })
        .collect();
    after.sort();
    assert_eq!(before, after);
    // Every node left descends from the root.
    for id in 1..m.tree_len() {
        let p = m.get_node(id).parent_node.unwrap();
        assert!(p < id);
    }
}

#[test]
fn searching_after_pruning_continues() {
    let g = Game::new();
    let mut m = Mcts::new(Player::Red, &g);
    for _ in 0..10 {
        m.search_round(&fewest_visits);
    }
    m.update_target_move(0);
    m.prune_nodes();
    let start = m.get_cur_node().visits;
    let start_sum = child_visit_sum(&m);
    for _ in 0..10 {
        m.search_round(&fewest_visits);
    }
    assert_eq!(m.get_cur_node().visits, start + 10);
    assert_eq!(child_visit_sum(&m), start_sum + 10);
}

#[test]
fn finished_game_root_expands_to_itself() {
    let mut g = Game::new();
    for mv in [3u8, 0, 3, 0, 3, 0, 3] {
        g.make_move(mv).unwrap();
    }
    let mut m = Mcts::new(Player::Yellow, &g);
    for _ in 0..5 {
        m.search_round(&fewest_visits);
    }
    assert_eq!(m.tree_len(), 1);
    let root = m.get_cur_node();
    assert_eq!(root.visits, 5);
    // Red moved last and won.
    assert_eq!(root.wins, 5);
}

#[test]
fn timed_search_returns_a_legal_move() {
    let mut g = Game::new();
    for mv in [2u8, 2, 2, 2, 2, 2] {
        g.make_move(mv).unwrap();
    }
    let mut m = Mcts::new(Player::Red, &g);
    let (mv, rounds) = m
        .select_next_move(std::time::Duration::from_millis(20), &fewest_visits)
        .unwrap();
    assert!(g.get_moves().contains(&mv));
    assert!(rounds >= 1);
    assert_eq!(m.get_cur_node_id(), 0);
    assert_eq!(m.get_cur_node().visits, rounds);
    assert_eq!(child_visit_sum(&m), rounds);
}

#[test]
fn timed_search_with_no_budget_still_runs_a_round() {
    let g = Game::new();
    let mut m = Mcts::new(Player::Red, &g);
    let (mv, rounds) = m
        .select_next_move(std::time::Duration::from_millis(0), &fewest_visits)
        .unwrap();
    assert_eq!(rounds, 1);
    assert!(mv < 7);
    assert_eq!(child_visit_sum(&m), 1);
}

#[test]
fn timed_search_after_advance_prunes_first() {
    let g = Game::new();
    let mut m = Mcts::new(Player::Red, &g);
    for _ in 0..30 {
        m.search_round(&fewest_visits);
    }
    m.update_target_move(3);
    let before_sum = child_visit_sum(&m);
    let (_, rounds) = m
        .select_next_move(std::time::Duration::from_millis(10), &fewest_visits)
        .unwrap();
    assert_eq!(m.get_cur_node_id(), 0);
    assert_eq!(m.get_cur_node().mv, Some(3));
    assert_eq!(child_visit_sum(&m), before_sum + rounds);
}

#[test]
fn timed_search_on_a_finished_game_gives_nothing() {
    let mut g = Game::new();
    for mv in [3u8, 0, 3, 0, 3, 0, 3] {
        g.make_move(mv).unwrap();
    }
    let mut m = Mcts::new(Player::Yellow, &g);
    assert_eq!(m.select_next_move(std::time::Duration::from_millis(1), &fewest_visits), None);
}

#[test]
fn pruning_twice_changes_nothing() {
    let g = Game::new();
    let mut m = Mcts::new(Player::Red, &g);
    for _ in 0..80 {
        m.search_round(&fewest_visits);
    }
    m.update_target_move(6);
    m.prune_nodes();
    let snapshot: Vec<(Option<u8>, Option<usize>, Vec<usize>, u64, u64, Vec<u8>)> = (0..m.tree_len())
        .map(|i| {
            let n = m.get_node(i);
            (n.mv, n.parent_node, n.child_nodes.clone(), n.wins, n.visits, n.untried_mvs.clone())
        })
        .collect();
    m.prune_nodes();
    let again: Vec<(Option<u8>, Option<usize>, Vec<usize>, u64, u64, Vec<u8>)> = (0..m.tree_len())
        .map(|i| {
            let n = m.get_node(i);
            (n.mv, n.parent_node, n.child_nodes.clone(), n.wins, n.visits, n.untried_mvs.clone())
        })
        .collect();
    assert_eq!(snapshot, again);
}

#[test]
fn sibling_moves_are_distinct() {
    let g = Game::new();
    let mut m = Mcts::new(Player::Red, &g);
    for _ in 0..100 {
        m.search_round(&fewest_visits);
    }
    for id in 0..m.tree_len() {
        let n = m.get_node(id);
        let mut moves: Vec<u8> = n.child_nodes.iter().map(|&c| m.get_node(c).mv.unwrap()).collect();
        let count = moves.len();
        moves.sort();
        moves.dedup();
        assert_eq!(moves.len(), count);
        for mv in moves {
            assert!(!n.untried_mvs.contains(&mv));
        }
    }
}
