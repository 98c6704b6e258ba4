use mentor::game::{Game, GameState, UNIT};
use mentor::games::tictactoe::TicTacToe;
use mentor::helper::{exploration, isqrt};
use mentor::tree::edge::Edge;
use mentor::tree::hash::{HashEntry, HashTable};
use mentor::tree::node::Node;
use mentor::tree::Tree;

#[test]
fn edge_starts_without_child_and_prior() {
    let mut edge = Edge::new(7);
    assert_eq!(edge.ptr(), -1);
    assert_eq!(edge.mov(), 7);
    assert_eq!(edge.policy(), 0);
    edge.set_ptr(12);
    edge.set_policy(40_000);
    assert_eq!(edge.ptr(), 12);
    assert_eq!(edge.mov(), 7);
    assert_eq!(edge.policy(), 40_000);
}

#[test]
fn node_starts_empty() {
    let node = Node::new(GameState::Draw, 99, 4);
    assert_eq!(node.parent(), 4);
    assert_eq!(node.game_state(), GameState::Draw);
    assert_eq!(node.hash(), 99);
    assert_eq!(node.visits(), 0);
    assert_eq!(node.value(), 0);
    assert_eq!(node.wins(), 0);
    assert!(node.is_not_expanded());
    assert!(node.is_terminal());
    assert!(!Node::new(GameState::Ongoing, 0, -1).is_terminal());
}

#[test]
fn node_mean_rounds_towards_zero() {
    let mut node = Node::new(GameState::Ongoing, 0, -1);
    node.propagate(UNIT);
    node.propagate(UNIT);
    node.propagate(0);
    assert_eq!(node.visits(), 3);
    assert_eq!(node.value(), 131_070);
    assert_eq!(node.q(), 43_690);

    let mut node = Node::new(GameState::Ongoing, 0, -1);
    node.propagate(-UNIT);
    node.propagate(-UNIT);
    node.propagate(0);
    assert_eq!(node.value(), -131_070);
    assert_eq!(node.q(), -43_690);

    let mut node = Node::new(GameState::Ongoing, 0, -1);
    node.propagate(-1);
    node.propagate(0);
    assert_eq!(node.q(), 0);
}

#[test]
fn node_state_can_be_overwritten() {
    let mut node = Node::new(GameState::Ongoing, 0, -1);
    node.set_game_state(GameState::Win);
    assert_eq!(node.game_state(), GameState::Win);
    assert!(node.is_terminal());
}

#[test]
fn node_expands_with_moves_and_priors() {
    let mut node = Node::new(GameState::Ongoing, 0, -1);
    node.expand_with(&[3, 1, 4], &[10, 20, 30]);
    assert!(!node.is_not_expanded());
    let actions = node.actions();
    assert_eq!(actions.len(), 3);
    for (k, (mov, prior)) in [(3, 10), (1, 20), (4, 30)].into_iter().enumerate() {
        assert_eq!(actions[k].mov(), mov);
        assert_eq!(actions[k].policy(), prior);
        assert_eq!(actions[k].ptr(), -1);
    }
    node.mut_edge(1).set_ptr(5);
    assert_eq!(node.actions()[1].ptr(), 5);
    node.actions_mut()[2].set_ptr(6);
    assert_eq!(node.actions()[2].ptr(), 6);
}

#[test]
fn node_expands_from_a_position() {
    let mut pos = TicTacToe { side_to_move: false, grid: [0b000_000_011, 0b000_011_000] };
    let mut node = Node::new(GameState::Ongoing, pos.hash(), -1);
    node.expand(&mut pos);
    let moves: Vec<u16> = node.actions().iter().map(|edge| edge.mov()).collect();
    assert_eq!(moves, vec![4, 32, 64, 128, 256]);
    assert!(node.actions().iter().all(|edge| edge.ptr() == -1));
    assert!(node.actions().iter().all(|edge| edge.policy() == 65_535 / 5));
}

#[test]
fn hash_table_keeps_the_latest_entry_of_a_slot() {
    let mut table = HashTable::new(8);
    assert_eq!(table.get(0).map(|entry| entry.visits), Some(0));
    assert!(table.get(3).is_none());
    table.insert(3, 5, -7);
    let entry: HashEntry = table.get(3).unwrap();
    assert_eq!((entry.hash, entry.visits, entry.wins), (3, 5, -7));
    table.insert(11, 1, 1);
    assert!(table.get(3).is_none());
    assert_eq!(table.get(11).map(|entry| entry.wins), Some(1));
}

#[test]
fn default_hash_entry_is_empty() {
    let entry = HashEntry::default();
    assert_eq!((entry.hash, entry.visits, entry.wins), (0, 0, 0));
}

#[test]
fn first_node_becomes_the_root() {
    let mut tree = Tree::new(16);
    assert!(tree.is_empty());
    assert_eq!(tree.len(), 0);
    assert_eq!(tree.root(), -1);
    assert_eq!(tree.add(GameState::Ongoing, 1, -1), 0);
    assert_eq!(tree.root(), 0);
    assert_eq!(tree.add(GameState::Win, 2, 0), 1);
    assert_eq!(tree.root(), 0);
    assert_eq!(tree.len(), 2);
    assert!(!tree.is_empty());
    assert_eq!(tree.node(1).parent(), 0);
    assert_eq!(tree.node(1).game_state(), GameState::Win);
    assert_eq!(tree.node(1).hash(), 2);
}

#[test]
fn propagate_books_the_reward_at_the_node() {
    let mut tree = Tree::new(16);
    tree.add(GameState::Ongoing, 1, -1);
    tree.add(GameState::Ongoing, 2, 0);
    tree.propagate(1, -UNIT);
    tree.propagate(1, 100);
    assert_eq!(tree.node(1).visits(), 2);
    assert_eq!(tree.node(1).value(), 100 - 65_535);
    assert_eq!(tree.node(0).visits(), 0);
    // The table remembers the node under its hash.
    let entry = tree.table().get(2).unwrap();
    assert_eq!((entry.hash, entry.visits, entry.wins), (2, 2, 100 - 65_535));
    assert!(tree.table().get(1).is_none());
    // A node whose hash falls into the same slot takes the slot over.
    tree.add(GameState::Ongoing, 18, 0);
    tree.propagate(2, 7);
    assert!(tree.table().get(2).is_none());
    assert_eq!(tree.table().get(18).map(|entry| entry.wins), Some(7));
}

/// A root with three explored moves; `states` and `stats` describe the
/// children as (state, visits, sum of rewards), `priors` the edges.
fn family(states: [GameState; 3], stats: [(u64, i32); 3], priors: [u16; 3]) -> Tree {
    let mut tree = Tree::new(16);
    let root = tree.add(GameState::Ongoing, 0, -1);
    tree.node_mut(root).expand_with(&[10, 11, 12], &priors);
    let mut total = 1;
    for k in 0..3 {
        let child = tree.add(states[k], 1 + k as u64, root);
        tree.edge_mut(root, k).set_ptr(child);
        let (visits, value) = stats[k];
        for pass in 0..visits {
            tree.propagate(child, if pass == 0 { value } else { 0 });
        }
        total += visits;
    }
    for _ in 0..total {
        tree.propagate(root, 0);
    }
    tree
}

#[test]
fn select_takes_the_greatest_score() {
    // Means 100, 300 and 200; without exploration the mean decides.
    let ongoing = [GameState::Ongoing; 3];
    let mut tree = family(ongoing, [(1, 100), (1, 300), (1, 200)], [0, 0, 0]);
    assert_eq!(tree.select(0, 1_000_000), 1);
    assert_eq!(tree.node(0).game_state(), GameState::Ongoing);
}

#[test]
fn select_adds_the_exploration_bonus() {
    // Bonus of a child with n visits and prior p: term * p / (65535 * (1 + n)).
    // With the term 600_000: 0, 600_000 * 65_535 / (65_535 * 3) = 200_000 and
    // 600_000 * 32_767 / (65_535 * 2) = 149_997.
    let ongoing = [GameState::Ongoing; 3];
    let stats = [(1, 60_000), (2, 0), (1, 50_004)];
    let mut tree = family(ongoing, stats, [0, 65_535, 32_767]);
    // scores: 60_000, 200_000, 50_004 + 149_997 = 200_001
    assert_eq!(tree.select(0, 600_000), 2);
    let mut tree = family(ongoing, [(1, 60_000), (2, 0), (1, 50_003)], [0, 65_535, 32_767]);
    // scores: 60_000, 200_000, 200_000: the first of the two equals wins
    assert_eq!(tree.select(0, 600_000), 1);
    let mut tree = family(ongoing, stats, [0, 65_535, 32_767]);
    assert_eq!(tree.select(0, 0), 0);
}

#[test]
fn select_takes_the_first_of_equal_scores() {
    let ongoing = [GameState::Ongoing; 3];
    let mut tree = family(ongoing, [(1, 5), (1, 5), (1, 5)], [9, 9, 9]);
    assert_eq!(tree.select(0, 77), 0);
}

#[test]
fn select_stops_at_the_first_unexplored_move() {
    let mut tree = Tree::new(16);
    let root = tree.add(GameState::Ongoing, 0, -1);
    tree.node_mut(root).expand_with(&[10, 11, 12], &[1, 2, 3]);
    let child = tree.add(GameState::Win, 1, root);
    tree.edge_mut(root, 0).set_ptr(child);
    tree.propagate(child, UNIT);
    tree.propagate(root, 0);
    tree.propagate(root, 0);
    assert_eq!(tree.select(root, 1_000), 1);
    assert_eq!(tree.node(root).game_state(), GameState::Ongoing);
    assert_eq!(tree.len(), 2);
}

#[test]
fn children_that_are_all_won_prove_the_loss() {
    let won = [GameState::Win; 3];
    let mut tree = family(won, [(1, -UNIT), (1, -UNIT), (1, -UNIT)], [1, 2, 3]);
    let action = tree.select(0, 1_000);
    assert_eq!(tree.node(0).game_state(), GameState::Loss);
    assert_eq!(action, 0);
}

#[test]
fn a_lost_child_proves_the_win_and_is_followed() {
    let states = [GameState::Win, GameState::Loss, GameState::Ongoing];
    let mut tree = family(states, [(1, -UNIT), (1, UNIT), (50, 60_000)], [1, 2, 65_535]);
    assert_eq!(tree.select(0, 1_000_000_000), 1);
    assert_eq!(tree.node(0).game_state(), GameState::Win);
}

#[test]
fn a_lost_child_after_an_unexplored_move_is_not_reached() {
    let mut tree = Tree::new(16);
    let root = tree.add(GameState::Ongoing, 0, -1);
    tree.node_mut(root).expand_with(&[10, 11], &[1, 2]);
    let child = tree.add(GameState::Loss, 1, root);
    tree.edge_mut(root, 1).set_ptr(child);
    tree.propagate(child, UNIT);
    tree.propagate(root, 0);
    tree.propagate(root, 0);
    assert_eq!(tree.select(root, 5), 0);
    assert_eq!(tree.node(root).game_state(), GameState::Ongoing);
}

#[test]
fn drawn_children_prove_nothing() {
    let states = [GameState::Win, GameState::Draw, GameState::Win];
    let mut tree = family(states, [(1, -UNIT), (1, 0), (1, -UNIT)], [0, 0, 0]);
    assert_eq!(tree.select(0, 0), 1);
    assert_eq!(tree.node(0).game_state(), GameState::Ongoing);
}

fn empty_board() -> TicTacToe {
    TicTacToe { side_to_move: false, grid: [0, 0] }
}

/// A root for the empty board with its nine moves, the fourth of them
/// explored once.
fn opened() -> (Tree, TicTacToe, i32) {
    let mut root_pos = empty_board();
    let mut tree = Tree::new(16);
    tree.subtree(&root_pos, &None);
    let root = tree.root();
    tree.propagate(root, 0);
    tree.node_mut(root).expand(&mut root_pos);
    assert_eq!(tree.edge(root, 3).mov(), 8);
    let mut next = root_pos;
    next.make_move(8);
    let child = tree.add(next.game_state(), next.hash(), root);
    tree.edge_mut(root, 3).set_ptr(child);
    tree.propagate(child, 123);
    tree.propagate(root, -123);
    (tree, root_pos, child)
}

#[test]
fn reuse_moves_the_root_to_the_child() {
    let (mut tree, root_pos, child) = opened();
    let mut next = root_pos;
    next.make_move(8);
    tree.subtree(&root_pos, &Some(next));
    assert_eq!(tree.root(), child);
    assert_eq!(tree.len(), 2);
    assert_eq!(tree.node(child).visits(), 1);
    assert_eq!(tree.node(child).value(), 123);
    assert_eq!(tree.node(0).visits(), 2);
}

#[test]
fn reuse_finds_a_grandchild() {
    let (mut tree, root_pos, child) = opened();
    let mut next = root_pos;
    next.make_move(8);
    tree.node_mut(child).expand(&mut next);
    let mut after = next;
    after.make_move(1);
    let grandchild = tree.add(after.game_state(), after.hash(), child);
    tree.edge_mut(child, 0).set_ptr(grandchild);
    tree.propagate(grandchild, 0);
    tree.subtree(&root_pos, &Some(after));
    assert_eq!(tree.root(), grandchild);
    assert_eq!(tree.len(), 3);
}

#[test]
fn reuse_keeps_the_root_for_the_same_position() {
    let (mut tree, root_pos, _) = opened();
    tree.subtree(&root_pos, &Some(root_pos));
    assert_eq!(tree.root(), 0);
    assert_eq!(tree.len(), 2);
    tree.subtree(&root_pos, &None);
    assert_eq!(tree.root(), 0);
    assert_eq!(tree.len(), 2);
}

#[test]
fn reuse_of_an_unexplored_move_starts_afresh() {
    let (mut tree, root_pos, _) = opened();
    let mut next = root_pos;
    next.make_move(1);
    tree.subtree(&root_pos, &Some(next));
    assert_eq!(tree.len(), 1);
    assert_eq!(tree.root(), 0);
    let root = tree.node(0);
    assert_eq!(root.visits(), 0);
    assert_eq!(root.value(), 0);
    assert_eq!(root.hash(), next.hash());
    assert_eq!(root.parent(), -1);
    assert!(root.is_not_expanded());
}

#[test]
fn reuse_beyond_two_plies_starts_afresh() {
    let (mut tree, root_pos, child) = opened();
    let mut one = root_pos;
    one.make_move(8);
    tree.node_mut(child).expand(&mut one);
    let mut two = one;
    two.make_move(1);
    let grandchild = tree.add(two.game_state(), two.hash(), child);
    tree.edge_mut(child, 0).set_ptr(grandchild);
    tree.propagate(grandchild, 0);
    tree.node_mut(grandchild).expand(&mut two);
    let mut three = two;
    three.make_move(2);
    let last = tree.add(three.game_state(), three.hash(), grandchild);
    tree.edge_mut(grandchild, 0).set_ptr(last);
    tree.propagate(last, 0);
    tree.subtree(&root_pos, &Some(three));
    assert_eq!(tree.len(), 1);
    assert_eq!(tree.node(0).hash(), three.hash());
}

#[test]
fn reset_leaves_a_single_root() {
    let (mut tree, _, _) = opened();
    let won = TicTacToe { side_to_move: true, grid: [0b000_000_111, 0b000_011_000] };
    tree.reset(&won);
    assert_eq!(tree.len(), 1);
    assert_eq!(tree.root(), 0);
    assert_eq!(tree.node(0).game_state(), GameState::Loss);
    assert_eq!(tree.node(0).hash(), won.hash());
}

#[test]
fn integer_square_roots() {
    assert_eq!(isqrt(0), 0);
    assert_eq!(isqrt(1), 1);
    assert_eq!(isqrt(15), 3);
    assert_eq!(isqrt(16), 4);
    assert_eq!(isqrt(17), 4);
    assert_eq!(isqrt(u128::MAX), u64::MAX);
    assert_eq!(isqrt(1 << 126), 1 << 63);
}

#[test]
fn exploration_term_is_the_coefficient_times_the_root_of_the_visits() {
    assert_eq!(exploration(65_535, 4), 131_070);
    assert_eq!(exploration(65_535, 0), 0);
    assert_eq!(exploration(0, 1_000), 0);
    // 1.41 * sqrt(2) = 1.994..., in units of 65535
    assert_eq!(exploration(92_404, 2), 130_678);
    assert_eq!(exploration(u32::MAX, u64::MAX), 18_446_744_069_414_584_319);
}

#[test]
fn selection_depends_on_the_tree_and_the_term_alone() {
    let ongoing = [GameState::Ongoing; 3];
    let stats = [(3, 60_000), (2, -5), (7, 50_004)];
    for term in [0, 1, 1_000, 600_000, u64::MAX] {
        let mut one = family(ongoing, stats, [10, 65_535, 32_767]);
        let mut other = family(ongoing, stats, [10, 65_535, 32_767]);
        assert_eq!(one.select(0, term), other.select(0, term));
        assert_eq!(one.select(0, term), one.select(0, term));
    }
}
