use mentor::game::{playout, Game, GameState, UNIT};
use mentor::games::connect4::Connect4;
use mentor::games::tictactoe::TicTacToe;
use mentor::helper::{Exploration, SearchSettings};
use mentor::search::{goes_on, raised, Search};
use mentor::tree::node::Node;
use mentor::tree::Tree;
use std::sync::atomic::{AtomicBool, Ordering};

/// The schedule `init + ln((visits + base + 1) / base)`.
struct Schedule {
    init: f32,
    base: f32,
}

impl Exploration for Schedule {
    fn cpuct(&self, parent: &Node) -> u32 {
        let cpuct = self.init + ((parent.visits() as f32 + self.base + 1.0) / self.base).ln();
        (cpuct * UNIT as f32) as u32
    }
}

fn schedule() -> Schedule {
    Schedule { init: 1.41, base: 1.0 }
}

fn budget(max_nodes: usize) -> SearchSettings {
    SearchSettings { max_time: None, max_nodes }
}

fn position(first: u16, second: u16, second_to_move: bool) -> TicTacToe {
    TicTacToe { side_to_move: second_to_move, grid: [first, second] }
}

fn children_visits(tree: &Tree, index: i32) -> u64 {
    tree.node(index)
        .actions()
        .iter()
        .filter(|edge| edge.ptr() != -1)
        .map(|edge| tree.node(edge.ptr()).visits())
        .sum()
}

fn assert_books_balance(tree: &Tree) {
    for index in tree.root()..tree.len() {
        let node = tree.node(index);
        if node.visits() == 0 {
            assert!(node.is_not_expanded());
            continue;
        }
        let below = children_visits(tree, index);
        assert!(below <= node.visits() - 1, "node {index}");
        if !node.is_terminal() {
            assert_eq!(below, node.visits() - 1, "node {index}");
            let values: i128 = node
                .actions()
                .iter()
                .filter(|edge| edge.ptr() != -1)
                .map(|edge| tree.node(edge.ptr()).value())
                .sum();
            let first = node.value() + values;
            assert!(-i128::from(UNIT) <= first && first <= i128::from(UNIT), "node {index}");
        }
        for edge in node.actions() {
            if edge.ptr() != -1 {
                assert!(edge.ptr() > index);
                assert_eq!(tree.node(edge.ptr()).parent(), index);
                assert!(tree.node(edge.ptr()).visits() >= 1);
            }
        }
        let bound = i128::from(node.visits()) * i128::from(UNIT);
        assert!(-bound <= node.value() && node.value() <= bound);
    }
}

#[test]
fn new_search_has_an_empty_tree() {
    let search = Search::new(position(0, 0, false), 8);
    assert!(search.tree().is_empty());
    assert_eq!(search.tree().root(), -1);
}

#[test]
fn children_hold_fewer_visits_than_their_parent() {
    let pos = position(0, 0, false);
    let mut search = Search::new(pos, 1_024);
    let abort = AtomicBool::new(false);
    for _ in 0..5 {
        search.run(Some(pos), &budget(400), &schedule(), &abort);
        assert_books_balance(search.tree());
    }
    let tree = search.tree();
    assert_eq!(tree.node(tree.root()).visits(), 2_000);
    assert!(tree.len() <= 2_000);
}

#[test]
fn every_pass_is_counted_at_the_root() {
    let pos = position(0, 0, false);
    let mut search = Search::new(pos, 64);
    let abort = AtomicBool::new(false);
    search.run(Some(pos), &budget(1), &schedule(), &abort);
    assert_eq!(search.tree().node(0).visits(), 1);
    assert_eq!(search.tree().len(), 1);
    search.run(None, &budget(1), &schedule(), &abort);
    assert_eq!(search.tree().node(0).visits(), 2);
    assert_eq!(search.tree().len(), 2);
    assert_eq!(search.tree().node(1).visits(), 1);
    assert_eq!(search.tree().node(0).actions().len(), 9);
    search.run(None, &budget(7), &schedule(), &abort);
    assert_eq!(search.tree().node(0).visits(), 9);
    assert_eq!(children_visits(search.tree(), 0), 8);
}

#[test]
fn values_are_booked_with_alternating_sign() {
    let pos = position(0, 0, false);
    let mut search = Search::new(pos, 64);
    let abort = AtomicBool::new(false);
    search.run(Some(pos), &budget(300), &schedule(), &abort);
    let tree = search.tree();
    let root = tree.node(tree.root());
    assert_eq!(root.game_state(), GameState::Ongoing);
    let below: i128 = root
        .actions()
        .iter()
        .filter(|edge| edge.ptr() != -1)
        .map(|edge| tree.node(edge.ptr()).value())
        .sum();
    // All but the first reward of the root came up from a child, negated.
    let first = root.value() + below;
    assert!(-i128::from(UNIT) <= first && first <= i128::from(UNIT));
}

#[test]
fn last_pass_leaves_the_root_in_the_table() {
    let pos = position(0, 0, false);
    let mut search = Search::new(pos, 4_096);
    let abort = AtomicBool::new(false);
    search.run(Some(pos), &budget(250), &schedule(), &abort);
    let tree = search.tree();
    let root = tree.node(tree.root());
    let entry = tree.table().get(root.hash()).unwrap();
    assert_eq!((entry.visits, entry.wins), (root.visits(), root.value()));
    assert_eq!(entry.visits, 250);
}

#[test]
fn budget_of_no_passes_still_runs_one() {
    let pos = position(0, 0, false);
    let mut search = Search::new(pos, 64);
    let abort = AtomicBool::new(false);
    let best = search.run(Some(pos), &budget(0), &schedule(), &abort);
    assert_eq!(search.tree().node(0).visits(), 1);
    // The root has no edges yet: the first legal move is all there is to say.
    assert_eq!(best, Some(1));
}

#[test]
fn raised_flag_ends_the_run_after_one_pass() {
    let pos = position(0, 0, false);
    let mut search = Search::new(pos, 64);
    let abort = AtomicBool::new(true);
    assert!(raised(&abort));
    search.run(Some(pos), &budget(1_000), &schedule(), &abort);
    assert_eq!(search.tree().node(0).visits(), 1);
    abort.store(false, Ordering::Relaxed);
    assert!(!raised(&abort));
}

#[test]
fn elapsed_time_ends_the_run() {
    let pos = position(0, 0, false);
    let mut search = Search::new(pos, 64);
    let abort = AtomicBool::new(false);
    let settings = SearchSettings { max_time: Some(0), max_nodes: usize::MAX };
    search.run(Some(pos), &settings, &schedule(), &abort);
    assert_eq!(search.tree().node(0).visits(), 1);
}

#[test]
fn most_visited_move_is_played() {
    let pos = position(0, 0, false);
    let mut search = Search::new(pos, 64);
    let abort = AtomicBool::new(false);
    let best = search.run(Some(pos), &budget(500), &schedule(), &abort).unwrap();
    let tree = search.tree();
    let root = tree.node(tree.root());
    let visits: Vec<u64> =
        root.actions().iter().map(|edge| tree.node(edge.ptr()).visits()).collect();
    let most = *visits.iter().max().unwrap();
    let first = visits.iter().position(|&v| v == most).unwrap();
    assert_eq!(best, root.actions()[first].mov());
    assert_eq!(search.best_move(), Some(best));
}

#[test]
fn decided_position_has_no_move() {
    let won = position(0b000_000_111, 0b000_011_000, true);
    assert_eq!(won.game_state(), GameState::Loss);
    let mut search = Search::new(won, 64);
    let abort = AtomicBool::new(false);
    assert_eq!(search.run(Some(won), &budget(100), &schedule(), &abort), None);
    let tree = search.tree();
    assert_eq!(tree.len(), 1);
    assert_eq!(tree.node(0).game_state(), GameState::Loss);
    assert_eq!(tree.node(0).visits(), 1);
    // A loss for the side to move is a win for the side that moved there.
    assert_eq!(tree.node(0).value(), i128::from(UNIT));
}

#[test]
fn winning_move_is_found_and_proves_the_root() {
    // X . X
    // O O .
    // . . .      X to move wins on the middle of the top row.
    let pos = position(0b000_000_101, 0b000_011_000, false);
    let mut search = Search::new(pos, 64);
    let abort = AtomicBool::new(false);
    let best = search.run(Some(pos), &budget(1_000), &schedule(), &abort);
    let tree = search.tree();
    assert_eq!(tree.node(tree.root()).game_state(), GameState::Win);
    assert_eq!(best, Some(0b000_000_010));
    // The proof ended the run long before the budget did.
    assert!(tree.node(tree.root()).visits() < 1_000);
    assert_books_balance(tree);
}

#[test]
fn lost_position_is_proven_lost() {
    // X X .
    // X O .
    // . O .      O to move: X threatens the top row and the left column.
    let pos = position(0b000_001_011, 0b010_010_000, true);
    assert_eq!(pos.game_state(), GameState::Ongoing);
    let mut search = Search::new(pos, 64);
    let abort = AtomicBool::new(false);
    let best = search.run(Some(pos), &budget(10_000), &schedule(), &abort);
    let tree = search.tree();
    let root = tree.node(tree.root());
    assert_eq!(root.game_state(), GameState::Loss);
    assert!(best.is_some());
    for edge in root.actions() {
        assert_eq!(tree.node(edge.ptr()).game_state(), GameState::Win);
    }
    assert_books_balance(tree);
}

#[test]
fn threat_is_answered() {
    // X X .
    // . O .
    // . . .      O to move has to take the top right corner.
    let pos = position(0b000_000_011, 0b000_010_000, true);
    for _ in 0..5 {
        let mut search = Search::new(pos, 64);
        let abort = AtomicBool::new(false);
        let best = search.run(Some(pos), &budget(20_000), &schedule(), &abort);
        assert_eq!(best, Some(0b000_000_100));
    }
}

#[test]
fn self_play_between_searches_is_drawn() {
    let abort = AtomicBool::new(false);
    let mut pos = position(0, 0, false);
    let mut search = Search::new(pos, 64);
    let mut plies = 0;
    while pos.game_state() == GameState::Ongoing {
        let mov = search.run(Some(pos), &budget(40_000), &schedule(), &abort).unwrap();
        assert!(pos.get_legal_moves().contains(&mov));
        pos.make_move(mov);
        plies += 1;
    }
    assert_eq!(pos.game_state(), GameState::Draw);
    assert_eq!(plies, 9);
}

#[test]
fn run_reuses_the_subtree_of_the_move_played() {
    let abort = AtomicBool::new(false);
    let pos = position(0, 0, false);
    let mut search = Search::new(pos, 64);
    let mov = search.run(Some(pos), &budget(2_000), &schedule(), &abort).unwrap();
    let (nodes, child, visits) = {
        let tree = search.tree();
        let root = tree.node(tree.root());
        let edge = root.actions().iter().find(|edge| edge.mov() == mov).unwrap();
        (tree.len(), edge.ptr(), tree.node(edge.ptr()).visits())
    };
    let mut next = pos;
    next.make_move(mov);
    search.run(Some(next), &budget(1), &schedule(), &abort);
    let tree = search.tree();
    assert_eq!(tree.root(), child);
    assert!(tree.len() >= nodes && tree.len() <= nodes + 1);
    assert_eq!(tree.node(child).visits(), visits + 1);
    assert_books_balance(tree);
}

#[test]
fn run_starts_afresh_for_an_unrelated_position() {
    let abort = AtomicBool::new(false);
    let pos = position(0, 0, false);
    let mut search = Search::new(pos, 64);
    search.run(Some(pos), &budget(500), &schedule(), &abort);
    let far = position(0b000_010_001, 0b100_000_010, true);
    search.run(Some(far), &budget(1), &schedule(), &abort);
    let tree = search.tree();
    assert_eq!(tree.len(), 1);
    assert_eq!(tree.root(), 0);
    assert_eq!(tree.node(0).visits(), 1);
    assert_eq!(tree.node(0).hash(), far.hash());
}

#[test]
fn single_pass_books_a_fresh_leaf() {
    let pos = position(0, 0, false);
    let mut search = Search::new(pos, 64);
    let abort = AtomicBool::new(false);
    search.run(Some(pos), &budget(1), &schedule(), &abort);
    let mut scratch = pos;
    let reward = search.execute_iteration(0, &mut scratch, &schedule());
    let tree = search.tree();
    assert_eq!(tree.len(), 2);
    assert_eq!(tree.node(0).visits(), 2);
    assert_eq!(tree.node(1).visits(), 1);
    assert_eq!(tree.node(0).actions()[0].ptr(), 1);
    // What the child booked comes back with its sign changed.
    assert_eq!(i128::from(reward), -tree.node(1).value());
    assert_eq!(scratch, {
        let mut next = pos;
        next.make_move(1);
        next
    });
}

#[test]
fn search_plays_connect_four() {
    let abort = AtomicBool::new(false);
    let pos = Connect4::default();
    let mut search = Search::new(pos, 64);
    let best = search.run(Some(pos), &budget(3_000), &schedule(), &abort).unwrap();
    assert!(best < 7);
    assert_books_balance(search.tree());
}

#[test]
fn playout_runs_to_the_end() {
    let mut pos = position(0, 0, false);
    let plies = playout(&mut pos);
    assert_ne!(pos.game_state(), GameState::Ongoing);
    assert!((5..=9).contains(&plies));
    assert_eq!(plies, (pos.grid[0] | pos.grid[1]).count_ones());
    let before = pos;
    assert_eq!(playout(&mut pos), 0);
    assert_eq!(pos, before);
}

#[test]
fn simulate_values_the_playout_for_the_side_to_move() {
    for _ in 0..50 {
        let mut pos = position(0, 0, false);
        let reward = Search::<TicTacToe>::simulate(&mut pos);
        let expected = match pos.game_state() {
            GameState::Draw => 0,
            GameState::Loss if pos.side_to_move() == 0 => -UNIT,
            GameState::Loss => UNIT,
            state => panic!("playout ended in {state:?}"),
        };
        assert_eq!(reward, expected);
    }
}

#[test]
fn playout_reward_by_outcome() {
    assert_eq!(Search::<TicTacToe>::playout_reward(GameState::Draw, true), 0);
    assert_eq!(Search::<TicTacToe>::playout_reward(GameState::Draw, false), 0);
    assert_eq!(Search::<TicTacToe>::playout_reward(GameState::Loss, true), -UNIT);
    assert_eq!(Search::<TicTacToe>::playout_reward(GameState::Loss, false), UNIT);
    assert_eq!(Search::<TicTacToe>::playout_reward(GameState::Win, true), -UNIT);
}

fn snapshot(tree: &Tree) -> Vec<(i32, GameState, u64, i128, Vec<(i32, u16, u16)>)> {
    (0..tree.len())
        .map(|index| {
            let node = tree.node(index);
            let edges =
                node.actions().iter().map(|edge| (edge.ptr(), edge.mov(), edge.policy())).collect();
            (node.parent(), node.game_state(), node.visits(), node.value(), edges)
        })
        .collect()
}

#[test]
fn searches_without_chance_repeat_themselves() {
    // One free cell: every evaluation is the same playout of a single move.
    let pos = position(0b010_001_101, 0b001_110_010, false);
    let abort = AtomicBool::new(false);
    let mut first = Search::new(pos, 64);
    let mut second = Search::new(pos, 64);
    for passes in [1, 1, 3, 10] {
        let one = first.run(Some(pos), &budget(passes), &schedule(), &abort);
        let other = second.run(Some(pos), &budget(passes), &schedule(), &abort);
        assert_eq!(one, other);
        assert_eq!(one, Some(256));
        assert_eq!(snapshot(first.tree()), snapshot(second.tree()));
    }
    let tree = first.tree();
    // The root was valued once by a drawn playout, the child is a draw.
    assert_eq!(tree.len(), 2);
    assert_eq!(tree.node(1).game_state(), GameState::Draw);
    assert_eq!(tree.node(0).visits(), 15);
    assert_eq!(tree.node(1).visits(), 14);
    assert_eq!(tree.node(1).value(), 0);
    assert_eq!(tree.node(0).value(), -i128::from(UNIT / 2));
}

/// The value of a position for its side to move with best play on both
/// sides: 1 for a win, 0 for a draw, -1 for a loss.
fn minimax(pos: &TicTacToe) -> i32 {
    match pos.game_state() {
        GameState::Win => 1,
        GameState::Loss => -1,
        GameState::Draw => 0,
        GameState::Ongoing => pos
            .get_legal_moves()
            .into_iter()
            .map(|mov| {
                let mut next = *pos;
                next.make_move(mov);
                -minimax(&next)
            })
            .max()
            .unwrap(),
    }
}

/// Checks every node below `index`, which stands for `pos`: what is marked
/// as won or lost is so with best play.
fn assert_proofs_hold(tree: &Tree, index: i32, pos: &TicTacToe) -> usize {
    let node = tree.node(index);
    let mut proofs = 0;
    match node.game_state() {
        GameState::Win => assert_eq!(minimax(pos), 1, "node {index}"),
        GameState::Loss => assert_eq!(minimax(pos), -1, "node {index}"),
        GameState::Draw => assert_eq!(pos.game_state(), GameState::Draw),
        GameState::Ongoing => assert_eq!(pos.game_state(), GameState::Ongoing),
    }
    if node.is_terminal() && pos.game_state() == GameState::Ongoing {
        proofs += 1;
    }
    if !node.is_not_expanded() {
        let moves: Vec<u16> = node.actions().iter().map(|edge| edge.mov()).collect();
        assert_eq!(moves, pos.get_legal_moves());
    }
    for edge in node.actions() {
        if edge.ptr() != -1 {
            let mut next = *pos;
            next.make_move(edge.mov());
            assert_eq!(tree.node(edge.ptr()).hash(), next.hash());
            proofs += assert_proofs_hold(tree, edge.ptr(), &next);
        }
    }
    proofs
}

#[test]
fn proven_nodes_are_decided_with_best_play() {
    let abort = AtomicBool::new(false);
    let mut proofs = 0;
    // Every position after three plies in which the centre is taken first.
    for second in [1u16, 2, 4, 8, 32, 64, 128, 256] {
        for third in [1u16, 2, 4, 8, 32, 64, 128, 256] {
            if second == third {
                continue;
            }
            let mut pos = position(0, 0, false);
            for mov in [16, second, third] {
                pos.make_move(mov);
            }
            let mut search = Search::new(pos, 64);
            search.run(Some(pos), &budget(1_500), &schedule(), &abort);
            let tree = search.tree();
            proofs += assert_proofs_hold(tree, tree.root(), &pos);
            assert_books_balance(tree);
        }
    }
    assert!(proofs > 100);
}

#[test]
fn run_goes_on_until_something_ends_it() {
    let open = SearchSettings { max_time: None, max_nodes: 10 };
    let timed = SearchSettings { max_time: Some(50), max_nodes: 10 };
    assert!(goes_on(1, &open, false, false, 0));
    assert!(goes_on(9, &open, false, false, u128::MAX));
    // The budget is used up.
    assert!(!goes_on(10, &open, false, false, 0));
    assert!(!goes_on(11, &open, false, false, 0));
    assert!(!goes_on(1, &budget(0), false, false, 0));
    // The root is decided.
    assert!(!goes_on(1, &open, true, false, 0));
    // The flag was raised.
    assert!(!goes_on(1, &open, false, true, 0));
    // The time is over once as many milliseconds have gone by as were given.
    assert!(goes_on(1, &timed, false, false, 49));
    assert!(!goes_on(1, &timed, false, false, 50));
    assert!(!goes_on(1, &timed, false, false, 51));
    assert!(!goes_on(1, &SearchSettings { max_time: Some(0), max_nodes: 10 }, false, false, 0));
}

/// The nodes that differ between two states of the arena, in order.
fn changed(
    before: &[(i32, GameState, u64, i128, Vec<(i32, u16, u16)>)],
    after: &[(i32, GameState, u64, i128, Vec<(i32, u16, u16)>)],
) -> Vec<usize> {
    (0..after.len()).filter(|&j| j >= before.len() || before[j] != after[j]).collect()
}

#[test]
fn pass_books_its_reward_along_one_path_only() {
    let pos = position(0, 0, false);
    let mut search = Search::new(pos, 64);
    let abort = AtomicBool::new(false);
    search.run(Some(pos), &budget(1), &schedule(), &abort);
    for _ in 0..400 {
        let before = snapshot(search.tree());
        let mut scratch = pos;
        let reward = i128::from(search.execute_iteration(0, &mut scratch, &schedule()));
        let after = snapshot(search.tree());
        assert!(before.len() <= after.len() && after.len() <= before.len() + 1);
        let path = changed(&before, &after);
        assert_eq!(path[0], 0);
        let mut sign = 1;
        for (depth, &j) in path.iter().enumerate() {
            let (visits, value) = if j < before.len() { (before[j].2, before[j].3) } else { (0, 0) };
            assert_eq!(after[j].2, visits + 1);
            assert_eq!(after[j].3, value + sign * reward);
            sign = -sign;
            if depth > 0 {
                // Each node on the path is a child of the one before it.
                let parent = path[depth - 1];
                assert_eq!(after[j].0, parent as i32);
                assert!(after[parent].4.iter().any(|edge| edge.0 == j as i32));
            }
            let last = depth == path.len() - 1;
            let halts = j >= before.len() || before[j].2 == 0 || before[j].1 != GameState::Ongoing;
            assert_eq!(halts, last);
        }
        if after.len() > before.len() {
            assert_eq!(*path.last().unwrap(), before.len());
        }
        for j in 0..before.len() {
            let (old, new) = (&before[j], &after[j]);
            assert_eq!(old.0, new.0);
            assert!(old.2 <= new.2);
            if old.1 != GameState::Ongoing {
                assert_eq!(old.1, new.1);
            }
            if !old.4.is_empty() {
                assert_eq!(old.4.len(), new.4.len());
                for (was, is) in old.4.iter().zip(new.4.iter()) {
                    assert_eq!((was.1, was.2), (is.1, is.2));
                    if was.0 != -1 {
                        assert_eq!(was.0, is.0);
                    }
                }
            }
        }
        if search.tree().node(0).is_terminal() {
            break;
        }
    }
    assert_books_balance(search.tree());
}

#[test]
fn lost_child_is_followed_at_once() {
    // The first player completes the middle row with cell 4, the second of
    // its moves in the scan; the first of them, cell 2, wins nothing.
    let pos = position(0b000_101_000, 0b000_000_011, false);
    let mut search = Search::new(pos, 64);
    let abort = AtomicBool::new(false);
    search.run(Some(pos), &budget(1), &schedule(), &abort);
    let mut passes = 1;
    while !search.tree().node(0).is_terminal() {
        let before = snapshot(search.tree());
        let mut scratch = pos;
        search.execute_iteration(0, &mut scratch, &schedule());
        let after = snapshot(search.tree());
        passes += 1;
        if after[0].1 == GameState::Win {
            // The pass that proves the win goes into the lost child and
            // explores no other move.
            let path = changed(&before, &after);
            assert_eq!(path, vec![0, 2]);
            assert_eq!(after.len(), before.len());
            assert_eq!(after[2].1, GameState::Loss);
            assert_eq!(after[0].4[0], before[0].4[0]);
            assert_eq!(after[0].4[1], (2, 16, before[0].4[1].2));
            for edge in &after[0].4[2..] {
                assert_eq!(edge.0, -1);
            }
        }
        assert!(passes < 10);
    }
    assert_eq!(passes, 4);
    assert_eq!(search.tree().len(), 3);
    assert_eq!(search.tree().node(0).game_state(), GameState::Win);
    assert_eq!(search.best_move(), Some(16));
}

#[test]
fn move_that_wins_at_once_is_followed_when_the_scan_meets_it() {
    // . X X
    // O O .
    // . . .      X to move wins with the first of its moves.
    let abort = AtomicBool::new(false);
    let pos = position(0b000_000_110, 0b000_011_000, false);
    let mut search = Search::new(pos, 64);
    let best = search.run(Some(pos), &budget(100), &schedule(), &abort);
    assert_eq!(best, Some(1));
    let tree = search.tree();
    assert_eq!(tree.node(0).game_state(), GameState::Win);
    assert_eq!(tree.len(), 2);
    assert_eq!(tree.node(0).visits(), 3);
    assert_eq!(tree.node(1).visits(), 2);
    assert_eq!(tree.node(1).game_state(), GameState::Loss);
    assert_eq!(tree.node(0).actions().iter().filter(|edge| edge.ptr() != -1).count(), 1);
    // O O .
    // X . X
    // . . .      X wins with the second of its moves.
    let pos = position(0b000_101_000, 0b000_000_011, false);
    let mut search = Search::new(pos, 64);
    let best = search.run(Some(pos), &budget(100), &schedule(), &abort);
    assert_eq!(best, Some(16));
    let tree = search.tree();
    assert_eq!(tree.node(0).game_state(), GameState::Win);
    assert_eq!(tree.len(), 3);
    assert_eq!(tree.node(0).visits(), 4);
    assert_eq!(tree.node(1).visits(), 1);
    assert_eq!(tree.node(2).visits(), 2);
    // A budget that ends the run before the move is met leaves the moves
    // explored in their order.
    let mut search = Search::new(pos, 64);
    search.run(Some(pos), &budget(3), &schedule(), &abort);
    let tree = search.tree();
    assert_eq!(tree.node(0).game_state(), GameState::Ongoing);
    assert_eq!(tree.len(), 3);
    assert_eq!(tree.node(0).visits(), 3);
    let children: Vec<i32> = tree.node(0).actions().iter().map(|edge| edge.ptr()).collect();
    assert_eq!(children, vec![1, 2, -1, -1, -1]);
}

/// A schedule that gives the same coefficient for every node.
struct Constant(u32);

impl Exploration for Constant {
    fn cpuct(&self, _parent: &Node) -> u32 {
        self.0
    }
}

#[test]
fn exploration_coefficient_weighs_the_priors() {
    let pos = position(0, 0, false);
    let abort = AtomicBool::new(false);
    // Under a coefficient that outweighs every mean value the visits go to
    // the children that have the fewest.
    let mut search = Search::new(pos, 64);
    search.run(Some(pos), &budget(1 + 9 * 20), &Constant(u32::MAX), &abort);
    let tree = search.tree();
    assert_eq!(tree.node(0).visits(), 181);
    for edge in tree.node(0).actions() {
        assert_eq!(tree.node(edge.ptr()).visits(), 20);
    }
    search.run(None, &budget(4), &Constant(u32::MAX), &abort);
    let tree = search.tree();
    let mut visits: Vec<u64> =
        tree.node(0).actions().iter().map(|edge| tree.node(edge.ptr()).visits()).collect();
    visits.sort();
    assert_eq!(visits, vec![20, 20, 20, 20, 20, 21, 21, 21, 21]);
    assert_books_balance(tree);
}
