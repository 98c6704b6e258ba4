use mentor::datagen::rand::{Rand, MULTIPLIER};
use mentor::datagen::thread::DatagenThread;
use mentor::datagen::AtomicStats;
use mentor::game::{Game, GameState, UNIT};
use mentor::games::tictactoe::TicTacToe;
use mentor::helper::{Exploration, SearchSettings};
use mentor::random::{random_index, scale};
use mentor::tree::node::Node;
use std::sync::atomic::{AtomicBool, AtomicUsize, Ordering};

/// A constant coefficient that raises `abort` once it has been asked for
/// `patience` times: the search itself ends the worker's run.
struct Fixed<'a> {
    cpuct: u32,
    asked: AtomicUsize,
    patience: usize,
    abort: &'a AtomicBool,
}

impl Exploration for Fixed<'_> {
    fn cpuct(&self, _: &Node) -> u32 {
        if self.asked.fetch_add(1, Ordering::Relaxed) >= self.patience {
            self.abort.store(true, Ordering::Relaxed);
        }
        self.cpuct
    }
}

type Thread<'a> = DatagenThread<TicTacToe, Fixed<'a>>;

fn worker(abort: &AtomicBool, patience: usize) -> Thread<'_> {
    let params = Fixed { cpuct: 92_404, asked: AtomicUsize::new(0), patience, abort };
    DatagenThread::new(params, SearchSettings { max_time: None, max_nodes: 200 })
}

#[test]
fn assert_random_distribution() {
    const N: f32 = 1_000_000.0;
    const C: f32 = 82.528;
    const PI: f32 = 0.5;
    const EXPECTED: f32 = N * PI;

    let mut rand = Rand::default();
    let mut results = [0u64; 64];

    for _ in 0..N as u64 {
        let bits = rand.random_raw();

        for (i, result) in results.iter_mut().enumerate() {
            *result += (bits >> i) & 1;
        }
    }

    let sum: f32 = results
        .iter()
        .map(|observed| (*observed as f32 - EXPECTED).powf(2.0) / EXPECTED)
        .sum();

    assert!(
        sum < C,
        "Failed chi-square for 64 degrees of freedom at a 5% significance level with a value of {}",
        sum
    );
}

#[test]
fn generator_is_seeded_odd() {
    assert_eq!(Rand::new(12_344).seed, 12_345);
    assert_eq!(Rand::new(12_345).seed, 12_345);
    assert_eq!(Rand::default().seed & 1, 1);
}

#[test]
fn generator_steps_by_its_multiplier() {
    assert_eq!(MULTIPLIER, 0xF1C4_7040_DE49_4ACC_251D_055F_00F0_A1AB);
    let mut rand = Rand::new(1);
    assert_eq!(rand.random_raw(), 0x4d97_51fd_eb9e_b67d);
    assert_eq!(rand.seed, 0xf1c4_7040_de49_4acc_251d_055f_00f0_a1ab);
    assert_eq!(rand.random_raw(), 0xfab2_a758_cb4f_494d);
    assert_eq!(rand.seed, 0x522b_39ed_1267_2313_27a7_8d19_86b8_8839);
    assert_eq!(rand.random_raw(), 0x4188_d779_5ffb_aa38);
    let mut rand = Rand::new(12_345);
    assert_eq!(rand.random_raw(), 0x92db_ecf8_5e87_6c4a);
}

#[test]
fn range_is_cut_from_the_next_output() {
    let mut rand = Rand::new(1);
    assert_eq!(rand.random_range(0, 8), 2);
    let mut rand = Rand::new(1);
    assert_eq!(rand.random_range(10, 20), 13);
    let mut rand = Rand::new(1);
    assert_eq!(rand.random_range(5, 5), 5);
    assert_eq!(rand.seed, 0xf1c4_7040_de49_4acc_251d_055f_00f0_a1ab);
    let mut rand = Rand::default();
    for _ in 0..10_000 {
        let picked = rand.random_range(3, 11);
        assert!((3..11).contains(&picked));
    }
}

#[test]
fn bits_are_spread_over_the_indices() {
    assert_eq!(scale(0, 9), 0);
    assert_eq!(scale(u64::MAX, 9), 8);
    assert_eq!(scale(1 << 63, 9), 4);
    assert_eq!(scale(u64::MAX, 1), 0);
    assert_eq!(scale(u64::MAX / 3 + 1, 3), 1);
    assert_eq!(scale(u64::MAX / 3, 3), 0);
    for _ in 0..1_000 {
        assert!(random_index(7) < 7);
    }
}

#[test]
fn counters_add_up() {
    let stats = AtomicStats::default();
    assert_eq!((stats.games(), stats.positions()), (0, 0));
    stats.update(9);
    stats.update(0);
    stats.update(5);
    assert_eq!((stats.games(), stats.positions()), (3, 14));
}

fn board(first: u16, second: u16, second_to_move: bool) -> TicTacToe {
    TicTacToe { side_to_move: second_to_move, grid: [first, second] }
}

#[test]
fn labels_alternate_from_the_last_position_back() {
    let recorded = vec![board(0, 0, false), board(1, 0, true), board(1, 2, false)];
    let mut buffer = vec![(board(7, 7, true), 0)];
    DatagenThread::<TicTacToe, Fixed>::label_game(&recorded, GameState::Loss, &mut buffer);
    assert_eq!(
        buffer,
        vec![
            (board(7, 7, true), 0),
            (board(1, 2, false), 1),
            (board(1, 0, true), -1),
            (board(0, 0, false), 1),
        ]
    );
    let mut buffer = Vec::new();
    DatagenThread::<TicTacToe, Fixed>::label_game(&recorded, GameState::Draw, &mut buffer);
    assert_eq!(buffer.iter().map(|entry| entry.1).collect::<Vec<_>>(), vec![0, 0, 0]);
    let mut buffer = Vec::new();
    DatagenThread::<TicTacToe, Fixed>::label_game(&recorded, GameState::Win, &mut buffer);
    assert_eq!(buffer.iter().map(|entry| entry.1).collect::<Vec<_>>(), vec![-1, 1, -1]);
    let mut buffer = Vec::new();
    DatagenThread::<TicTacToe, Fixed>::label_game(&Vec::new(), GameState::Loss, &mut buffer);
    assert!(buffer.is_empty());
}

#[test]
fn raised_flag_keeps_the_worker_from_playing() {
    let abort = AtomicBool::new(true);
    let mut thread = worker(&abort, 0);
    let stats = AtomicStats::default();
    thread.run(&abort, &stats);
    assert_eq!((thread.games(), thread.size()), (0, 0));
    assert_eq!((stats.games(), stats.positions()), (0, 0));
    assert!(thread.positions().is_empty());
}

/// Checks that `entries` are the labelled positions of whole games, each
/// game last position first.
fn assert_games(entries: &[(TicTacToe, i8)]) -> usize {
    let mut games = 0;
    let mut at = 0;
    while at < entries.len() {
        // The first entry of a game is one move from the end.
        let (last, label) = entries[at];
        assert_eq!(last.game_state(), GameState::Ongoing);
        let ends: Vec<GameState> = last
            .get_legal_moves()
            .into_iter()
            .map(|mov| {
                let mut end = last;
                end.make_move(mov);
                end.game_state()
            })
            .collect();
        match label {
            1 => assert!(ends.contains(&GameState::Loss)),
            0 => assert!(ends.contains(&GameState::Draw)),
            other => panic!("the last mover never loses by moving, but the label is {other}"),
        }
        let mut sign = label;
        let mut pos = last;
        at += 1;
        while at < entries.len() {
            let (before, label) = entries[at];
            let follows = before.get_legal_moves().into_iter().any(|mov| {
                let mut next = before;
                next.make_move(mov);
                next == pos
            });
            if !follows {
                break;
            }
            sign = -sign;
            assert_eq!(label, sign);
            pos = before;
            at += 1;
        }
        games += 1;
    }
    games
}

#[test]
fn worker_finishes_the_game_it_is_in() {
    let abort = AtomicBool::new(false);
    let stats = AtomicStats::default();
    // The flag goes up with the first question of the first search. Games
    // that the random opening has already ended come before it.
    let mut thread = worker(&abort, 0);
    thread.run(&abort, &stats);
    assert!(abort.load(Ordering::Relaxed));
    assert!(thread.games() >= 1);
    assert_eq!(stats.games(), thread.games());
    assert_eq!(stats.positions(), thread.size());
    // Only the last game was searched, and it was played to its end.
    assert!(thread.size() >= 1);
    assert_eq!(assert_games(thread.positions()), 1);
}

#[test]
fn counts_of_the_workers_add_up() {
    let stats = AtomicStats::default();
    let flags: Vec<AtomicBool> = (0..4).map(|_| AtomicBool::new(false)).collect();
    let mut threads: Vec<Thread> =
        flags.iter().enumerate().map(|(k, abort)| worker(abort, 2_000 * (k + 1))).collect();
    for (thread, abort) in threads.iter_mut().zip(&flags) {
        thread.run(abort, &stats);
    }
    assert!(stats.games() >= 4);
    assert_eq!(stats.games(), threads.iter().map(|thread| thread.games()).sum::<usize>());
    assert_eq!(stats.positions(), threads.iter().map(|thread| thread.size()).sum::<usize>());
    for thread in &threads {
        assert!(thread.games() >= 1);
        assert_eq!(thread.size(), thread.positions().len());
        // A game that the random opening has already ended leaves no entry.
        assert!(assert_games(thread.positions()) <= thread.games());
    }
    assert!(UNIT > 0);
}

#[test]
fn step_plays_one_game_unless_the_flag_was_seen() {
    let abort = AtomicBool::new(false);
    let stats = AtomicStats::default();
    let mut thread = worker(&abort, usize::MAX);
    assert!(!thread.advance(true, &stats));
    assert_eq!((thread.games(), thread.size()), (0, 0));
    assert_eq!((stats.games(), stats.positions()), (0, 0));
    assert!(thread.advance(false, &stats));
    assert_eq!(thread.games(), 1);
    assert_eq!((stats.games(), stats.positions()), (1, thread.size()));
    assert!(assert_games(thread.positions()) <= 1);
    let size = thread.size();
    assert!(!thread.advance(true, &stats));
    assert_eq!((thread.games(), thread.size()), (1, size));
    assert!(thread.advance(false, &stats));
    assert_eq!(thread.games(), 2);
    assert_eq!((stats.games(), stats.positions()), (2, thread.size()));
}
