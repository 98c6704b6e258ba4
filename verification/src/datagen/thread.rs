use crate::datagen::rand::Rand;
use crate::datagen::AtomicStats;
use crate::game::{follows, reached, Game, GameState};
use crate::helper::{Exploration, SearchSettings};
use crate::search::{raised, Search};
use crate::tree::node::NodeView;
use crate::tree::Tree;
use std::sync::atomic::AtomicBool;
use vstd::prelude::*;

verus! {

/// A self-play worker: it plays whole games with a search of its own and
/// keeps every position it searched from, labelled with the outcome of its
/// game.
pub struct DatagenThread<G: Game, P: Exploration> {
    params: P,
    settings: SearchSettings,
    positions: Vec<(G, i8)>,
    games: usize,
}

impl<G: Game, P: Exploration> DatagenThread<G, P> {
    /// The labelled positions generated so far.
    pub closed spec fn buffer(&self) -> Seq<(G, i8)> {
        self.positions@
    }

    pub closed spec fn spec_games(&self) -> usize {
        self.games
    }

    pub closed spec fn spec_settings(&self) -> SearchSettings {
        self.settings
    }

    pub open spec fn spec_size(&self) -> usize {
        self.buffer().len() as usize
    }

    /// What the final position of a game is worth to the player who made the
    /// last move: one for a win, nothing for a draw, minus one for a loss.
    pub open spec fn spec_result(outcome: GameState) -> int {
        match outcome {
            GameState::Ongoing => 0,
            GameState::Win => -1,
            GameState::Draw => 0,
            GameState::Loss => 1,
        }
    }

    /// The label of the position that lies `back` plies before the last
    /// recorded one: the result, with its sign changed at every ply.
    pub open spec fn spec_label(outcome: GameState, back: int) -> int {
        if back % 2 == 0 {
            Self::spec_result(outcome)
        } else {
            -Self::spec_result(outcome)
        }
    }

    /// The labelled positions of one game, last position first.
    pub open spec fn labelled(recorded: Seq<G>, outcome: GameState) -> Seq<(G, i8)> {
        Seq::new(
            recorded.len(),
            |k: int| (recorded[recorded.len() - 1 - k], Self::spec_label(outcome, k) as i8),
        )
    }

    /// `to` follows from `from` by the move that a search names: a search
    /// that started with an empty arena and ran some passes from `from`.
    pub open spec fn answered(from: G, to: G) -> bool {
        exists|arena: Seq<NodeView>, mov: u16| #[trigger]
            Search::<G>::plays(arena, 0, from, Some(mov)) && Search::<G>::ran(
                seq![Tree::fresh(from.spec_game_state(), from.spec_hash(), -1i32)],
                arena,
                0,
                from,
            ) && from.spec_legal_moves().contains(mov) && to == from.spec_make_move(mov)
    }

    /// The position after `recorded[k]` in the game of `recorded` and `last`
    /// follows from it by the move that a search names.
    pub open spec fn answered_at(recorded: Seq<G>, last: G, k: int) -> bool {
        Self::answered(
            recorded[k],
            if k + 1 < recorded.len() {
                recorded[k + 1]
            } else {
                last
            },
        )
    }

    /// `recorded` are the positions of a game that was played to its end in
    /// `last`: each is ongoing, and the next follows from it by the move that
    /// a search names.
    pub open spec fn played(recorded: Seq<G>, last: G) -> bool {
        &&& last.spec_game_state() != GameState::Ongoing
        &&& forall|k: int|
            0 <= k < recorded.len() ==> (#[trigger] recorded[k]).spec_game_state()
                == GameState::Ongoing
        &&& forall|k: int|
            0 <= k < recorded.len() - 1 ==> follows(#[trigger] recorded[k], recorded[k + 1])
        &&& recorded.len() > 0 ==> follows(recorded.last(), last)
        &&& forall|k: int|
            0 <= k < recorded.len() ==> #[trigger] Self::answered_at(recorded, last, k)
    }

    /// The game of `recorded` and `last` was opened with random moves: seven
    /// at most lead from the default position to the first position that
    /// was searched from, or to the last where the opening ended the game.
    pub open spec fn opened(recorded: Seq<G>, last: G) -> bool {
        exists|plies: nat|
            plies <= 7 && #[trigger] reached(
                G::spec_default(),
                Self::first_position(recorded, last),
                plies,
            )
    }

    /// The position that the search first met in a game: the first recorded
    /// one, or the last position of the game where none was recorded.
    pub open spec fn first_position(recorded: Seq<G>, last: G) -> G {
        if recorded.len() > 0 {
            recorded[0]
        } else {
            last
        }
    }

    /// `after` is `before` and the labelled positions of one game.
    pub open spec fn one_game(before: Seq<(G, i8)>, after: Seq<(G, i8)>) -> bool {
        exists|recorded: Seq<G>, last: G|
            Self::played(recorded, last) && Self::opened(recorded, last) && after == before
                + #[trigger] Self::labelled(recorded, last.spec_game_state())
    }

    /// `after` is `before` and the labelled positions of `games` games, one
    /// game after the other.
    pub open spec fn sessions(before: Seq<(G, i8)>, after: Seq<(G, i8)>, games: nat) -> bool
        decreases games,
    {
        if games == 0 {
            after == before
        } else {
            exists|mid: Seq<(G, i8)>|
                Self::sessions(before, mid, (games - 1) as nat) && #[trigger] Self::one_game(
                    mid,
                    after,
                )
        }
    }

    /// One more game after `games` games makes `games + 1` games.
    pub proof fn lemma_one_more(
        before: Seq<(G, i8)>,
        mid: Seq<(G, i8)>,
        after: Seq<(G, i8)>,
        games: nat,
    )
        requires
            Self::sessions(before, mid, games),
            Self::one_game(mid, after),
        ensures
            Self::sessions(before, after, games + 1),
    {
        assert(Self::sessions(before, mid, ((games + 1) - 1) as nat) && Self::one_game(
            mid,
            after,
        ));
    }

    /// A worker that has not played yet; every search of its games runs with
    /// `params` and within `settings`.
    pub fn new(params: P, settings: SearchSettings) -> (thread: Self)
        ensures
            thread.buffer().len() == 0,
            thread.spec_games() == 0,
            thread.spec_settings() == settings,
    {
        DatagenThread { params, settings, positions: Vec::new(), games: 0 }
    }

    /// The number of labelled positions generated so far.
    #[verifier::when_used_as_spec(spec_size)]
    pub fn size(&self) -> (size: usize)
        ensures
            size == self.buffer().len(),
    {
        self.positions.len()
    }

    /// The number of games played so far.
    #[verifier::when_used_as_spec(spec_games)]
    pub fn games(&self) -> (games: usize)
        ensures
            games == self.spec_games(),
    {
        self.games
    }

    /// The labelled positions generated so far.
    pub fn positions(&self) -> (positions: &Vec<(G, i8)>)
        ensures
            positions@ == self.buffer(),
    {
        &self.positions
    }

    /// Appends the positions of one game to `buffer`, last position first,
    /// each with its label.
    pub fn label_game(recorded: &Vec<G>, outcome: GameState, buffer: &mut Vec<(G, i8)>)
        ensures
            final(buffer)@ == old(buffer)@ + Self::labelled(recorded@, outcome),
    {
        let mut result: i8 = match outcome {
            GameState::Draw => 0,
            GameState::Loss => 1,
            GameState::Win => -1,
            GameState::Ongoing => 0,
        };
        let count = recorded.len();
        let mut done: usize = 0;
        while done < count
            invariant
                count == recorded@.len(),
                done <= count,
                result == Self::spec_label(outcome, done as int),
                buffer@.len() == old(buffer)@.len() + done,
                forall|k: int| 0 <= k < old(buffer)@.len() ==> buffer@[k] == old(buffer)@[k],
                forall|k: int|
                    0 <= k < done ==> buffer@[old(buffer)@.len() + k] == Self::labelled(
                        recorded@,
                        outcome,
                    )[k],
            decreases count - done,
        {
            buffer.push((recorded[count - 1 - done], result));
            result = -result;
            done = done + 1;
        }
        assert(buffer@ =~= old(buffer)@ + Self::labelled(recorded@, outcome));
    }

    /// Plays games until `abort` is raised, counting each in `stats`. The
    /// flag is looked at between games only: a game that has begun is played
    /// to its end. What a look at the flag leads to is told by
    /// [`Self::advance`].
    pub fn run(&mut self, abort: &AtomicBool, stats: &AtomicStats)
        ensures
            final(self).spec_games() >= old(self).spec_games(),
            Self::sessions(
                old(self).buffer(),
                final(self).buffer(),
                (final(self).spec_games() - old(self).spec_games()) as nat,
            ),
            final(self).spec_settings() == old(self).spec_settings(),
    {
        loop
            invariant
                self.games >= old(self).games,
                self.settings == old(self).settings,
                Self::sessions(
                    old(self).buffer(),
                    self.buffer(),
                    (self.games - old(self).games) as nat,
                ),
            decreases usize::MAX - self.games,
        {
            let ghost mid = self.buffer();
            let stop = raised(abort);
            if !self.advance(stop, stats) {
                break ;
            }
            proof {
                Self::lemma_one_more(
                    old(self).buffer(),
                    mid,
                    self.buffer(),
                    (self.games - 1 - old(self).games) as nat,
                );
            }
        }
    }

    /// The step between two looks at the abort flag. Where the flag was seen
    /// raised, which `stop` tells, or the count of games is full, nothing is
    /// done; otherwise one game is played, counted here and counted in
    /// `stats` with its positions. The answer is whether a game was played.
    pub fn advance(&mut self, stop: bool, stats: &AtomicStats) -> (played: bool)
        ensures
            played == (!stop && old(self).spec_games() < usize::MAX),
            played ==> final(self).spec_games() == old(self).spec_games() + 1 && Self::one_game(
                old(self).buffer(),
                final(self).buffer(),
            ),
            !played ==> final(self).spec_games() == old(self).spec_games() && final(self).buffer()
                == old(self).buffer(),
            final(self).spec_settings() == old(self).spec_settings(),
    {
        if stop || self.games == usize::MAX {
            return false;
        }
        let positions = self.run_game();
        self.games = self.games + 1;
        stats.update(positions);
        true
    }

    /// Plays one game and appends its labelled positions to the buffer; the
    /// number of positions is returned.
    ///
    /// The game starts from the default position with up to seven random
    /// moves, fewer where the game ends before. From there on every move is
    /// the answer of a fresh search, and the position it was searched from is
    /// recorded.
    fn run_game(&mut self) -> (count: usize)
        ensures
            Self::one_game(old(self).buffer(), final(self).buffer()),
            count == final(self).buffer().len() - old(self).buffer().len(),
            final(self).spec_games() == old(self).spec_games(),
            final(self).spec_settings() == old(self).spec_settings(),
    {
        let mut pos = G::default();
        let mut rand = Rand::default();
        let opening = rand.random_range(0, 8);
        let mut ply: usize = 0;
        while ply < opening
            invariant
                ply <= opening < 8,
                reached(G::spec_default(), pos, ply as nat),
            decreases opening - ply,
        {
            let moves = pos.get_legal_moves();
            if moves.len() == 0 {
                break ;
            }
            let pick = rand.random_range(0, moves.len());
            let ghost from = pos;
            assert(moves@.contains(moves@[pick as int]));
            pos.make_move(moves[pick]);
            proof {
                assert(from.spec_legal_moves().contains(moves@[pick as int]) && pos
                    == from.spec_make_move(moves@[pick as int]));
                assert(reached(G::spec_default(), from, ((ply + 1) - 1) as nat) && follows(
                    from,
                    pos,
                ));
            }
            ply = ply + 1;
        }
        let ghost first = pos;
        let abort = AtomicBool::new(false);
        let mut recorded: Vec<G> = Vec::with_capacity(42);
        while pos.game_state() == GameState::Ongoing
            invariant
                forall|k: int|
                    0 <= k < recorded@.len() ==> (#[trigger] recorded@[k]).spec_game_state()
                        == GameState::Ongoing,
                forall|k: int|
                    0 <= k < recorded@.len() - 1 ==> follows(
                        #[trigger] recorded@[k],
                        recorded@[k + 1],
                    ),
                recorded@.len() > 0 ==> follows(recorded@.last(), pos),
                forall|k: int|
                    0 <= k < recorded@.len() ==> #[trigger] Self::answered_at(recorded@, pos, k),
                recorded@.len() > 0 ==> recorded@[0] == first,
                recorded@.len() == 0 ==> pos == first,
                self.settings == old(self).settings,
                self.games == old(self).games,
                self.positions == old(self).positions,
            decreases pos.horizon(),
        {
            let ghost before = recorded@;
            recorded.push(pos);
            let mut search = Search::new(pos, 50_000);
            let mov = search.run(Some(pos), &self.settings, &self.params, &abort);
            let ghost from = pos;
            proof {
                pos.lemma_moves_iff_ongoing();
            }
            match mov {
                Some(mov) => {
                    proof {
                        pos.lemma_horizon_decreases(mov);
                    }
                    pos.make_move(mov);
                    proof {
                        assert(from.spec_legal_moves().contains(mov) && pos == from.spec_make_move(
                            mov,
                        ));
                        assert(follows(from, pos));
                        assert(Self::answered(from, pos)) by {
                            assert(Search::<G>::plays(search.spec_tree()@, 0, from, Some(mov)));
                        }
                        assert forall|k: int| 0 <= k < recorded@.len() implies #[trigger] Self::answered_at(
                            recorded@,
                            pos,
                            k,
                        ) by {
                            if k < before.len() {
                                assert(Self::answered_at(before, from, k));
                            }
                        }
                        assert forall|k: int| 0 <= k < recorded@.len() - 1 implies follows(
                            #[trigger] recorded@[k],
                            recorded@[k + 1],
                        ) by {
                            if k < before.len() - 1 {
                                assert(follows(before[k], before[k + 1]));
                            } else {
                                assert(before.last() == recorded@[k]);
                            }
                        }
                    }
                },
                None => {
                    assert(false);
                },
            }
        }
        let outcome = pos.game_state();
        let ghost start = self.positions@;
        DatagenThread::<G, P>::label_game(&recorded, outcome, &mut self.positions);
        proof {
            assert(Self::played(recorded@, pos));
            assert(reached(
                G::spec_default(),
                Self::first_position(recorded@, pos),
                ply as nat,
            ));
            assert(Self::opened(recorded@, pos));
            assert(self.positions@ == start + Self::labelled(recorded@, pos.spec_game_state()));
        }
        recorded.len()
    }
}

} // verus!
