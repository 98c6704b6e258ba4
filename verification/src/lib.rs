//! Monte Carlo tree search over two-player, perfect-information games, together
//! with the self-play machinery that labels positions by game outcome.
//!
//! All quantities that live on the unit interval (priors, rewards, exploration
//! coefficients) are carried as integers in which [`game::UNIT`] stands for one.
//!
//! What is proved of the search, beyond the contracts of its functions:
//!
//! - the books of the tree balance after every pass
//!   ([`tree::Tree::lemma_children_visits`]);
//! - selection and the choice of the move to play are functions of the tree
//!   ([`tree::Tree::lemma_selects_one`], [`search::Search::lemma_favours_one`]);
//! - a position that was searched one or two plies ahead is found again, and
//!   any other starts a new tree ([`tree::Tree::lemma_reuse_hit`],
//!   [`tree::Tree::lemma_reuse_miss`]);
//! - proven results spread as they should ([`tree::Tree::lemma_all_won_is_lost`],
//!   [`tree::Tree::lemma_lost_child_is_followed`]) and are true of the game
//!   ([`search::Search::lemma_sound`]).

mod clock;
pub mod datagen;
pub mod game;
pub mod games;
pub mod helper;
pub mod protocol;
pub mod random;
pub mod search;
pub mod tree;

pub use game::{Game, GameState};
