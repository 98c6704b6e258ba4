pub mod rand;
pub mod thread;

use std::sync::atomic::{AtomicUsize, Ordering};
use vstd::prelude::*;

verus! {

/// The counters that all workers share: games played and positions
/// generated. Other threads add to them at any time, so a reading tells
/// nothing that could be stated ahead of it.
pub struct AtomicStats {
    games: AtomicUsize,
    positions: AtomicUsize,
}

impl Default for AtomicStats {
    fn default() -> Self {
        AtomicStats { games: AtomicUsize::new(0), positions: AtomicUsize::new(0) }
    }
}

impl AtomicStats {
    /// Counts one more game, and the positions it generated.
    pub fn update(&self, positions: usize) {
        self.positions.fetch_add(positions, Ordering::Relaxed);
        self.games.fetch_add(1, Ordering::Relaxed);
    }

    pub fn games(&self) -> usize {
        self.games.load(Ordering::Relaxed)
    }

    pub fn positions(&self) -> usize {
        self.positions.load(Ordering::Relaxed)
    }
}

} // verus!
