use crate::tree::node::Node;
use vstd::prelude::*;

verus! {

/// When a search stops: after `max_nodes` passes, or once `max_time`
/// milliseconds have gone by, whichever comes first.
#[derive(Copy, Clone)]
pub struct SearchSettings {
    pub max_time: Option<u128>,
    pub max_nodes: usize,
}

/// The schedule of the exploration coefficient.
///
/// An implementation maps the statistics of a parent to the coefficient that
/// weighs its children's priors, in units of [`crate::game::UNIT`]. The search
/// takes whatever comes back: nothing is assumed of it.
pub trait Exploration {
    fn cpuct(&self, parent: &Node) -> u32;
}

/// `root` is the integer square root of `x`.
pub open spec fn is_sqrt(x: int, root: int) -> bool {
    &&& 0 <= root
    &&& root * root <= x
    &&& x < (root + 1) * (root + 1)
}

/// A number has one integer square root only.
pub proof fn lemma_sqrt_unique(x: int, a: int, b: int)
    requires
        is_sqrt(x, a),
        is_sqrt(x, b),
    ensures
        a == b,
{
    if a < b {
        assert((a + 1) * (a + 1) <= b * b) by (nonlinear_arith)
            requires
                0 <= a,
                a + 1 <= b,
        ;
    }
    if b < a {
        assert((b + 1) * (b + 1) <= a * a) by (nonlinear_arith)
            requires
                0 <= b,
                b + 1 <= a,
        ;
    }
}

/// The integer square root: the greatest number whose square does not exceed
/// `x`.
pub fn isqrt(x: u128) -> (root: u64)
    ensures
        is_sqrt(x as int, root as int),
{
    let mut low: u128 = 0;
    let mut high: u128 = 0x1_0000_0000_0000_0000;
    assert((high as int) * (high as int) > x) by (nonlinear_arith)
        requires
            high == 0x1_0000_0000_0000_0000u128,
            x <= u128::MAX,
    ;
    while high - low > 1
        invariant
            low < high <= 0x1_0000_0000_0000_0000u128,
            (low as int) * (low as int) <= x,
            (high as int) * (high as int) > x,
        decreases high - low,
    {
        let mid = low + (high - low) / 2;
        assert((mid as int) * (mid as int) <= u128::MAX) by (nonlinear_arith)
            requires
                0 <= mid < 0x1_0000_0000_0000_0000u128,
        ;
        if mid * mid <= x {
            low = mid;
        } else {
            high = mid;
        }
    }
    low as u64
}

/// The exploration term `cpuct * sqrt(visits)` as an integer: the integer
/// square root of `cpuct * cpuct * visits`.
pub fn exploration(cpuct: u32, visits: u64) -> (term: u64)
    ensures
        is_sqrt(cpuct as int * cpuct as int * visits as int, term as int),
{
    let c = cpuct as u128;
    let n = visits as u128;
    assert(c as int * c as int * n as int <= u128::MAX) by (nonlinear_arith)
        requires
            0 <= c <= 0xffff_ffffu128,
            0 <= n <= 0xffff_ffff_ffff_ffffu128,
    ;
    assert(0 <= c as int * c as int <= u128::MAX) by (nonlinear_arith)
        requires
            0 <= c <= 0xffff_ffffu128,
    ;
    isqrt(c * c * n)
}

} // verus!
