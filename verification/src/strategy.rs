//! The order in which entries leave the frontier.

use vstd::prelude::*;

verus! {

/// Which frontier entry is removed next.
#[derive(Clone, Copy, Debug, PartialEq, Eq, Structural)]
pub enum SearchStrategy {
    /// A uniformly random entry.
    Random,
    /// The oldest entry.
    BFS,
    /// The newest entry.
    DFS,
}

/// Whether `strategy` may remove the entry at `position` from a frontier of
/// `len` entries.
pub open spec fn pick_allowed(strategy: SearchStrategy, len: nat, position: int) -> bool {
    match strategy {
        SearchStrategy::BFS => len > 0 && position == 0,
        SearchStrategy::DFS => len > 0 && position == len - 1,
        SearchStrategy::Random => 0 <= position < len,
    }
}

/// A random position in a frontier of `len` entries.
///
/// Calls `fastrand::usize` with the range `..len`, which draws from the
/// thread's generator. Trusted: the result lies in the range. Nothing else is
/// claimed of it, and two calls may differ.
#[verifier::external_body]
pub(crate) fn random_below(len: usize) -> (position: usize)
    requires
        len > 0,
    ensures
        position < len,
{
    fastrand::usize(..len)
}

} // verus!
