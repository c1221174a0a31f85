//! Size estimate for a binary-like tree: the total number of nodes reached by
//! repeatedly halving a leaf count.

use vstd::prelude::*;

verus! {

/// The total reached by adding `nodes`, then `nodes / 2`, and so on down to
/// zero, starting from `count`.
pub open spec fn total_nodes(nodes: int, count: int) -> int
    decreases nodes,
{
    if nodes <= 0 {
        count
    } else {
        total_nodes(nodes / 2, count + nodes)
    }
}

/// Counts the nodes of a binary-like tree with `nodes` leaves: each level
/// holds about half the nodes of the one below it. The `spread` parameter is
/// kept for compatibility; the count always halves per level.
pub fn calc_total_nodes(spread: u32, nodes: u64, count: u64) -> (total: u64)
    requires
        count + 2 * nodes <= u64::MAX,
    ensures
        total == total_nodes(nodes as int, count as int),
    decreases nodes,
{
    if nodes == 0 {
        count
    } else {
        calc_total_nodes(spread, nodes / 2, count + nodes)
    }
}

} // verus!
