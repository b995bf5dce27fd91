//! Physical capacity of a cluster lane set and cyclic cursor arithmetic.

use vstd::prelude::*;
use crate::error::ClusterError;
use crate::nonzero::NonZeroCount;
use crate::traffic::TRAFFIC_COUNT;

verus! {

/// Capacity of one cluster's physical lane set.
#[derive(Clone, Copy, Debug, PartialEq, Eq, Structural)]
pub struct DirectSetBounds {
    /// Most physical lanes the set may hold at once.
    pub max_connections: usize,
    /// Most ready lanes served in one turn.
    pub ready: usize,
}

/// One seed lane plus one lane per traffic class of every broker.
pub open spec fn cluster_lane_capacity(max_brokers: int) -> int {
    max_brokers * TRAFFIC_COUNT + 1
}

/// What `cluster_bounds` yields for the given limits.
pub open spec fn spec_cluster_bounds(max_brokers: int, lane_turn_budget: int) -> Result<DirectSetBounds, ClusterError> {
    let capacity = cluster_lane_capacity(max_brokers);
    if capacity > usize::MAX {
        Err(ClusterError::LaneCapacityOverflowed)
    } else if capacity > u32::MAX {
        Err(ClusterError::CapacityExceedsIdentityDomain)
    } else {
        Ok(DirectSetBounds {
            max_connections: capacity as usize,
            ready: (if lane_turn_budget < capacity { lane_turn_budget } else { capacity }) as usize,
        })
    }
}

/// Derives the lane-set capacity from the broker-directory bound and the
/// per-turn lane budget.
pub fn cluster_bounds(max_brokers: NonZeroCount, lane_turn_budget: NonZeroCount) -> (bounds: Result<DirectSetBounds, ClusterError>)
    ensures
        bounds == spec_cluster_bounds(max_brokers.spec_get() as int, lane_turn_budget.spec_get() as int),
        bounds matches Ok(b) ==> 0 < b.ready <= b.max_connections,
{
    let max_brokers = max_brokers.get();
    let lane_turn_budget = lane_turn_budget.get();
    let lanes = match max_brokers.checked_mul(TRAFFIC_COUNT) {
        Some(lanes) => lanes,
        None => return Err(ClusterError::LaneCapacityOverflowed),
    };
    let max_connections = match lanes.checked_add(1) {
        Some(max_connections) => max_connections,
        None => return Err(ClusterError::LaneCapacityOverflowed),
    };
    if max_connections > u32::MAX as usize {
        return Err(ClusterError::CapacityExceedsIdentityDomain);
    }
    let ready = if lane_turn_budget < max_connections { lane_turn_budget } else { max_connections };
    if ready == 0 {
        return Err(ClusterError::ReadyBudgetZero);
    }
    Ok(DirectSetBounds { max_connections, ready })
}

/// Position reached by stepping `selected` places forward from `cursor` in a
/// ring of `lanes` positions (the cursor is first reduced into the ring).
pub open spec fn spec_advance_cursor(cursor: int, selected: int, lanes: int) -> int {
    let start = if lanes == 0 { 0 } else { cursor % lanes };
    if start + selected < lanes {
        start + selected
    } else {
        start + selected - lanes
    }
}

/// Steps `selected` places forward from `cursor` in a ring of `lanes` slots.
pub fn advance_cursor(cursor: usize, selected: usize, lanes: usize) -> (next: usize)
    ensures
        next == spec_advance_cursor(cursor as int, selected as int, lanes as int),
        lanes > 0 && selected < lanes ==> next == (cursor % lanes + selected) % (lanes as int) && next < lanes,
{
    let cursor = match cursor.checked_rem(lanes) {
        Some(rem) => rem,
        None => 0,
    };
    let tail = lanes.saturating_sub(cursor);
    proof {
        if lanes > 0 && selected < lanes {
            let l = lanes as int;
            let x = cursor as int + selected as int;
            if x < l {
                assert(x % l == x) by (nonlinear_arith)
                    requires 0 <= x < l;
            } else {
                assert(x % l == x - l) by (nonlinear_arith)
                    requires l <= x < 2 * l;
            }
        }
    }
    if selected < tail {
        cursor + selected
    } else {
        selected.saturating_sub(tail)
    }
}

} // verus!
