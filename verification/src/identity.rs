//! Stable lane identities: the allocator that hands them out and the key under
//! which a cluster runtime files each physical lane.

use vstd::prelude::*;

verus! {

/// The identity of one physical lane inside a cluster runtime: the endpoint
/// reservation it came from and its lane number.
#[derive(Clone, Copy, Debug, PartialEq, Eq, Structural)]
pub struct DirectRefreshOwner {
    pub endpoint: u64,
    pub lane: u32,
}

/// A lane identity as reserved from the allocator.
#[derive(Clone, Copy, Debug, PartialEq, Eq, Structural)]
pub struct BorneraLaneOwner {
    pub endpoint: u64,
    pub lane: u32,
}

impl DirectRefreshOwner {
    /// Key under which the owner is filed in the slot map.
    pub open spec fn key(self) -> (u64, u32) {
        (self.endpoint, self.lane)
    }

    pub fn slot_key(&self) -> (key: (u64, u32))
        ensures
            key == self.key(),
    {
        (self.endpoint, self.lane)
    }
}

/// The owner as seen by its key.
pub open spec fn owner_of_key(key: (u64, u32)) -> DirectRefreshOwner {
    DirectRefreshOwner { endpoint: key.0, lane: key.1 }
}

/// The owner that files a reserved lane identity.
pub open spec fn refresh_owner_spec(owner: BorneraLaneOwner) -> DirectRefreshOwner {
    DirectRefreshOwner { endpoint: owner.endpoint, lane: owner.lane }
}

/// Converts a reserved lane identity into the owner that files it.
pub fn refresh_owner(owner: BorneraLaneOwner) -> (refresh: DirectRefreshOwner)
    ensures
        refresh == refresh_owner_spec(owner),
{
    DirectRefreshOwner { endpoint: owner.endpoint, lane: owner.lane }
}

/// The allocator ran out of fresh endpoint or lane identities.
#[derive(Clone, Copy, Debug, PartialEq, Eq, Structural)]
pub enum IdentityError {
    Exhausted,
}

/// Hands out fresh endpoint identities, each with consecutive, never reused
/// lane numbers.
pub struct IdentityAllocator {
    next_endpoint: u64,
    next_lane: u32,
}

/// The lanes one successful reservation of `count` lanes yields.
pub open spec fn reserved_lanes(endpoint: u64, first_lane: u32, count: nat) -> Seq<BorneraLaneOwner> {
    Seq::new(count, |i: int| BorneraLaneOwner { endpoint, lane: (first_lane + i) as u32 })
}

impl IdentityAllocator {
    pub closed spec fn next_endpoint(&self) -> u64 {
        self.next_endpoint
    }

    /// The lane number the next reservation starts at.
    pub closed spec fn next_lane(&self) -> u32 {
        self.next_lane
    }

    /// The lane number the next reservation starts at.
    pub fn lane_mark(&self) -> (lane: u32)
        ensures
            lane == self.next_lane(),
    {
        self.next_lane
    }

    /// Whether a reservation of `count` lanes can succeed.
    pub open spec fn can_reserve(&self, count: nat) -> bool {
        &&& self.next_endpoint() < u64::MAX
        &&& self.next_lane() + count <= u32::MAX
    }

    pub fn new() -> (allocator: IdentityAllocator)
        ensures
            allocator.next_endpoint() == 1,
            allocator.next_lane() == 1,
    {
        IdentityAllocator { next_endpoint: 1, next_lane: 1 }
    }

    /// Reserves one fresh endpoint with `count` consecutive fresh lanes.
    pub fn reserve_endpoint_lanes(&mut self, count: usize) -> (result: Result<(u64, Vec<BorneraLaneOwner>), IdentityError>)
        requires
            count > 0,
        ensures
            old(self).can_reserve(count as nat) ==> {
                &&& result matches Ok((endpoint, owners))
                &&& endpoint == old(self).next_endpoint()
                &&& owners@ == reserved_lanes(endpoint, old(self).next_lane(), count as nat)
                &&& final(self).next_endpoint() == old(self).next_endpoint() + 1
                &&& final(self).next_lane() == old(self).next_lane() + count
            },
            !old(self).can_reserve(count as nat) ==> {
                &&& result == Err::<(u64, Vec<BorneraLaneOwner>), IdentityError>(IdentityError::Exhausted)
                &&& final(self).next_endpoint() == old(self).next_endpoint()
                &&& final(self).next_lane() == old(self).next_lane()
            },
    {
        if self.next_endpoint == u64::MAX || count > (u32::MAX - self.next_lane) as usize {
            return Err(IdentityError::Exhausted);
        }
        let endpoint = self.next_endpoint;
        let first = self.next_lane;
        let mut owners: Vec<BorneraLaneOwner> = Vec::new();
        let mut offset: usize = 0;
        while offset < count
            invariant
                offset <= count,
                first + count <= u32::MAX,
                owners@ == reserved_lanes(endpoint, first, offset as nat),
            decreases count - offset,
        {
            let lane: u32 = first + offset as u32;
            owners.push(BorneraLaneOwner { endpoint, lane });
            offset = offset + 1;
            assert(owners@ =~= reserved_lanes(endpoint, first, offset as nat));
        }
        self.next_endpoint = endpoint + 1;
        self.next_lane = first + count as u32;
        Ok((endpoint, owners))
    }
}

/// Lane identities are never handed out twice: a reservation and any later one
/// (which starts at or after the lane where the first ended, on a later
/// endpoint) share no lane number and no endpoint.
pub proof fn law_reserved_lanes_never_reissued(
    endpoint: u64,
    first_lane: u32,
    count: nat,
    later_endpoint: u64,
    later_lane: u32,
    later_count: nat,
)
    requires
        first_lane + count <= later_lane,
        later_lane + later_count <= u32::MAX,
        endpoint < later_endpoint,
    ensures
        forall|i: int, j: int| 0 <= i < count && 0 <= j < later_count ==> {
            let earlier = #[trigger] reserved_lanes(endpoint, first_lane, count)[i];
            let later = #[trigger] reserved_lanes(later_endpoint, later_lane, later_count)[j];
            &&& earlier.lane != later.lane
            &&& earlier.endpoint != later.endpoint
        },
{
}

} // verus!
