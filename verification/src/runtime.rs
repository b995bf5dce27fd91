//! The cluster runtime's ownership model: physical lanes filed under stable
//! owners, broker families that reserve one owner per traffic class, and the
//! seed lane.

use vstd::prelude::*;
use std::collections::BTreeMap;
use vstd::std_specs::iter::IteratorSpec;
use crate::bounds::{cluster_bounds, spec_cluster_bounds, DirectSetBounds};
use crate::endpoint::BrokerEndpoint;
use crate::nonzero::NonZeroCount;
use crate::error::{identity_error, ClusterError};
use crate::family::{BrokerFamily, FamilyLaneState};
use crate::identity::{
    refresh_owner, refresh_owner_spec, reserved_lanes, BorneraLaneOwner, DirectRefreshOwner, IdentityAllocator,
};
use crate::lane::{family_refresh_fence_valid, reclaimable, spec_refresh_fence_valid, LaneFacts, LaneRecord, LifecyclePhase};
use crate::traffic::{traffic_at, traffic_of, BrokerLane, TrafficClass, TRAFFIC_COUNT};
use crate::bounds::{advance_cursor, spec_advance_cursor};

verus! {

broadcast use vstd::laws_cmp::group_laws_cmp;

/// The installed seed lane and the generation it was resolved for.
#[derive(Clone, Copy, Debug, PartialEq, Eq, Structural)]
pub struct SeedSlot {
    pub owner: DirectRefreshOwner,
    pub generation: u64,
}

/// A newer seed offer kept while the installed seed could not be replaced.
#[derive(Debug)]
pub struct PendingSeed {
    pub generation: u64,
    pub endpoint: BrokerEndpoint,
}

/// Cluster-wide lane ownership.
pub struct ClusterRuntime {
    bounds: DirectSetBounds,
    max_brokers: usize,
    identities: IdentityAllocator,
    lanes: Vec<LaneRecord>,
    slots: BTreeMap<(u64, u32), usize>,
    families: BTreeMap<i32, BrokerFamily>,
    seed: Option<SeedSlot>,
    pending_seed: Option<PendingSeed>,
    directory: BTreeMap<i32, BrokerEndpoint>,
    directory_generation: Option<u64>,
    refresh_turn: Vec<BrokerLane>,
    refresh_cursor: usize,
    cluster_draining: bool,
    scram_proof_sender: bool,
}

impl ClusterRuntime {
    pub closed spec fn lanes(&self) -> Seq<LaneRecord> {
        self.lanes@
    }

    /// Physical index of each owner, by owner key.
    pub closed spec fn slots(&self) -> Map<(u64, u32), usize> {
        self.slots@
    }

    pub closed spec fn families(&self) -> Map<i32, BrokerFamily> {
        self.families@
    }

    pub closed spec fn seed(&self) -> Option<SeedSlot> {
        self.seed
    }

    /// The retained seed offer: its generation and endpoint.
    pub closed spec fn pending_seed(&self) -> Option<(u64, (Seq<u8>, u16))> {
        match self.pending_seed {
            Some(pending) => Some((pending.generation, pending.endpoint.value())),
            None => None,
        }
    }

    pub closed spec fn bounds(&self) -> DirectSetBounds {
        self.bounds
    }

    pub closed spec fn max_brokers(&self) -> usize {
        self.max_brokers
    }

    /// The lane number the next identity reservation starts at.
    pub closed spec fn next_lane(&self) -> u32 {
        self.identities.next_lane()
    }

    pub closed spec fn next_endpoint(&self) -> u64 {
        self.identities.next_endpoint()
    }

    /// The advertised endpoint of each broker.
    pub closed spec fn directory(&self) -> Map<i32, (Seq<u8>, u16)> {
        self.directory@.map_values(|endpoint: BrokerEndpoint| endpoint.value())
    }

    /// The metadata generation of the installed directory, once one is.
    pub closed spec fn directory_generation(&self) -> Option<u64> {
        self.directory_generation
    }

    pub closed spec fn refresh_turn(&self) -> Seq<BrokerLane> {
        self.refresh_turn@
    }

    pub closed spec fn refresh_cursor(&self) -> usize {
        self.refresh_cursor
    }

    pub closed spec fn draining(&self) -> bool {
        self.cluster_draining
    }

    pub closed spec fn scram_sender(&self) -> bool {
        self.scram_proof_sender
    }

    /// The lane filed under `key`.
    pub open spec fn lane_at_key(&self, key: (u64, u32)) -> LaneRecord {
        self.lanes()[self.slots()[key] as int]
    }

    /// Whether some broker family reserved `owner`.
    pub open spec fn family_holds(&self, owner: DirectRefreshOwner) -> bool {
        exists|broker: i32| #[trigger] self.families().contains_key(broker) && self.families()[broker].holds(owner)
    }

    /// Every lane is filed under its owner's key at its own index, and every
    /// filed key names the lane at its index.
    pub open spec fn slots_consistent(&self) -> bool {
        &&& forall|i: int| 0 <= i < self.lanes().len() ==> {
            &&& #[trigger] self.slots().contains_key(self.lanes()[i].owner.key())
            &&& self.slots()[self.lanes()[i].owner.key()] == i
        }
        &&& forall|key: (u64, u32)| #[trigger] self.slots().contains_key(key) ==> {
            &&& self.slots()[key] < self.lanes().len()
            &&& self.lanes()[self.slots()[key] as int].owner.key() == key
        }
    }

    /// Each family reserves four distinct owners, and exactly its active
    /// owners are filed.
    pub open spec fn families_consistent(&self) -> bool {
        forall|broker: i32| #[trigger] self.families().contains_key(broker) ==> {
            let family = self.families()[broker];
            &&& family.wf()
            &&& forall|t: int| 0 <= t < TRAFFIC_COUNT ==>
                (#[trigger] family.active()[t] <==> self.slots().contains_key(family.owners()[t].key()))
            &&& forall|t: int| 0 <= t < TRAFFIC_COUNT ==> (#[trigger] family.owners()[t]).lane < self.next_lane()
            &&& forall|t: int, u: int| 0 <= t < u < TRAFFIC_COUNT ==> #[trigger] family.owners()[t] != #[trigger] family.owners()[u]
        }
    }

    /// No owner is reserved by two families.
    pub open spec fn families_disjoint(&self) -> bool {
        forall|b1: i32, b2: i32, t1: int, t2: int|
            #![trigger self.families()[b1].owners()[t1], self.families()[b2].owners()[t2]]
            self.families().contains_key(b1) && self.families().contains_key(b2) && b1 != b2
                && 0 <= t1 < TRAFFIC_COUNT && 0 <= t2 < TRAFFIC_COUNT
                ==> self.families()[b1].owners()[t1] != self.families()[b2].owners()[t2]
    }

    /// The seed, if any, is filed and belongs to no family.
    pub open spec fn seed_consistent(&self) -> bool {
        self.seed() matches Some(seed) ==> {
            &&& self.slots().contains_key(seed.owner.key())
            &&& !self.family_holds(seed.owner)
        }
    }

    /// Every filed owner came from the identity allocator.
    pub open spec fn owners_reserved(&self) -> bool {
        forall|key: (u64, u32)| #[trigger] self.slots().contains_key(key) ==> key.1 < self.next_lane()
    }

    /// The runtime's ownership invariant.
    pub open spec fn wf(&self) -> bool {
        &&& self.slots_consistent()
        &&& self.slots().dom().len() == self.lanes().len()
        &&& self.families_consistent()
        &&& self.families_disjoint()
        &&& self.seed_consistent()
        &&& self.owners_reserved()
        &&& self.lanes().len() <= self.bounds().max_connections
        &&& self.bounds().max_connections <= u32::MAX
        &&& self.families().dom().len() <= self.max_brokers()
        &&& self.max_brokers() * TRAFFIC_COUNT < self.bounds().max_connections
        &&& self.refresh_turn().len() <= self.max_brokers() * TRAFFIC_COUNT
    }

    /// Every observable part of the two runtimes agrees.
    pub open spec fn same_view(&self, other: ClusterRuntime) -> bool {
        &&& self.lanes() == other.lanes()
        &&& self.slots() == other.slots()
        &&& self.families() == other.families()
        &&& self.seed() == other.seed()
        &&& self.pending_seed() == other.pending_seed()
        &&& self.bounds() == other.bounds()
        &&& self.max_brokers() == other.max_brokers()
        &&& self.next_lane() == other.next_lane()
        &&& self.next_endpoint() == other.next_endpoint()
        &&& self.directory() == other.directory()
        &&& self.directory_generation() == other.directory_generation()
        &&& self.refresh_turn() == other.refresh_turn()
        &&& self.refresh_cursor() == other.refresh_cursor()
        &&& self.draining() == other.draining()
        &&& self.scram_sender() == other.scram_sender()
    }

    /// Whether `owner` is fresh: reserved but neither filed nor held by a
    /// family or the seed.
    pub open spec fn is_fresh(&self, owner: DirectRefreshOwner) -> bool {
        &&& owner.lane < self.next_lane()
        &&& !self.slots().contains_key(owner.key())
        &&& !self.family_holds(owner)
        &&& !(self.seed() matches Some(seed) && seed.owner == owner)
    }

    /// A runtime sized for `max_brokers` broker families.
    pub fn new(max_brokers: NonZeroCount, lane_turn_budget: NonZeroCount) -> (runtime: Result<ClusterRuntime, ClusterError>)
        ensures
            spec_cluster_bounds(max_brokers.spec_get() as int, lane_turn_budget.spec_get() as int) matches Err(error)
                ==> runtime == Err::<ClusterRuntime, ClusterError>(error),
            spec_cluster_bounds(max_brokers.spec_get() as int, lane_turn_budget.spec_get() as int) matches Ok(bounds) ==> {
                &&& runtime matches Ok(runtime)
                &&& runtime.wf()
                &&& runtime.bounds() == bounds
                &&& runtime.max_brokers() == max_brokers.spec_get()
                &&& runtime.lanes().len() == 0
                &&& runtime.slots().is_empty()
                &&& runtime.families().is_empty()
                &&& runtime.seed() is None
                &&& runtime.pending_seed() is None
                &&& runtime.next_lane() == 1
                &&& runtime.next_endpoint() == 1
                &&& runtime.directory().is_empty()
                &&& runtime.directory_generation() is None
                &&& runtime.refresh_turn().len() == 0
                &&& runtime.refresh_cursor() == 0
                &&& !runtime.draining()
                &&& !runtime.scram_sender()
            },
    {
        let bounds = match cluster_bounds(max_brokers, lane_turn_budget) {
            Ok(bounds) => bounds,
            Err(error) => return Err(error),
        };
        let max_brokers = max_brokers.get();
        let runtime = ClusterRuntime {
            bounds,
            max_brokers,
            identities: IdentityAllocator::new(),
            lanes: Vec::new(),
            slots: BTreeMap::new(),
            families: BTreeMap::new(),
            seed: None,
            pending_seed: None,
            directory: BTreeMap::new(),
            directory_generation: None,
            refresh_turn: Vec::new(),
            refresh_cursor: 0,
            cluster_draining: false,
            scram_proof_sender: false,
        };
        proof {
            assert(runtime.families().dom() =~= Set::empty());
            assert(runtime.directory() =~= Map::empty());
        }
        Ok(runtime)
    }

    /// Reserves one fresh endpoint with `count` fresh lanes.
    pub fn reserve_endpoint_lanes(&mut self, count: usize) -> (result: Result<(u64, Vec<BorneraLaneOwner>), ClusterError>)
        requires
            old(self).wf(),
            count > 0,
        ensures
            final(self).wf(),
            final(self).lanes() == old(self).lanes(),
            final(self).slots() == old(self).slots(),
            final(self).families() == old(self).families(),
            final(self).seed() == old(self).seed(),
            final(self).bounds() == old(self).bounds(),
            final(self).max_brokers() == old(self).max_brokers(),
            final(self).directory() == old(self).directory(),
            final(self).directory_generation() == old(self).directory_generation(),
            final(self).pending_seed() == old(self).pending_seed(),
            final(self).refresh_turn() == old(self).refresh_turn(),
            final(self).refresh_cursor() == old(self).refresh_cursor(),
            final(self).draining() == old(self).draining(),
            final(self).scram_sender() == old(self).scram_sender(),
            old(self).next_endpoint() < u64::MAX && old(self).next_lane() + count <= u32::MAX ==> {
                &&& result matches Ok((endpoint, owners))
                &&& endpoint == old(self).next_endpoint()
                &&& owners@ == reserved_lanes(endpoint, old(self).next_lane(), count as nat)
                &&& final(self).next_lane() == old(self).next_lane() + count
                &&& final(self).next_endpoint() == old(self).next_endpoint() + 1
            },
            !(old(self).next_endpoint() < u64::MAX && old(self).next_lane() + count <= u32::MAX) ==> {
                &&& result == Err::<(u64, Vec<BorneraLaneOwner>), ClusterError>(ClusterError::IdentitiesExhausted)
                &&& final(self).next_lane() == old(self).next_lane()
                &&& final(self).next_endpoint() == old(self).next_endpoint()
            },
    {
        let result = self.identities.reserve_endpoint_lanes(count);
        match result {
            Ok(reserved) => Ok(reserved),
            Err(error) => Err(identity_error(error)),
        }
    }

    /// Number of physical lanes.
    pub fn lane_count(&self) -> (count: usize)
        ensures
            count == self.lanes().len(),
    {
        self.lanes.len()
    }

    /// Whether `owner` holds a physical lane.
    pub fn has_lane(&self, owner: DirectRefreshOwner) -> (found: bool)
        ensures
            found == self.slots().contains_key(owner.key()),
    {
        self.slots.contains_key(&owner.slot_key())
    }

    /// Number of brokers the installed directory advertises.
    pub fn advertised_brokers(&self) -> (count: usize)
        ensures
            count == self.directory().dom().len(),
    {
        proof {
            assert(self.directory().dom() =~= self.directory@.dom());
        }
        self.directory.len()
    }

    /// Number of physical lanes allocated.
    pub fn allocated_lanes(&self) -> (count: usize)
        ensures
            count == self.lanes().len(),
    {
        self.lanes.len()
    }

    /// Physical index of the seed lane, if a seed is installed.
    pub fn seed_lane_index(&self) -> (index: Option<usize>)
        requires
            self.wf(),
        ensures
            self.seed() matches Some(seed) ==> index == Some(self.slots()[seed.owner.key()]),
            self.seed() is None ==> index is None,
    {
        match self.seed {
            Some(seed) => match self.slots.get(&seed.owner.slot_key()) {
                Some(index) => Some(*index),
                None => None,
            },
            None => None,
        }
    }

    /// Number of installed broker families.
    pub fn family_count(&self) -> (count: usize)
        ensures
            count == self.families().dom().len(),
    {
        self.families.len()
    }

    /// The physical lane of `owner`.
    pub fn lane(&self, owner: DirectRefreshOwner) -> (lane: Option<&LaneRecord>)
        requires
            self.wf(),
        ensures
            self.slots().contains_key(owner.key()) ==> lane == Some(&self.lane_at_key(owner.key())),
            !self.slots().contains_key(owner.key()) ==> lane is None,
    {
        match self.slots.get(&owner.slot_key()) {
            Some(index) => Some(&self.lanes[*index]),
            None => None,
        }
    }

    /// Physical index of `owner`.
    fn index(&self, owner: DirectRefreshOwner) -> (index: Result<usize, ClusterError>)
        requires
            self.wf(),
        ensures
            self.slots().contains_key(owner.key()) ==> index == Ok::<usize, ClusterError>(self.slots()[owner.key()]),
            !self.slots().contains_key(owner.key()) ==> index == Err::<usize, ClusterError>(ClusterError::OwnerStale),
    {
        match self.slots.get(&owner.slot_key()) {
            Some(index) => Ok(*index),
            None => Err(ClusterError::OwnerStale),
        }
    }
}

impl ClusterRuntime {
    /// Records the new state of `owner`'s physical lane; the lane keeps its
    /// owner and its place.
    pub fn update_lane(&mut self, owner: DirectRefreshOwner, facts: LaneFacts) -> (updated: Result<(), ClusterError>)
        requires
            old(self).wf(),
        ensures
            final(self).wf(),
            !old(self).slots().contains_key(owner.key())
                ==> updated == Err::<(), ClusterError>(ClusterError::OwnerStale) && *final(self) == *old(self),
            old(self).slots().contains_key(owner.key()) ==> {
                &&& updated is Ok
                &&& final(self).lanes() == old(self).lanes().update(
                    old(self).slots()[owner.key()] as int,
                    LaneRecord { owner: old(self).lane_at_key(owner.key()).owner, facts },
                )
                &&& final(self).slots() == old(self).slots()
                &&& final(self).families() == old(self).families()
                &&& final(self).seed() == old(self).seed()
                &&& final(self).next_lane() == old(self).next_lane()
                &&& final(self).next_endpoint() == old(self).next_endpoint()
                &&& final(self).bounds() == old(self).bounds()
                &&& final(self).max_brokers() == old(self).max_brokers()
                &&& final(self).directory() == old(self).directory()
                &&& final(self).directory_generation() == old(self).directory_generation()
                &&& final(self).pending_seed() == old(self).pending_seed()
                &&& final(self).refresh_turn() == old(self).refresh_turn()
                &&& final(self).refresh_cursor() == old(self).refresh_cursor()
                &&& final(self).draining() == old(self).draining()
                &&& final(self).scram_sender() == old(self).scram_sender()
            },
    {
        let index = match self.slots.get(&owner.slot_key()) {
            Some(index) => *index,
            None => return Err(ClusterError::OwnerStale),
        };
        let ghost old_self = *self;
        let filed = self.lanes[index].owner;
        self.lanes.set(index, LaneRecord { owner: filed, facts });
        proof {
            assert forall|i: int| 0 <= i < self.lanes().len() implies {
                &&& #[trigger] self.slots().contains_key(self.lanes()[i].owner.key())
                &&& self.slots()[self.lanes()[i].owner.key()] == i
            } by {
                assert(old_self.slots().contains_key(old_self.lanes()[i].owner.key()));
            }
            assert(self.families() == old_self.families());
            lemma_wf_preserved_by_facts(old_self, *self);
        }
        Ok(())
    }
}

/// Looking an owner up finds what was filed under it: after a lane is filed
/// under a fresh key (as `insert_reserved`, `publish_seed`,
/// `publish_dormant_lane` and `publish_sparse_family` file it), that key
/// finds exactly the filed lane, and every key filed before still finds its
/// own lane.
pub proof fn law_filed_lane_is_found(before: ClusterRuntime, after: ClusterRuntime, lane: LaneRecord)
    requires
        before.wf(),
        !before.slots().contains_key(lane.owner.key()),
        after.lanes() == before.lanes().push(lane),
        after.slots() == before.slots().insert(lane.owner.key(), before.lanes().len() as usize),
    ensures
        after.slots().contains_key(lane.owner.key()),
        after.lane_at_key(lane.owner.key()) == lane,
        forall|key: (u64, u32)| #[trigger] before.slots().contains_key(key)
            ==> after.slots().contains_key(key) && after.lane_at_key(key) == before.lane_at_key(key),
{
    assert forall|key: (u64, u32)| #[trigger] before.slots().contains_key(key)
        implies after.slots().contains_key(key) && after.lane_at_key(key) == before.lane_at_key(key) by {
        assert(key != lane.owner.key());
        assert(before.slots()[key] < before.lanes().len());
    }
}

/// The ownership invariant does not depend on what the lanes' states are.
proof fn lemma_wf_preserved_by_facts(before: ClusterRuntime, after: ClusterRuntime)
    requires
        before.wf(),
        after.lanes().len() == before.lanes().len(),
        forall|i: int| 0 <= i < before.lanes().len() ==> #[trigger] after.lanes()[i].owner == before.lanes()[i].owner,
        after.slots() == before.slots(),
        after.families() == before.families(),
        after.seed() == before.seed(),
        after.next_lane() == before.next_lane(),
        after.bounds() == before.bounds(),
        after.max_brokers() == before.max_brokers(),
        after.refresh_turn() == before.refresh_turn(),
    ensures
        after.wf(),
{
    assert forall|i: int| 0 <= i < after.lanes().len() implies {
        &&& #[trigger] after.slots().contains_key(after.lanes()[i].owner.key())
        &&& after.slots()[after.lanes()[i].owner.key()] == i
    } by {
        assert(after.lanes()[i].owner == before.lanes()[i].owner);
        assert(before.slots().contains_key(before.lanes()[i].owner.key()));
    }
    assert forall|key: (u64, u32)| #[trigger] after.slots().contains_key(key) implies {
        &&& after.slots()[key] < after.lanes().len()
        &&& after.lanes()[after.slots()[key] as int].owner.key() == key
    } by {
        assert(after.lanes()[after.slots()[key] as int].owner == before.lanes()[before.slots()[key] as int].owner);
    }
}

impl ClusterRuntime {
    /// Drops the lane at `index`, filed under `owner`, by moving the last lane
    /// into its place and refiling that lane's owner.
    fn remove_at(&mut self, owner: DirectRefreshOwner, index: usize)
        requires
            old(self).slots_consistent(),
            old(self).slots().dom().len() == old(self).lanes().len(),
            old(self).slots().contains_key(owner.key()),
            old(self).slots()[owner.key()] == index,
        ensures
            final(self).slots_consistent(),
            final(self).slots().dom().len() == final(self).lanes().len(),
            final(self).slots().dom() == old(self).slots().dom().remove(owner.key()),
            forall|key: (u64, u32)| #[trigger] final(self).slots().contains_key(key)
                ==> final(self).lane_at_key(key) == old(self).lane_at_key(key),
            forall|key: (u64, u32)| #[trigger] final(self).slots().contains_key(key)
                && old(self).slots()[key] != old(self).lanes().len() - 1
                ==> final(self).slots()[key] == old(self).slots()[key],
            final(self).lanes().len() + 1 == old(self).lanes().len(),
            final(self).families() == old(self).families(),
            final(self).seed() == old(self).seed(),
            final(self).bounds() == old(self).bounds(),
            final(self).max_brokers() == old(self).max_brokers(),
            final(self).next_lane() == old(self).next_lane(),
            final(self).next_endpoint() == old(self).next_endpoint(),
            final(self).directory() == old(self).directory(),
            final(self).directory_generation() == old(self).directory_generation(),
            final(self).refresh_turn() == old(self).refresh_turn(),
            final(self).refresh_cursor() == old(self).refresh_cursor(),
            final(self).draining() == old(self).draining(),
            final(self).scram_sender() == old(self).scram_sender(),
            final(self).frame_unchanged(*old(self)),
            final(self).pending_seed() == old(self).pending_seed(),
    {
        let ghost old_lanes = self.lanes@;
        let ghost old_slots = self.slots@;
        let key = owner.slot_key();
        self.slots.remove(&key);
        let _retired = self.lanes.swap_remove(index);
        if index < self.lanes.len() {
            let moved = self.lanes[index].owner.slot_key();
            self.slots.insert(moved, index);
            proof {
                let last = old_lanes.len() - 1;
                assert(moved == old_lanes[last].owner.key());
                assert(old_slots[moved] == last);
            }
        }
        proof {
            let last = old_lanes.len() - 1;
            assert forall|i: int| 0 <= i < self.lanes@.len() implies {
                &&& #[trigger] self.slots@.contains_key(self.lanes@[i].owner.key())
                &&& self.slots@[self.lanes@[i].owner.key()] == i
            } by {
                if i != index {
                    assert(self.lanes@[i] == old_lanes[i]);
                    assert(old_slots.contains_key(old_lanes[i].owner.key()));
                    assert(old_slots[old_lanes[i].owner.key()] == i);
                    assert(old_lanes[i].owner.key() != key);
                }
            }
            assert forall|k: (u64, u32)| #[trigger] self.slots@.contains_key(k) implies {
                &&& self.slots@[k] < self.lanes@.len()
                &&& self.lanes@[self.slots@[k] as int].owner.key() == k
                &&& self.lanes@[self.slots@[k] as int] == old_lanes[old_slots[k] as int]
            } by {
                if index < self.lanes@.len() && k == old_lanes[last].owner.key() {
                } else {
                    assert(old_slots.contains_key(k));
                    assert(k != key);
                    let j = old_slots[k] as int;
                    assert(j != index);
                    assert(j != last);
                }
            }
            assert(self.slots@.dom() =~= old_slots.dom().remove(key));
        }
    }

    /// The family that reserved `owner`, if any.
    fn family_of(&self, owner: DirectRefreshOwner) -> (broker: Option<i32>)
        requires
            self.wf(),
        ensures
            broker matches Some(b) ==> self.families().contains_key(b) && self.families()[b].holds(owner),
            broker is None ==> !self.family_holds(owner),
    {
        let ghost keys = vstd::std_specs::btree::spec_keys_iter(&self.families).remaining().unref();
        proof {
            vstd::std_specs::btree::axiom_spec_keys_iter(&self.families);
        }
        for broker in it: self.families.keys()
            invariant
                self.wf(),
                it.seq().unref() == keys,
                keys.to_set() == self.families().dom(),
                forall|j: int| 0 <= j < it.index() ==> !self.families()[keys[j]].holds(owner),
        {
            let family = self.families.get(broker).unwrap();
            proof {
                assert(keys[it.index() as int] == *broker);
                assert(keys.to_set().contains(*broker));
            }
            if family.contains(owner) {
                return Some(*broker);
            }
        }
        proof {
            if self.family_holds(owner) {
                let b = choose|b: i32| #[trigger] self.families().contains_key(b) && self.families()[b].holds(owner);
                assert(keys.to_set().contains(b));
                let j = choose|j: int| 0 <= j < keys.len() && keys[j] == b;
                assert(!self.families()[keys[j]].holds(owner));
            }
        }
        None
    }

    /// Drops a terminal lane that belongs neither to the seed nor to a
    /// family; reports whether the lane was reclaimable and so dropped.
    pub fn remove_terminal(&mut self, owner: DirectRefreshOwner) -> (removed: Result<bool, ClusterError>)
        requires
            old(self).wf(),
        ensures
            final(self).wf(),
            (old(self).seed() matches Some(seed) && seed.owner == owner)
                ==> removed == Err::<bool, ClusterError>(ClusterError::SeedChangesOnlyByReplacement),
            !(old(self).seed() matches Some(seed) && seed.owner == owner) && old(self).family_holds(owner)
                ==> removed == Err::<bool, ClusterError>(ClusterError::FamilyLanesRemovedTogether),
            !(old(self).seed() matches Some(seed) && seed.owner == owner) && !old(self).family_holds(owner)
                && !old(self).slots().contains_key(owner.key())
                ==> removed == Err::<bool, ClusterError>(ClusterError::OwnerStale),
            !(old(self).seed() matches Some(seed) && seed.owner == owner) && !old(self).family_holds(owner)
                && old(self).slots().contains_key(owner.key())
                ==> removed == Ok::<bool, ClusterError>(old(self).lane_at_key(owner.key()).facts.is_reclaimable()),
            removed == Ok::<bool, ClusterError>(true) ==> {
                &&& final(self).slots().dom() == old(self).slots().dom().remove(owner.key())
                &&& forall|key: (u64, u32)| #[trigger] final(self).slots().contains_key(key)
                    ==> final(self).lane_at_key(key) == old(self).lane_at_key(key)
                &&& final(self).families() == old(self).families()
                &&& final(self).seed() == old(self).seed()
                &&& final(self).next_lane() == old(self).next_lane()
            },
            removed != Ok::<bool, ClusterError>(true) ==> *final(self) == *old(self),
    {
        if let Some(seed) = self.seed {
            if seed.owner == owner {
                return Err(ClusterError::SeedChangesOnlyByReplacement);
            }
        }
        if self.family_of(owner).is_some() {
            return Err(ClusterError::FamilyLanesRemovedTogether);
        }
        let index = match self.index(owner) {
            Ok(index) => index,
            Err(error) => return Err(error),
        };
        if !reclaimable(&self.lanes[index].facts) {
            return Ok(false);
        }
        let ghost before = *self;
        self.remove_at(owner, index);
        proof {
            let key = owner.key();
            assert forall|b: i32| #[trigger] self.families().contains_key(b) implies {
                let family = self.families()[b];
                forall|t: int| 0 <= t < TRAFFIC_COUNT ==>
                    (#[trigger] family.active()[t] <==> self.slots().contains_key(family.owners()[t].key()))
            } by {
                let family = self.families()[b];
                assert forall|t: int| 0 <= t < TRAFFIC_COUNT implies
                    (#[trigger] family.active()[t] <==> self.slots().contains_key(family.owners()[t].key())) by {
                    if family.owners()[t] == owner {
                        assert(before.families()[b].holds(owner));
                    }
                }
            }
            if let Some(seed) = self.seed() {
                assert(seed.owner != owner);
                assert(seed.owner.key() != key);
            }
        }
        Ok(true)
    }
}

/// The outcome of the checks that precede filing a new lane under `owner`.
pub open spec fn spec_insert_check(lanes: nat, max_connections: usize, filed: bool) -> Result<(), ClusterError> {
    if lanes + 1 > usize::MAX {
        Err(ClusterError::LaneCountOverflowed)
    } else if lanes + 1 > max_connections {
        Err(ClusterError::LaneCapacityReached)
    } else if filed {
        Err(ClusterError::OwnerReused)
    } else {
        Ok(())
    }
}

/// The outcome of the checks that precede installing a family for `broker`.
pub open spec fn spec_family_check(installed: bool, families: nat, max_brokers: usize, lanes: nat, max_connections: usize) -> Result<(), ClusterError> {
    if installed {
        Err(ClusterError::FamilyAlreadyInstalled)
    } else if families >= max_brokers {
        Err(ClusterError::FamilyCapacityReached)
    } else if lanes + TRAFFIC_COUNT > usize::MAX {
        Err(ClusterError::LaneCountOverflowed)
    } else if lanes + TRAFFIC_COUNT > max_connections {
        Err(ClusterError::LaneCapacityReached)
    } else {
        Ok(())
    }
}

/// The active lanes of a family in stable traffic order, each with its
/// physical index: the first `n` traffic positions.
pub open spec fn family_entries(family: BrokerFamily, slots: Map<(u64, u32), usize>, n: int) -> Seq<(usize, DirectRefreshOwner)>
    decreases n,
{
    if n <= 0 {
        Seq::empty()
    } else {
        let earlier = family_entries(family, slots, n - 1);
        if family.active()[n - 1] {
            earlier.push((slots[family.owners()[n - 1].key()], family.owners()[n - 1]))
        } else {
            earlier
        }
    }
}

/// The keys of the given owners.
pub open spec fn keys_of(owners: Seq<DirectRefreshOwner>) -> Set<(u64, u32)> {
    Set::new(|key: (u64, u32)| exists|j: int| 0 <= j < owners.len() && (#[trigger] owners[j]).key() == key)
}

/// A started lane's facts as the runtime files them: the lane shares the
/// runtime's SCRAM proof sender, if one is installed.
pub open spec fn started_facts(facts: LaneFacts, sender: bool) -> LaneFacts {
    LaneFacts { scram_proof_sender: sender, ..facts }
}

fn with_sender(facts: LaneFacts, sender: bool) -> (started: LaneFacts)
    ensures
        started == started_facts(facts, sender),
{
    let mut facts = facts;
    facts.scram_proof_sender = sender;
    facts
}

/// The lanes built for a freshly installed family, sharing the runtime's
/// SCRAM proof sender.
pub open spec fn published_lanes(owners: Seq<DirectRefreshOwner>, staged: Seq<LaneFacts>, sender: bool) -> Seq<LaneRecord> {
    Seq::new(staged.len(), |i: int| LaneRecord { owner: owners[i], facts: started_facts(staged[i], sender) })
}

impl ClusterRuntime {
    /// The checks that precede filing a lane under `owner`.
    pub open spec fn insert_check(&self, owner: DirectRefreshOwner) -> Result<(), ClusterError> {
        spec_insert_check(self.lanes().len(), self.bounds().max_connections, self.slots().contains_key(owner.key()))
    }

    /// The checks that precede installing a family for `broker`.
    pub open spec fn family_check(&self, broker: i32) -> Result<(), ClusterError> {
        spec_family_check(
            self.families().contains_key(broker),
            self.families().dom().len(),
            self.max_brokers(),
            self.lanes().len(),
            self.bounds().max_connections,
        )
    }

    /// Checks, without changing anything, that a lane could be filed under
    /// `owner`.
    pub fn preflight_insert(&self, owner: DirectRefreshOwner) -> (checked: Result<(), ClusterError>)
        requires
            self.wf(),
        ensures
            checked == self.insert_check(owner),
    {
        let next_len = match self.lanes.len().checked_add(1) {
            Some(next_len) => next_len,
            None => return Err(ClusterError::LaneCountOverflowed),
        };
        if next_len > self.bounds.max_connections {
            return Err(ClusterError::LaneCapacityReached);
        }
        if self.slots.contains_key(&owner.slot_key()) {
            return Err(ClusterError::OwnerReused);
        }
        Ok(())
    }

    /// Files a started lane under a reserved owner that no family or seed
    /// holds.
    #[verifier::spinoff_prover]
    pub fn insert_reserved(&mut self, owner: BorneraLaneOwner, facts: LaneFacts) -> (inserted: Result<DirectRefreshOwner, ClusterError>)
        requires
            old(self).wf(),
            owner.lane < old(self).next_lane(),
            !old(self).family_holds(refresh_owner_spec(owner)),
            !(old(self).seed() matches Some(seed) && seed.owner == refresh_owner_spec(owner)),
        ensures
            final(self).wf(),
            old(self).insert_check(refresh_owner_spec(owner)) matches Err(error) ==> {
                &&& inserted == Err::<DirectRefreshOwner, ClusterError>(error)
                &&& *final(self) == *old(self)
            },
            old(self).insert_check(refresh_owner_spec(owner)) is Ok ==> {
                &&& inserted == Ok::<DirectRefreshOwner, ClusterError>(refresh_owner_spec(owner))
                &&& final(self).lanes() == old(self).lanes().push(
                    LaneRecord { owner: refresh_owner_spec(owner), facts: started_facts(facts, old(self).scram_sender()) })
                &&& final(self).slots() == old(self).slots().insert(refresh_owner_spec(owner).key(), old(self).lanes().len() as usize)
                &&& final(self).families() == old(self).families()
                &&& final(self).seed() == old(self).seed()
                &&& final(self).next_lane() == old(self).next_lane()
                &&& final(self).pending_seed() == old(self).pending_seed()
                &&& final(self).next_endpoint() == old(self).next_endpoint()
                &&& final(self).frame_unchanged(*old(self))
            },
    {
        let key = refresh_owner(owner);
        match self.preflight_insert(key) {
            Ok(()) => {},
            Err(error) => return Err(error),
        }
        let facts = with_sender(facts, self.scram_proof_sender);
        let index = self.lanes.len();
        self.lanes.push(LaneRecord { owner: key, facts });
        self.slots.insert(key.slot_key(), index);
        proof {
            assert forall|b: i32| #[trigger] self.families().contains_key(b) implies {
                let family = self.families()[b];
                forall|t: int| 0 <= t < TRAFFIC_COUNT ==>
                    (#[trigger] family.active()[t] <==> self.slots().contains_key(family.owners()[t].key()))
            } by {
                let family = self.families()[b];
                assert forall|t: int| 0 <= t < TRAFFIC_COUNT implies
                    (#[trigger] family.active()[t] <==> self.slots().contains_key(family.owners()[t].key())) by {
                    if family.owners()[t] == key {
                        assert(family.holds(key));
                    }
                }
            }
        }
        Ok(key)
    }

    /// The owner a broker's family reserved for `traffic`.
    pub fn family_owner(&self, broker: i32, traffic: TrafficClass) -> (owner: Option<DirectRefreshOwner>)
        requires
            self.wf(),
        ensures
            self.families().contains_key(broker) ==> owner == Some(self.families()[broker].owners()[traffic.order()]),
            !self.families().contains_key(broker) ==> owner is None,
    {
        match self.families.get(&broker) {
            Some(family) => Some(family.owner(traffic)),
            None => None,
        }
    }

    /// Checks, without changing anything, that a family could be installed
    /// for `broker`.
    pub fn preflight_family(&self, broker: i32) -> (checked: Result<(), ClusterError>)
        requires
            self.wf(),
        ensures
            checked == self.family_check(broker),
    {
        if self.families.contains_key(&broker) {
            return Err(ClusterError::FamilyAlreadyInstalled);
        }
        if self.families.len() >= self.max_brokers {
            return Err(ClusterError::FamilyCapacityReached);
        }
        let next_len = match self.lanes.len().checked_add(TRAFFIC_COUNT) {
            Some(next_len) => next_len,
            None => return Err(ClusterError::LaneCountOverflowed),
        };
        if next_len > self.bounds.max_connections {
            return Err(ClusterError::LaneCapacityReached);
        }
        Ok(())
    }
}

impl ClusterRuntime {
    /// Publishes a family whose four lanes all started: files each lane under
    /// its reserved owner in stable traffic order and records the family as
    /// fully active.
    #[verifier::spinoff_prover]
    fn publish_family(
        &mut self,
        broker: i32,
        owners: Vec<BorneraLaneOwner>,
        endpoint: BrokerEndpoint,
        staged: Vec<LaneFacts>,
    ) -> (keys: Vec<DirectRefreshOwner>)
        requires
            old(self).wf(),
            old(self).family_check(broker) is Ok,
            owners.len() == TRAFFIC_COUNT,
            staged.len() == TRAFFIC_COUNT,
            forall|i: int| 0 <= i < TRAFFIC_COUNT ==> old(self).is_fresh(#[trigger] refresh_owner_spec(owners@[i])),
            forall|i: int, j: int| 0 <= i < j < TRAFFIC_COUNT ==> #[trigger] owners@[i] != #[trigger] owners@[j],
        ensures
            final(self).wf(),
            keys@ == owners@.map_values(|owner: BorneraLaneOwner| refresh_owner_spec(owner)),
            final(self).lanes() == old(self).lanes() + published_lanes(keys@, staged@, old(self).scram_sender()),
            final(self).slots().dom() == old(self).slots().dom().union(keys_of(keys@)),
            forall|i: int| 0 <= i < TRAFFIC_COUNT ==> final(self).slots()[(#[trigger] keys@[i]).key()] == old(self).lanes().len() + i,
            forall|key: (u64, u32)| #[trigger] old(self).slots().contains_key(key) ==> final(self).slots()[key] == old(self).slots()[key],
            final(self).families().dom() == old(self).families().dom().insert(broker),
            forall|b: i32| b != broker && #[trigger] old(self).families().contains_key(b) ==> final(self).families()[b] == old(self).families()[b],
            final(self).families()[broker].owners() == keys@,
            final(self).families()[broker].active() == seq![true, true, true, true],
            final(self).families()[broker].endpoint_value() == endpoint.value(),
            !final(self).families()[broker].retiring(),
            final(self).seed() == old(self).seed(),
            final(self).next_lane() == old(self).next_lane(),
            final(self).next_endpoint() == old(self).next_endpoint(),
            final(self).pending_seed() == old(self).pending_seed(),
            final(self).frame_unchanged(*old(self)),
    {
        let ghost old_self = *self;
        let ghost staged_view = staged@;
        let mut staged = staged;
        let mut keys: Vec<DirectRefreshOwner> = Vec::new();
        let mut active: Vec<bool> = Vec::new();
        let mut index: usize = 0;
        while index < TRAFFIC_COUNT
            invariant
                index <= TRAFFIC_COUNT,
                owners.len() == TRAFFIC_COUNT,
                old_self.wf(),
                old_self.family_check(broker) is Ok,
                forall|i: int| 0 <= i < TRAFFIC_COUNT ==> old_self.is_fresh(#[trigger] refresh_owner_spec(owners@[i])),
                forall|i: int, j: int| 0 <= i < j < TRAFFIC_COUNT ==> #[trigger] owners@[i] != #[trigger] owners@[j],
                staged@ == staged_view.subrange(index as int, TRAFFIC_COUNT as int),
                staged_view.len() == TRAFFIC_COUNT,
                keys@ == owners@.take(index as int).map_values(|owner: BorneraLaneOwner| refresh_owner_spec(owner)),
                active@ == Seq::new(index as nat, |i: int| true),
                self.lanes() == old_self.lanes() + published_lanes(keys@, staged_view.take(index as int), old_self.scram_sender()),
                self.slots().dom() == old_self.slots().dom().union(keys_of(keys@)),
                forall|i: int| 0 <= i < index ==> self.slots()[(#[trigger] keys@[i]).key()] == old_self.lanes().len() + i,
                forall|key: (u64, u32)| #[trigger] old_self.slots().contains_key(key) ==> self.slots()[key] == old_self.slots()[key],
                self.slots_consistent(),
                self.slots().dom().len() == self.lanes().len(),
                self.families() == old_self.families(),
                self.seed() == old_self.seed(),
                self.next_lane() == old_self.next_lane(),
                self.bounds() == old_self.bounds(),
                self.max_brokers() == old_self.max_brokers(),
                self.refresh_turn() == old_self.refresh_turn(),
                self.scram_sender() == old_self.scram_sender(),
                self.pending_seed() == old_self.pending_seed(),
                self.next_endpoint() == old_self.next_endpoint(),
                self.frame_unchanged(old_self),
            decreases TRAFFIC_COUNT - index,
        {
            let key = refresh_owner(owners[index]);
            let staged_facts = staged.remove(0);
            let facts = with_sender(staged_facts, self.scram_proof_sender);
            let position = self.lanes.len();
            let ghost before_lanes = self.lanes@;
            let ghost before_slots = self.slots@;
            let ghost before_keys = keys@;
            proof {
                assert(old_self.is_fresh(refresh_owner_spec(owners@[index as int])));
                assert forall|i: int| 0 <= i < index implies keys@[i] != key by {
                    assert(owners@[i] != owners@[index as int]);
                }
                if before_slots.contains_key(key.key()) {
                    if !old_self.slots().contains_key(key.key()) {
                        let k2 = key.key();
                        assert(keys_of(keys@).contains(k2));
                        let j = choose|j: int| 0 <= j < keys@.len() && (#[trigger] keys@[j]).key() == k2;
                        assert(keys@[j] == key);
                    }
                }
                assert(!before_slots.contains_key(key.key()));
            }
            self.lanes.push(LaneRecord { owner: key, facts });
            self.slots.insert(key.slot_key(), position);
            keys.push(key);
            active.push(true);
            index = index + 1;
            proof {
                assert(staged_view.take(index as int) =~= staged_view.take(index - 1).push(staged_facts));
                assert(published_lanes(keys@, staged_view.take(index as int), old_self.scram_sender()) =~=
                    published_lanes(keys@.drop_last(), staged_view.take(index - 1), old_self.scram_sender()).push(LaneRecord { owner: key, facts }));
                assert(owners@.take(index as int) =~= owners@.take(index - 1).push(owners@[index - 1]));
                assert(keys@.drop_last() =~= before_keys);
                assert(self.slots().dom() =~= before_slots.dom().insert(key.key()));
                assert(self.slots().dom() =~= old_self.slots().dom().union(keys_of(keys@))) by {
                    assert forall|k: (u64, u32)| keys_of(keys@).contains(k) <==> (keys_of(keys@.drop_last()).contains(k) || k == key.key()) by {
                        if keys_of(keys@).contains(k) {
                            let j = choose|j: int| 0 <= j < keys@.len() && (#[trigger] keys@[j]).key() == k;
                            if j < keys@.len() - 1 {
                                assert(keys@.drop_last()[j] == keys@[j]);
                            }
                        }
                        if keys_of(keys@.drop_last()).contains(k) {
                            let j = choose|j: int| 0 <= j < keys@.drop_last().len() && (#[trigger] keys@.drop_last()[j]).key() == k;
                            assert(keys@[j] == keys@.drop_last()[j]);
                        }
                        if k == key.key() {
                            assert(keys@[keys@.len() - 1] == key);
                        }
                    }
                }
                assert(self.lanes() =~= old_self.lanes() + published_lanes(keys@, staged_view.take(index as int), old_self.scram_sender()));
                assert(active@ =~= Seq::new(index as nat, |i: int| true));
                assert forall|i: int| 0 <= i < self.lanes@.len() implies {
                    &&& #[trigger] self.slots@.contains_key(self.lanes@[i].owner.key())
                    &&& self.slots@[self.lanes@[i].owner.key()] == i
                } by {
                    if i < before_lanes.len() {
                        assert(before_slots.contains_key(before_lanes[i].owner.key()));
                    }
                }
            }
        }
        proof {
            assert(staged_view.take(TRAFFIC_COUNT as int) =~= staged_view);
            assert(owners@.take(TRAFFIC_COUNT as int) =~= owners@);
            assert(active@ =~= seq![true, true, true, true]);
        }
        let family = BrokerFamily::new(keys.clone(), active, endpoint);
        self.families.insert(broker, family);
        proof {
            assert(keys@ == owners@.map_values(|owner: BorneraLaneOwner| refresh_owner_spec(owner)));
            let key_set = keys_of(keys@);
            assert forall|i: int| 0 <= i < TRAFFIC_COUNT implies self.slots().contains_key((#[trigger] keys@[i]).key()) by {
                assert(key_set.contains(keys@[i].key()));
            }
            // existing families keep exactly their filed owners
            assert forall|b: i32| #[trigger] self.families().contains_key(b) implies {
                let family = self.families()[b];
                &&& family.wf()
                &&& forall|t: int| 0 <= t < TRAFFIC_COUNT ==>
                    (#[trigger] family.active()[t] <==> self.slots().contains_key(family.owners()[t].key()))
                &&& forall|t: int| 0 <= t < TRAFFIC_COUNT ==> (#[trigger] family.owners()[t]).lane < self.next_lane()
                &&& forall|t: int, u: int| 0 <= t < u < TRAFFIC_COUNT ==> #[trigger] family.owners()[t] != #[trigger] family.owners()[u]
            } by {
                if b == broker {
                    assert forall|t: int| 0 <= t < TRAFFIC_COUNT implies (#[trigger] self.families()[b].owners()[t]).lane < self.next_lane() by {
                        assert(old_self.is_fresh(refresh_owner_spec(owners@[t])));
                    }
                    assert forall|t: int, u: int| 0 <= t < u < TRAFFIC_COUNT implies
                        #[trigger] self.families()[b].owners()[t] != #[trigger] self.families()[b].owners()[u] by {
                        assert(owners@[t] != owners@[u]);
                    }
                } else {
                    let family = self.families()[b];
                    assert(old_self.families().contains_key(b));
                    assert forall|t: int| 0 <= t < TRAFFIC_COUNT implies
                        (#[trigger] family.active()[t] <==> self.slots().contains_key(family.owners()[t].key())) by {
                        let o = family.owners()[t];
                        if self.slots().contains_key(o.key()) && !old_self.slots().contains_key(o.key()) {
                            assert(key_set.contains(o.key()));
                            let j = choose|j: int| 0 <= j < keys@.len() && (#[trigger] keys@[j]).key() == o.key();
                            assert(keys@[j] == o);
                            assert(old_self.is_fresh(refresh_owner_spec(owners@[j])));
                            assert(old_self.families()[b].holds(o));
                        }
                    }
                }
            }
            assert forall|b1: i32, b2: i32, t1: int, t2: int|
                #![trigger self.families()[b1].owners()[t1], self.families()[b2].owners()[t2]]
                self.families().contains_key(b1) && self.families().contains_key(b2) && b1 != b2
                    && 0 <= t1 < TRAFFIC_COUNT && 0 <= t2 < TRAFFIC_COUNT
                    implies self.families()[b1].owners()[t1] != self.families()[b2].owners()[t2] by {
                if b1 == broker {
                    assert(old_self.is_fresh(refresh_owner_spec(owners@[t1])));
                    assert(old_self.families().contains_key(b2));
                    if self.families()[b1].owners()[t1] == self.families()[b2].owners()[t2] {
                        assert(old_self.families()[b2].holds(self.families()[b1].owners()[t1]));
                    }
                } else if b2 == broker {
                    assert(old_self.is_fresh(refresh_owner_spec(owners@[t2])));
                    assert(old_self.families().contains_key(b1));
                    if self.families()[b1].owners()[t1] == self.families()[b2].owners()[t2] {
                        assert(old_self.families()[b1].holds(self.families()[b2].owners()[t2]));
                    }
                }
            }
            if let Some(seed) = self.seed() {
                assert(old_self.slots().contains_key(seed.owner.key()));
                if self.family_holds(seed.owner) {
                    let b = choose|b: i32| #[trigger] self.families().contains_key(b) && self.families()[b].holds(seed.owner);
                    if b == broker {
                        let t = choose|t: int| 0 <= t < TRAFFIC_COUNT && #[trigger] self.families()[b].owners()[t] == seed.owner;
                        assert(old_self.is_fresh(refresh_owner_spec(owners@[t])));
                    } else {
                        assert(old_self.families().contains_key(b));
                    }
                }
            }
            assert forall|key: (u64, u32)| #[trigger] self.slots().contains_key(key) implies key.1 < self.next_lane() by {
                if !old_self.slots().contains_key(key) {
                    assert(key_set.contains(key));
                    let j = choose|j: int| 0 <= j < keys@.len() && (#[trigger] keys@[j]).key() == key;
                    assert(old_self.is_fresh(refresh_owner_spec(owners@[j])));
                }
            }
            assert(self.families().dom() =~= old_self.families().dom().insert(broker));
        }
        keys
    }
}

/// What activating one family lane takes.
#[derive(Clone, Copy, Debug, PartialEq, Eq, Structural)]
pub enum ActivationPlan {
    /// The lane is already active under this owner.
    Active(DirectRefreshOwner),
    /// The broker has no family yet: reserve one (four owners), start the
    /// lane under the owner reserved for its traffic class, then publish.
    NewFamily,
    /// The family's lane is dormant: start it under this reserved owner,
    /// then publish it.
    Dormant(DirectRefreshOwner),
}

impl ClusterRuntime {
    /// The checks that precede activating `broker`'s lane for `traffic`, and
    /// what the activation takes.
    pub open spec fn activation_check(&self, broker: i32, traffic: TrafficClass) -> Result<ActivationPlan, ClusterError> {
        if self.families().contains_key(broker) {
            let family = self.families()[broker];
            let owner = family.owners()[traffic.order()];
            if family.active()[traffic.order()] {
                Ok(ActivationPlan::Active(owner))
            } else if self.lanes().len() + 1 > self.bounds().max_connections {
                Err(ClusterError::LaneCapacityReached)
            } else {
                Ok(ActivationPlan::Dormant(owner))
            }
        } else if self.families().dom().len() >= self.max_brokers() {
            Err(ClusterError::FamilyCapacityReached)
        } else if self.lanes().len() + 1 > self.bounds().max_connections {
            Err(ClusterError::LaneCapacityReached)
        } else {
            Ok(ActivationPlan::NewFamily)
        }
    }

    /// Checks, without changing anything, whether `broker`'s lane for
    /// `traffic` can be activated, and how: family and physical capacity are
    /// checked before any lane plan is built or identity reserved.
    pub fn preflight_activation(&self, broker: i32, traffic: TrafficClass) -> (plan: Result<ActivationPlan, ClusterError>)
        requires
            self.wf(),
        ensures
            plan == self.activation_check(broker, traffic),
    {
        match self.families.get(&broker) {
            Some(family) => {
                proof {
                    assert(self.families().contains_key(broker));
                }
                let owner = family.owner(traffic);
                if family.is_active(traffic) {
                    return Ok(ActivationPlan::Active(owner));
                }
                if self.lanes.len() >= self.bounds.max_connections {
                    return Err(ClusterError::LaneCapacityReached);
                }
                Ok(ActivationPlan::Dormant(owner))
            },
            None => {
                if self.families.len() >= self.max_brokers {
                    return Err(ClusterError::FamilyCapacityReached);
                }
                if self.lanes.len() >= self.bounds.max_connections {
                    return Err(ClusterError::LaneCapacityReached);
                }
                Ok(ActivationPlan::NewFamily)
            },
        }
    }

    /// Whether `owner` is fresh.
    pub fn owner_is_fresh(&self, owner: DirectRefreshOwner) -> (fresh: bool)
        requires
            self.wf(),
        ensures
            fresh == self.is_fresh(owner),
    {
        if owner.lane >= self.identities.lane_mark() {
            return false;
        }
        if self.slots.contains_key(&owner.slot_key()) {
            return false;
        }
        if self.family_of(owner).is_some() {
            return false;
        }
        match self.seed {
            Some(seed) => seed.owner != owner,
            None => true,
        }
    }

    /// Whether the four reserved owners are fresh and distinct.
    pub open spec fn fresh_distinct(&self, owners: Seq<BorneraLaneOwner>) -> bool {
        &&& owners.len() == TRAFFIC_COUNT
        &&& forall|i: int| 0 <= i < TRAFFIC_COUNT ==> self.is_fresh(#[trigger] refresh_owner_spec(owners[i]))
        &&& forall|i: int, j: int| 0 <= i < j < TRAFFIC_COUNT ==> #[trigger] owners[i] != #[trigger] owners[j]
    }

    /// Checks that the four reserved owners are fresh and distinct.
    fn check_fresh_distinct(&self, owners: &Vec<BorneraLaneOwner>) -> (ok: bool)
        requires
            self.wf(),
            owners.len() == TRAFFIC_COUNT,
        ensures
            ok == self.fresh_distinct(owners@),
    {
        let mut index: usize = 0;
        while index < TRAFFIC_COUNT
            invariant
                self.wf(),
                owners.len() == TRAFFIC_COUNT,
                index <= TRAFFIC_COUNT,
                forall|i: int| 0 <= i < index ==> self.is_fresh(#[trigger] refresh_owner_spec(owners@[i])),
                forall|i: int, j: int| 0 <= i < j < index ==> #[trigger] owners@[i] != #[trigger] owners@[j],
            decreases TRAFFIC_COUNT - index,
        {
            if !self.owner_is_fresh(refresh_owner(owners[index])) {
                return false;
            }
            let mut earlier: usize = 0;
            while earlier < index
                invariant
                    owners.len() == TRAFFIC_COUNT,
                    earlier <= index < TRAFFIC_COUNT,
                    forall|i: int| 0 <= i < earlier ==> owners@[i] != owners@[index as int],
                decreases index - earlier,
            {
                if owners[earlier] == owners[index] {
                    return false;
                }
                earlier = earlier + 1;
            }
            index = index + 1;
        }
        true
    }

    /// Records a family for `broker` whose four reserved owners all stay
    /// dormant.
    fn install_dormant_family(&mut self, broker: i32, keys: Vec<DirectRefreshOwner>, endpoint: BrokerEndpoint)
        requires
            old(self).wf(),
            !old(self).families().contains_key(broker),
            old(self).families().dom().len() < old(self).max_brokers(),
            keys.len() == TRAFFIC_COUNT,
            forall|i: int| 0 <= i < TRAFFIC_COUNT ==> old(self).is_fresh(#[trigger] keys@[i]),
            forall|i: int, j: int| 0 <= i < j < TRAFFIC_COUNT ==> #[trigger] keys@[i] != #[trigger] keys@[j],
        ensures
            final(self).wf(),
            final(self).families().dom() == old(self).families().dom().insert(broker),
            forall|b: i32| b != broker && #[trigger] old(self).families().contains_key(b) ==> final(self).families()[b] == old(self).families()[b],
            final(self).families()[broker].owners() == keys@,
            final(self).families()[broker].active() == seq![false, false, false, false],
            final(self).families()[broker].endpoint_value() == endpoint.value(),
            !final(self).families()[broker].retiring(),
            final(self).lanes() == old(self).lanes(),
            final(self).slots() == old(self).slots(),
            final(self).seed() == old(self).seed(),
            final(self).next_lane() == old(self).next_lane(),
            final(self).next_endpoint() == old(self).next_endpoint(),
            final(self).bounds() == old(self).bounds(),
            final(self).max_brokers() == old(self).max_brokers(),
            final(self).directory() == old(self).directory(),
            final(self).directory_generation() == old(self).directory_generation(),
            final(self).refresh_turn() == old(self).refresh_turn(),
            final(self).refresh_cursor() == old(self).refresh_cursor(),
            final(self).draining() == old(self).draining(),
            final(self).scram_sender() == old(self).scram_sender(),
            final(self).frame_unchanged(*old(self)),
            final(self).pending_seed() == old(self).pending_seed(),
    {
        let ghost old_self = *self;
        let active: Vec<bool> = vec![false, false, false, false];
        let family = BrokerFamily::new(keys, active, endpoint);
        self.families.insert(broker, family);
        proof {
            assert(self.families().dom() =~= old_self.families().dom().insert(broker));
            assert(old_self.families().dom().finite());
            assert forall|b: i32| #[trigger] self.families().contains_key(b) implies {
                let family = self.families()[b];
                &&& family.wf()
                &&& forall|t: int| 0 <= t < TRAFFIC_COUNT ==>
                    (#[trigger] family.active()[t] <==> self.slots().contains_key(family.owners()[t].key()))
                &&& forall|t: int| 0 <= t < TRAFFIC_COUNT ==> (#[trigger] family.owners()[t]).lane < self.next_lane()
                &&& forall|t: int, u: int| 0 <= t < u < TRAFFIC_COUNT ==> #[trigger] family.owners()[t] != #[trigger] family.owners()[u]
            } by {
                if b == broker {
                    assert forall|t: int| 0 <= t < TRAFFIC_COUNT implies
                        (#[trigger] self.families()[b].active()[t] <==> self.slots().contains_key(self.families()[b].owners()[t].key())) by {
                        assert(old_self.is_fresh(keys@[t]));
                    }
                    assert forall|t: int| 0 <= t < TRAFFIC_COUNT implies (#[trigger] self.families()[b].owners()[t]).lane < self.next_lane() by {
                        assert(old_self.is_fresh(keys@[t]));
                    }
                } else {
                    assert(old_self.families().contains_key(b));
                }
            }
            assert forall|b1: i32, b2: i32, t1: int, t2: int|
                #![trigger self.families()[b1].owners()[t1], self.families()[b2].owners()[t2]]
                self.families().contains_key(b1) && self.families().contains_key(b2) && b1 != b2
                    && 0 <= t1 < TRAFFIC_COUNT && 0 <= t2 < TRAFFIC_COUNT
                    implies self.families()[b1].owners()[t1] != self.families()[b2].owners()[t2] by {
                if b1 == broker {
                    assert(old_self.is_fresh(keys@[t1]));
                    assert(old_self.families().contains_key(b2));
                    if self.families()[b1].owners()[t1] == self.families()[b2].owners()[t2] {
                        assert(old_self.families()[b2].holds(self.families()[b1].owners()[t1]));
                    }
                } else if b2 == broker {
                    assert(old_self.is_fresh(keys@[t2]));
                    assert(old_self.families().contains_key(b1));
                    if self.families()[b1].owners()[t1] == self.families()[b2].owners()[t2] {
                        assert(old_self.families()[b1].holds(self.families()[b2].owners()[t2]));
                    }
                }
            }
            if let Some(seed) = self.seed() {
                if self.family_holds(seed.owner) {
                    let b = choose|b: i32| #[trigger] self.families().contains_key(b) && self.families()[b].holds(seed.owner);
                    if b == broker {
                        let t = choose|t: int| 0 <= t < TRAFFIC_COUNT && #[trigger] self.families()[b].owners()[t] == seed.owner;
                        assert(old_self.is_fresh(keys@[t]));
                    } else {
                        assert(old_self.families().contains_key(b));
                    }
                }
            }
        }
    }
}

impl ClusterRuntime {
    /// Files a newly started lane under the dormant owner `broker`'s family
    /// reserved for `traffic`, and marks that traffic class active.
    fn file_dormant_lane(&mut self, broker: i32, traffic: TrafficClass, facts: LaneFacts) -> (key: DirectRefreshOwner)
        requires
            old(self).wf(),
            old(self).families().contains_key(broker),
            !old(self).families()[broker].active()[traffic.order()],
            old(self).lanes().len() < old(self).bounds().max_connections,
        ensures
            final(self).wf(),
            key == old(self).families()[broker].owners()[traffic.order()],
            final(self).lanes() == old(self).lanes().push(LaneRecord { owner: key, facts: started_facts(facts, old(self).scram_sender()) }),
            final(self).slots() == old(self).slots().insert(key.key(), old(self).lanes().len() as usize),
            final(self).families().dom() == old(self).families().dom(),
            forall|b: i32| b != broker && #[trigger] old(self).families().contains_key(b) ==> final(self).families()[b] == old(self).families()[b],
            final(self).families()[broker].owners() == old(self).families()[broker].owners(),
            final(self).families()[broker].active() == old(self).families()[broker].active().update(traffic.order(), true),
            final(self).families()[broker].endpoint_value() == old(self).families()[broker].endpoint_value(),
            final(self).families()[broker].retiring() == old(self).families()[broker].retiring(),
            final(self).seed() == old(self).seed(),
            final(self).next_lane() == old(self).next_lane(),
            final(self).next_endpoint() == old(self).next_endpoint(),
            final(self).bounds() == old(self).bounds(),
            final(self).max_brokers() == old(self).max_brokers(),
            final(self).directory() == old(self).directory(),
            final(self).directory_generation() == old(self).directory_generation(),
            final(self).refresh_turn() == old(self).refresh_turn(),
            final(self).refresh_cursor() == old(self).refresh_cursor(),
            final(self).draining() == old(self).draining(),
            final(self).scram_sender() == old(self).scram_sender(),
            final(self).frame_unchanged(*old(self)),
            final(self).pending_seed() == old(self).pending_seed(),
    {
        let ghost old_self = *self;
        proof {
            crate::traffic::lemma_traffic_order_bijective();
        }
        let mut family = self.families.remove(&broker).unwrap();
        let key = family.owner(traffic);
        family.activate(traffic);
        self.families.insert(broker, family);
        let facts = with_sender(facts, self.scram_proof_sender);
        let position = self.lanes.len();
        self.lanes.push(LaneRecord { owner: key, facts });
        self.slots.insert(key.slot_key(), position);
        proof {
            let t = traffic.order();
            let fam = old_self.families()[broker];
            assert(0 <= t < TRAFFIC_COUNT);
            assert(!old_self.slots().contains_key(key.key()));
            assert(self.families().dom() =~= old_self.families().dom());
            assert(self.slots().dom() =~= old_self.slots().dom().insert(key.key()));
            assert forall|i: int| 0 <= i < self.lanes().len() implies {
                &&& #[trigger] self.slots().contains_key(self.lanes()[i].owner.key())
                &&& self.slots()[self.lanes()[i].owner.key()] == i
            } by {
                if i < old_self.lanes().len() {
                    assert(old_self.slots().contains_key(old_self.lanes()[i].owner.key()));
                }
            }
            assert forall|b: i32| #[trigger] self.families().contains_key(b) implies {
                let family = self.families()[b];
                &&& family.wf()
                &&& forall|u: int| 0 <= u < TRAFFIC_COUNT ==>
                    (#[trigger] family.active()[u] <==> self.slots().contains_key(family.owners()[u].key()))
                &&& forall|u: int| 0 <= u < TRAFFIC_COUNT ==> (#[trigger] family.owners()[u]).lane < self.next_lane()
                &&& forall|u: int, v: int| 0 <= u < v < TRAFFIC_COUNT ==> #[trigger] family.owners()[u] != #[trigger] family.owners()[v]
            } by {
                assert(old_self.families().contains_key(b));
                let family = self.families()[b];
                assert forall|u: int| 0 <= u < TRAFFIC_COUNT implies
                    (#[trigger] family.active()[u] <==> self.slots().contains_key(family.owners()[u].key())) by {
                    if b == broker {
                        if u != t {
                            assert(fam.owners()[u] != fam.owners()[t] || u == t);
                            if u < t {
                                assert(fam.owners()[u] != fam.owners()[t]);
                            } else {
                                assert(fam.owners()[t] != fam.owners()[u]);
                            }
                        }
                    } else {
                        assert(old_self.families()[b].owners()[u] != fam.owners()[t]);
                    }
                }
            }
            assert forall|b1: i32, b2: i32, t1: int, t2: int|
                #![trigger self.families()[b1].owners()[t1], self.families()[b2].owners()[t2]]
                self.families().contains_key(b1) && self.families().contains_key(b2) && b1 != b2
                    && 0 <= t1 < TRAFFIC_COUNT && 0 <= t2 < TRAFFIC_COUNT
                    implies self.families()[b1].owners()[t1] != self.families()[b2].owners()[t2] by {
                assert(old_self.families()[b1].owners()[t1] != old_self.families()[b2].owners()[t2]);
            }
            if let Some(seed) = self.seed() {
                assert(old_self.slots().contains_key(seed.owner.key()));
                if self.family_holds(seed.owner) {
                    let b = choose|b: i32| #[trigger] self.families().contains_key(b) && self.families()[b].holds(seed.owner);
                    let u = choose|u: int| 0 <= u < TRAFFIC_COUNT && #[trigger] self.families()[b].owners()[u] == seed.owner;
                    assert(old_self.families()[b].owners()[u] == seed.owner);
                    assert(old_self.families()[b].holds(seed.owner));
                }
            }
            assert forall|k: (u64, u32)| #[trigger] self.slots().contains_key(k) implies k.1 < self.next_lane() by {
                if k != key.key() {
                    assert(old_self.slots().contains_key(k));
                }
            }
        }
        key
    }
}

impl ClusterRuntime {
    /// The owners' keys, in order.
    fn owner_keys(owners: &Vec<BorneraLaneOwner>) -> (keys: Vec<DirectRefreshOwner>)
        ensures
            keys@ == owners@.map_values(|owner: BorneraLaneOwner| refresh_owner_spec(owner)),
    {
        let mut keys: Vec<DirectRefreshOwner> = Vec::new();
        let mut index: usize = 0;
        while index < owners.len()
            invariant
                index <= owners.len(),
                keys@ == owners@.take(index as int).map_values(|owner: BorneraLaneOwner| refresh_owner_spec(owner)),
            decreases owners.len() - index,
        {
            keys.push(refresh_owner(owners[index]));
            index = index + 1;
            proof {
                assert(owners@.take(index as int) =~= owners@.take(index - 1).push(owners@[index - 1]));
                assert(keys@ =~= owners@.take(index as int).map_values(|owner: BorneraLaneOwner| refresh_owner_spec(owner)));
            }
        }
        proof {
            assert(owners@.take(owners@.len() as int) =~= owners@);
        }
        keys
    }

    /// Publishes a lane started under its family's dormant owner. The
    /// activation checks are made again: unless they find that dormant owner,
    /// nothing changes and the lane is refused.
    pub fn publish_dormant_lane(&mut self, broker: i32, traffic: TrafficClass, facts: LaneFacts)
        -> (published: Result<DirectRefreshOwner, ClusterError>)
        requires
            old(self).wf(),
        ensures
            final(self).wf(),
            old(self).activation_check(broker, traffic) matches Ok(ActivationPlan::Dormant(owner)) ==> {
                &&& published == Ok::<DirectRefreshOwner, ClusterError>(owner)
                &&& final(self).lanes() == old(self).lanes().push(LaneRecord { owner, facts: started_facts(facts, old(self).scram_sender()) })
                &&& final(self).slots() == old(self).slots().insert(owner.key(), old(self).lanes().len() as usize)
                &&& final(self).families().dom() == old(self).families().dom()
                &&& forall|b: i32| b != broker && #[trigger] old(self).families().contains_key(b) ==> final(self).families()[b] == old(self).families()[b]
                &&& final(self).families()[broker].owners() == old(self).families()[broker].owners()
                &&& final(self).families()[broker].active() == old(self).families()[broker].active().update(traffic.order(), true)
                &&& final(self).families()[broker].endpoint_value() == old(self).families()[broker].endpoint_value()
                &&& final(self).families()[broker].retiring() == old(self).families()[broker].retiring()
                &&& final(self).seed() == old(self).seed()
                &&& final(self).next_lane() == old(self).next_lane()
                &&& final(self).next_endpoint() == old(self).next_endpoint()
                &&& final(self).pending_seed() == old(self).pending_seed()
                &&& final(self).frame_unchanged(*old(self))
            },
            old(self).activation_check(broker, traffic) matches Err(error)
                ==> published == Err::<DirectRefreshOwner, ClusterError>(error) && final(self).same_view(*old(self)),
            old(self).activation_check(broker, traffic) matches Ok(ActivationPlan::Active(_))
                ==> published == Err::<DirectRefreshOwner, ClusterError>(ClusterError::FamilyLaneStateDiverged) && final(self).same_view(*old(self)),
            old(self).activation_check(broker, traffic) == Ok::<ActivationPlan, ClusterError>(ActivationPlan::NewFamily)
                ==> published == Err::<DirectRefreshOwner, ClusterError>(ClusterError::FamilyStale) && final(self).same_view(*old(self)),
    {
        match self.preflight_activation(broker, traffic) {
            Ok(ActivationPlan::Dormant(_)) => Ok(self.file_dormant_lane(broker, traffic, facts)),
            Ok(ActivationPlan::Active(_)) => Err(ClusterError::FamilyLaneStateDiverged),
            Ok(ActivationPlan::NewFamily) => Err(ClusterError::FamilyStale),
            Err(error) => Err(error),
        }
    }

    /// Publishes the family of a broker that had none, with only its lane for
    /// `traffic` active: that lane, started under the owner reserved for its
    /// traffic class, is filed, and the other three owners stay reserved and
    /// dormant. The activation checks are made again, and the owners must be
    /// fresh and distinct; otherwise nothing changes.
    pub fn publish_sparse_family(
        &mut self,
        broker: i32,
        owners: Vec<BorneraLaneOwner>,
        endpoint: BrokerEndpoint,
        traffic: TrafficClass,
        facts: LaneFacts,
    ) -> (published: Result<DirectRefreshOwner, ClusterError>)
        requires
            old(self).wf(),
            owners.len() == TRAFFIC_COUNT,
        ensures
            final(self).wf(),
            old(self).activation_check(broker, traffic) matches Err(error)
                ==> published == Err::<DirectRefreshOwner, ClusterError>(error) && final(self).same_view(*old(self)),
            old(self).activation_check(broker, traffic) is Ok
                && old(self).activation_check(broker, traffic) != Ok::<ActivationPlan, ClusterError>(ActivationPlan::NewFamily)
                ==> published == Err::<DirectRefreshOwner, ClusterError>(ClusterError::FamilyAlreadyInstalled) && final(self).same_view(*old(self)),
            old(self).activation_check(broker, traffic) == Ok::<ActivationPlan, ClusterError>(ActivationPlan::NewFamily)
                && !old(self).fresh_distinct(owners@)
                ==> published == Err::<DirectRefreshOwner, ClusterError>(ClusterError::OwnerReused) && final(self).same_view(*old(self)),
            old(self).activation_check(broker, traffic) == Ok::<ActivationPlan, ClusterError>(ActivationPlan::NewFamily)
                && old(self).fresh_distinct(owners@) ==> {
                let keys = owners@.map_values(|owner: BorneraLaneOwner| refresh_owner_spec(owner));
                let key = keys[traffic.order()];
                &&& published == Ok::<DirectRefreshOwner, ClusterError>(key)
                &&& final(self).lanes() == old(self).lanes().push(LaneRecord { owner: key, facts: started_facts(facts, old(self).scram_sender()) })
                &&& final(self).slots() == old(self).slots().insert(key.key(), old(self).lanes().len() as usize)
                &&& final(self).families().dom() == old(self).families().dom().insert(broker)
                &&& forall|b: i32| b != broker && #[trigger] old(self).families().contains_key(b) ==> final(self).families()[b] == old(self).families()[b]
                &&& final(self).families()[broker].owners() == keys
                &&& final(self).families()[broker].active() == seq![false, false, false, false].update(traffic.order(), true)
                &&& final(self).families()[broker].endpoint_value() == endpoint.value()
                &&& !final(self).families()[broker].retiring()
                &&& final(self).seed() == old(self).seed()
                &&& final(self).next_lane() == old(self).next_lane()
                &&& final(self).next_endpoint() == old(self).next_endpoint()
                &&& final(self).pending_seed() == old(self).pending_seed()
                &&& final(self).frame_unchanged(*old(self))
            },
    {
        match self.preflight_activation(broker, traffic) {
            Ok(ActivationPlan::NewFamily) => {},
            Ok(_) => return Err(ClusterError::FamilyAlreadyInstalled),
            Err(error) => return Err(error),
        }
        if !self.check_fresh_distinct(&owners) {
            return Err(ClusterError::OwnerReused);
        }
        let keys = Self::owner_keys(&owners);
        proof {
            assert forall|i: int| 0 <= i < TRAFFIC_COUNT implies self.is_fresh(#[trigger] keys@[i]) by {
                assert(self.is_fresh(refresh_owner_spec(owners@[i])));
            }
            assert forall|i: int, j: int| 0 <= i < j < TRAFFIC_COUNT implies #[trigger] keys@[i] != #[trigger] keys@[j] by {
                assert(owners@[i] != owners@[j]);
            }
        }
        let ghost before = *self;
        let ghost key_view = keys@;
        self.install_dormant_family(broker, keys, endpoint);
        let ghost dormant = *self;
        proof {
            crate::traffic::lemma_traffic_order_bijective();
            assert(dormant.families()[broker].owners() == key_view);
        }
        let key = self.file_dormant_lane(broker, traffic, facts);
        proof {
            assert(key == key_view[traffic.order()]);
            assert(self.families().dom() =~= before.families().dom().insert(broker));
            assert forall|b: i32| b != broker && #[trigger] before.families().contains_key(b) implies self.families()[b] == before.families()[b] by {
                assert(dormant.families().contains_key(b));
            }
        }
        Ok(key)
    }

    /// Installs a family whose four lanes all started under the given
    /// owners: the family checks are made again, and the owners must be fresh
    /// and distinct; otherwise nothing changes.
    pub fn install_family(
        &mut self,
        broker: i32,
        owners: Vec<BorneraLaneOwner>,
        endpoint: BrokerEndpoint,
        staged: Vec<LaneFacts>,
    ) -> (installed: Result<Vec<DirectRefreshOwner>, ClusterError>)
        requires
            old(self).wf(),
            owners.len() == TRAFFIC_COUNT,
            staged.len() == TRAFFIC_COUNT,
        ensures
            final(self).wf(),
            old(self).family_check(broker) matches Err(error)
                ==> installed == Err::<Vec<DirectRefreshOwner>, ClusterError>(error) && final(self).same_view(*old(self)),
            old(self).family_check(broker) is Ok && !old(self).fresh_distinct(owners@)
                ==> installed == Err::<Vec<DirectRefreshOwner>, ClusterError>(ClusterError::OwnerReused) && final(self).same_view(*old(self)),
            old(self).family_check(broker) is Ok && old(self).fresh_distinct(owners@) ==> {
                &&& installed matches Ok(keys)
                &&& keys@ == owners@.map_values(|owner: BorneraLaneOwner| refresh_owner_spec(owner))
                &&& final(self).lanes() == old(self).lanes() + published_lanes(keys@, staged@, old(self).scram_sender())
                &&& final(self).slots().dom() == old(self).slots().dom().union(keys_of(keys@))
                &&& forall|i: int| 0 <= i < TRAFFIC_COUNT ==> final(self).slots()[(#[trigger] keys@[i]).key()] == old(self).lanes().len() + i
                &&& forall|key: (u64, u32)| #[trigger] old(self).slots().contains_key(key) ==> final(self).slots()[key] == old(self).slots()[key]
                &&& final(self).families().dom() == old(self).families().dom().insert(broker)
                &&& forall|b: i32| b != broker && #[trigger] old(self).families().contains_key(b) ==> final(self).families()[b] == old(self).families()[b]
                &&& final(self).families()[broker].owners() == keys@
                &&& final(self).families()[broker].active() == seq![true, true, true, true]
                &&& final(self).families()[broker].endpoint_value() == endpoint.value()
                &&& !final(self).families()[broker].retiring()
                &&& final(self).seed() == old(self).seed()
                &&& final(self).next_lane() == old(self).next_lane()
                &&& final(self).next_endpoint() == old(self).next_endpoint()
                &&& final(self).pending_seed() == old(self).pending_seed()
                &&& final(self).frame_unchanged(*old(self))
            },
    {
        match self.preflight_family(broker) {
            Ok(()) => {},
            Err(error) => return Err(error),
        }
        if !self.check_fresh_distinct(&owners) {
            return Err(ClusterError::OwnerReused);
        }
        Ok(self.publish_family(broker, owners, endpoint, staged))
    }
}

impl ClusterRuntime {
    /// First physical lane owned by `owner`, and whether no other lane is.
    fn physical_positions(&self, owner: DirectRefreshOwner) -> (found: (Option<usize>, bool))
        ensures
            found.0 matches Some(i) ==> i < self.lanes().len() && self.lanes()[i as int].owner == owner,
            found.0 matches Some(i) ==> forall|j: int| 0 <= j < i ==> self.lanes()[j].owner != owner,
            found.0 is None ==> forall|j: int| 0 <= j < self.lanes().len() ==> self.lanes()[j].owner != owner,
            found.1 == (forall|j: int, k: int| 0 <= j < k < self.lanes().len() && self.lanes()[j].owner == owner
                ==> self.lanes()[k].owner != owner),
    {
        let mut first: Option<usize> = None;
        let mut unique = true;
        let mut index: usize = 0;
        while index < self.lanes.len()
            invariant
                index <= self.lanes().len(),
                first matches Some(i) ==> i < index && self.lanes()[i as int].owner == owner,
                first matches Some(i) ==> forall|j: int| 0 <= j < i ==> self.lanes()[j].owner != owner,
                first is None ==> forall|j: int| 0 <= j < index ==> self.lanes()[j].owner != owner,
                unique == (forall|j: int, k: int| 0 <= j < k < index && self.lanes()[j].owner == owner
                    ==> self.lanes()[k].owner != owner),
            decreases self.lanes().len() - index,
        {
            if self.lanes[index].owner == owner {
                if first.is_none() {
                    first = Some(index);
                } else {
                    unique = false;
                }
            }
            index = index + 1;
        }
        (first, unique)
    }

    /// Where a family's lane for `traffic` lives: the active owner and its
    /// physical index, or dormant.
    pub fn family_lane_state(&self, broker: i32, traffic: TrafficClass) -> (state: Result<FamilyLaneState, ClusterError>)
        requires
            self.wf(),
        ensures
            !self.families().contains_key(broker) ==> state == Err::<FamilyLaneState, ClusterError>(ClusterError::FamilyStale),
            self.families().contains_key(broker) && self.families()[broker].active()[traffic.order()] ==> state == Ok::<FamilyLaneState, ClusterError>(
                FamilyLaneState::Active(
                    self.families()[broker].owners()[traffic.order()],
                    self.slots()[self.families()[broker].owners()[traffic.order()].key()],
                )),
            self.families().contains_key(broker) && !self.families()[broker].active()[traffic.order()]
                ==> state == Ok::<FamilyLaneState, ClusterError>(FamilyLaneState::Dormant),
    {
        let family = match self.families.get(&broker) {
            Some(family) => family,
            None => return Err(ClusterError::FamilyStale),
        };
        let owner = family.owner(traffic);
        let slot = match self.slots.get(&owner.slot_key()) {
            Some(index) => Some(*index),
            None => None,
        };
        let (first, unique) = self.physical_positions(owner);
        let active = family.is_active(traffic);
        proof {
            assert(self.families().contains_key(broker));
            let t = traffic.order();
            crate::traffic::lemma_traffic_order_bijective();
            assert(0 <= t < TRAFFIC_COUNT);
            assert(family.active()[t] <==> self.slots().contains_key(family.owners()[t].key()));
            if self.slots().contains_key(owner.key()) {
                let i = self.slots()[owner.key()] as int;
                assert(self.lanes()[i].owner.key() == owner.key());
                assert forall|j: int| 0 <= j < self.lanes().len() && self.lanes()[j].owner == owner implies j == i by {
                    assert(self.slots().contains_key(self.lanes()[j].owner.key()));
                }
            } else {
                assert forall|j: int| 0 <= j < self.lanes().len() implies self.lanes()[j].owner != owner by {
                    assert(self.slots().contains_key(self.lanes()[j].owner.key()));
                }
            }
        }
        match (active, slot, first, unique) {
            (true, Some(index), Some(actual), true) => {
                if index == actual {
                    Ok(FamilyLaneState::Active(owner, index))
                } else {
                    Err(ClusterError::FamilyLaneStateDiverged)
                }
            },
            (false, None, None, true) => Ok(FamilyLaneState::Dormant),
            _ => Err(ClusterError::FamilyLaneStateDiverged),
        }
    }

    /// The active lanes of a family, with their physical indexes, in stable
    /// traffic order.
    pub fn family_removals(&self, broker: i32) -> (removals: Result<Vec<(usize, DirectRefreshOwner)>, ClusterError>)
        requires
            self.wf(),
        ensures
            !self.families().contains_key(broker) ==> removals is Err && removals == Err::<Vec<(usize, DirectRefreshOwner)>, ClusterError>(ClusterError::FamilyStale),
            self.families().contains_key(broker) ==> {
                &&& removals matches Ok(entries)
                &&& entries@ == family_entries(self.families()[broker], self.slots(), TRAFFIC_COUNT as int)
            },
    {
        if !self.families.contains_key(&broker) {
            return Err(ClusterError::FamilyStale);
        }
        let mut removals: Vec<(usize, DirectRefreshOwner)> = Vec::new();
        let mut order: usize = 0;
        while order < TRAFFIC_COUNT
            invariant
                self.wf(),
                self.families().contains_key(broker),
                order <= TRAFFIC_COUNT,
                removals@ == family_entries(self.families()[broker], self.slots(), order as int),
            decreases TRAFFIC_COUNT - order,
        {
            let traffic = traffic_at(order);
            let state = self.family_lane_state(broker, traffic);
            match state {
                Ok(FamilyLaneState::Active(owner, index)) => {
                    removals.push((index, owner));
                },
                Ok(FamilyLaneState::Dormant) => {},
                Err(error) => return Err(error),
            }
            order = order + 1;
        }
        Ok(removals)
    }
}

/// Properties of a family's active entries.
#[verifier::spinoff_prover]
pub proof fn lemma_family_entries(family: BrokerFamily, slots: Map<(u64, u32), usize>, n: int)
    requires
        family.wf(),
        0 <= n <= TRAFFIC_COUNT,
    ensures
        forall|e: int| 0 <= e < family_entries(family, slots, n).len() ==> exists|t: int|
            0 <= t < n && family.active()[t] && #[trigger] family_entries(family, slots, n)[e]
                == (slots[family.owners()[t].key()], family.owners()[t]),
        forall|t: int| 0 <= t < n && #[trigger] family.active()[t] ==> exists|e: int|
            0 <= e < family_entries(family, slots, n).len()
                && family_entries(family, slots, n)[e] == (slots[family.owners()[t].key()], family.owners()[t]),
        family_entries(family, slots, n).len() <= n,
    decreases n,
{
    if n > 0 {
        lemma_family_entries(family, slots, n - 1);
        let earlier = family_entries(family, slots, n - 1);
        let entries = family_entries(family, slots, n);
        assert forall|e: int| 0 <= e < entries.len() implies exists|t: int|
            0 <= t < n && family.active()[t] && #[trigger] entries[e] == (slots[family.owners()[t].key()], family.owners()[t]) by {
            if e < earlier.len() {
                assert(entries[e] == earlier[e]);
                let t = choose|t: int| 0 <= t < n - 1 && family.active()[t] && #[trigger] earlier[e] == (slots[family.owners()[t].key()], family.owners()[t]);
                assert(entries[e] == (slots[family.owners()[t].key()], family.owners()[t]));
            } else {
                assert(entries[e] == (slots[family.owners()[n - 1].key()], family.owners()[n - 1]));
            }
        }
        assert forall|t: int| 0 <= t < n && #[trigger] family.active()[t] implies exists|e: int|
            0 <= e < entries.len() && entries[e] == (slots[family.owners()[t].key()], family.owners()[t]) by {
            if t < n - 1 {
                let e = choose|e: int| 0 <= e < earlier.len() && earlier[e] == (slots[family.owners()[t].key()], family.owners()[t]);
                assert(entries[e] == earlier[e]);
            } else {
                assert(entries[entries.len() - 1] == (slots[family.owners()[t].key()], family.owners()[t]));
            }
        }
    }
}

impl ClusterRuntime {
    /// Every active lane of the family is reclaimable.
    pub open spec fn family_reclaimable_spec(&self, broker: i32) -> bool {
        let family = self.families()[broker];
        forall|t: int| 0 <= t < TRAFFIC_COUNT && #[trigger] family.active()[t]
            ==> self.lane_at_key(family.owners()[t].key()).facts.is_reclaimable()
    }

    /// Whether every active lane of the family is reclaimable.
    pub fn family_reclaimable(&self, broker: i32) -> (result: Result<bool, ClusterError>)
        requires
            self.wf(),
        ensures
            !self.families().contains_key(broker) ==> result == Err::<bool, ClusterError>(ClusterError::FamilyStale),
            self.families().contains_key(broker) ==> result == Ok::<bool, ClusterError>(self.family_reclaimable_spec(broker)),
    {
        let removals = match self.family_removals(broker) {
            Ok(removals) => removals,
            Err(error) => return Err(error),
        };
        let ghost family = self.families()[broker];
        proof {
            lemma_family_entries(family, self.slots(), TRAFFIC_COUNT as int);
        }
        let mut index: usize = 0;
        while index < removals.len()
            invariant
                self.wf(),
                self.families().contains_key(broker),
                family == self.families()[broker],
                family.wf(),
                removals@ == family_entries(family, self.slots(), TRAFFIC_COUNT as int),
                index <= removals.len(),
                forall|e: int| 0 <= e < index ==> removals@[e].0 < self.lanes().len()
                    && self.lanes()[removals@[e].0 as int].facts.is_reclaimable(),
            decreases removals.len() - index,
        {
            let ghost entries = family_entries(family, self.slots(), TRAFFIC_COUNT as int);
            proof {
                lemma_family_entries(family, self.slots(), TRAFFIC_COUNT as int);
                let t = choose|t: int| 0 <= t < TRAFFIC_COUNT && family.active()[t] && #[trigger] entries[index as int]
                    == (self.slots()[family.owners()[t].key()], family.owners()[t]);
                assert(self.slots().contains_key(family.owners()[t].key()));
            }
            let (lane_index, _) = removals[index];
            if !reclaimable(&self.lanes[lane_index].facts) {
                proof {
                    let t = choose|t: int| 0 <= t < TRAFFIC_COUNT && family.active()[t] && #[trigger] entries[index as int]
                        == (self.slots()[family.owners()[t].key()], family.owners()[t]);
                    assert(!self.lane_at_key(family.owners()[t].key()).facts.is_reclaimable());
                }
                return Ok(false);
            }
            index = index + 1;
        }
        proof {
            let entries = family_entries(family, self.slots(), TRAFFIC_COUNT as int);
            lemma_family_entries(family, self.slots(), TRAFFIC_COUNT as int);
            assert forall|t: int| 0 <= t < TRAFFIC_COUNT && #[trigger] family.active()[t]
                implies self.lane_at_key(family.owners()[t].key()).facts.is_reclaimable() by {
                let e = choose|e: int| 0 <= e < entries.len()
                    && entries[e] == (self.slots()[family.owners()[t].key()], family.owners()[t]);
                assert(removals@[e] == entries[e]);
            }
        }
        Ok(true)
    }

    /// Number of active lanes of the family.
    pub fn family_active_count(&self, broker: i32) -> (count: Result<usize, ClusterError>)
        requires
            self.wf(),
        ensures
            !self.families().contains_key(broker) ==> count == Err::<usize, ClusterError>(ClusterError::FamilyStale),
            self.families().contains_key(broker) ==> count == Ok::<usize, ClusterError>(
                family_entries(self.families()[broker], self.slots(), TRAFFIC_COUNT as int).len() as usize),
    {
        match self.family_removals(broker) {
            Ok(removals) => Ok(removals.len()),
            Err(error) => Err(error),
        }
    }

    /// Drops every active lane of a family and the family itself once all
    /// of them are reclaimable; reports whether it did.
    pub fn remove_terminal_family(&mut self, broker: i32) -> (removed: Result<bool, ClusterError>)
        requires
            old(self).wf(),
        ensures
            final(self).wf(),
            !old(self).families().contains_key(broker) ==> removed == Err::<bool, ClusterError>(ClusterError::FamilyStale),
            old(self).families().contains_key(broker) ==> removed == Ok::<bool, ClusterError>(old(self).family_reclaimable_spec(broker)),
            removed != Ok::<bool, ClusterError>(true) ==> *final(self) == *old(self),
            removed == Ok::<bool, ClusterError>(true) ==> {
                &&& final(self).slots().dom() == old(self).slots().dom().difference(keys_of(old(self).families()[broker].owners()))
                &&& forall|key: (u64, u32)| #[trigger] final(self).slots().contains_key(key)
                    ==> final(self).lane_at_key(key) == old(self).lane_at_key(key)
                &&& final(self).families() == old(self).families().remove(broker)
                &&& final(self).seed() == old(self).seed()
                &&& final(self).next_lane() == old(self).next_lane()
                &&& final(self).refresh_cursor() == spec_normalized_cursor(
                    old(self).refresh_cursor() as int, final(self).families().dom().len() * TRAFFIC_COUNT)
            },
    {
        let mut pending = match self.family_removals(broker) {
            Ok(removals) => removals,
            Err(error) => return Err(error),
        };
        match self.family_reclaimable(broker) {
            Ok(true) => {},
            Ok(false) => return Ok(false),
            Err(error) => return Err(error),
        }
        let ghost old_self = *self;
        let ghost family = self.families()[broker];
        let ghost family_keys = keys_of(family.owners());
        proof {
            let entries = family_entries(family, self.slots(), TRAFFIC_COUNT as int);
            lemma_family_entries(family, self.slots(), TRAFFIC_COUNT as int);
            assert(pending@ == entries);
            assert forall|e: int| 0 <= e < pending@.len() implies {
                &&& self.slots().contains_key((#[trigger] pending@[e]).1.key())
                &&& self.slots()[pending@[e].1.key()] == pending@[e].0
                &&& family_keys.contains(pending@[e].1.key())
            } by {
                let t = choose|t: int| 0 <= t < TRAFFIC_COUNT && family.active()[t] && #[trigger] entries[e]
                    == (self.slots()[family.owners()[t].key()], family.owners()[t]);
                assert(family.owners()[t].key() == pending@[e].1.key());
            }
            assert forall|key: (u64, u32)| family_keys.contains(key) && #[trigger] self.slots().contains_key(key)
                implies exists|e: int| 0 <= e < pending@.len() && (#[trigger] pending@[e]).1.key() == key by {
                let t = choose|t: int| 0 <= t < family.owners().len() && (#[trigger] family.owners()[t]).key() == key;
                assert(family.active()[t]);
                let e = choose|e: int| 0 <= e < entries.len()
                    && entries[e] == (self.slots()[family.owners()[t].key()], family.owners()[t]);
                assert(pending@[e].1.key() == key);
            }
            assert forall|e: int, f: int| 0 <= e < f < pending@.len() implies #[trigger] pending@[e].1 != #[trigger] pending@[f].1 by {
                let t = choose|t: int| 0 <= t < TRAFFIC_COUNT && family.active()[t] && #[trigger] entries[e]
                    == (self.slots()[family.owners()[t].key()], family.owners()[t]);
                let u = choose|u: int| 0 <= u < TRAFFIC_COUNT && family.active()[u] && #[trigger] entries[f]
                    == (self.slots()[family.owners()[u].key()], family.owners()[u]);
                if t == u {
                    lemma_family_entries_strict(family, self.slots(), TRAFFIC_COUNT as int, e, f);
                } else if t < u {
                    assert(family.owners()[t] != family.owners()[u]);
                } else {
                    assert(family.owners()[u] != family.owners()[t]);
                }
            }
        }
        while pending.len() > 0
            invariant
                old_self.wf(),
                old_self.families().contains_key(broker),
                family == old_self.families()[broker],
                family_keys == keys_of(family.owners()),
                self.slots_consistent(),
                self.slots().dom().len() == self.lanes().len(),
                self.families() == old_self.families(),
                self.seed() == old_self.seed(),
                self.bounds() == old_self.bounds(),
                self.max_brokers() == old_self.max_brokers(),
                self.next_lane() == old_self.next_lane(),
                self.refresh_turn() == old_self.refresh_turn(),
                self.refresh_cursor() == old_self.refresh_cursor(),
                self.lanes().len() <= old_self.lanes().len(),
                forall|e: int| 0 <= e < pending@.len() ==> {
                    &&& self.slots().contains_key((#[trigger] pending@[e]).1.key())
                    &&& self.slots()[pending@[e].1.key()] == pending@[e].0
                    &&& family_keys.contains(pending@[e].1.key())
                },
                forall|e: int, f: int| 0 <= e < f < pending@.len() ==> #[trigger] pending@[e].1 != #[trigger] pending@[f].1,
                forall|key: (u64, u32)| #[trigger] self.slots().contains_key(key) ==> {
                    &&& old_self.slots().contains_key(key)
                    &&& self.lane_at_key(key) == old_self.lane_at_key(key)
                },
                forall|key: (u64, u32)| old_self.slots().contains_key(key) && !family_keys.contains(key)
                    ==> #[trigger] self.slots().contains_key(key),
                forall|key: (u64, u32)| family_keys.contains(key) && #[trigger] self.slots().contains_key(key)
                    ==> exists|e: int| 0 <= e < pending@.len() && (#[trigger] pending@[e]).1.key() == key,
            decreases pending.len(),
        {
            let mut top: usize = 0;
            let mut scan: usize = 1;
            while scan < pending.len()
                invariant
                    pending.len() > 0,
                    top < pending.len(),
                    scan <= pending.len(),
                    forall|e: int| 0 <= e < scan ==> (#[trigger] pending@[e]).0 <= pending@[top as int].0,
                decreases pending.len() - scan,
            {
                if pending[scan].0 > pending[top].0 {
                    top = scan;
                }
                scan = scan + 1;
            }
            let ghost before = pending@;
            let (index, owner) = pending.remove(top);
            let ghost prior = *self;
            proof {
                assert(before[top as int] == (index, owner));
                assert forall|e: int| 0 <= e < pending@.len() implies (#[trigger] pending@[e]).0 < index by {
                    let f = if e < top { e } else { e + 1 };
                    assert(pending@[e] == before[f]);
                    assert(before[f].1 != owner);
                    assert(before[f].0 <= index);
                    assert(self.slots()[before[f].1.key()] == before[f].0);
                    if before[f].0 == index {
                        assert(self.lanes()[index as int].owner.key() == before[f].1.key());
                        assert(self.lanes()[index as int].owner.key() == owner.key());
                    }
                }
            }
            self.remove_at(owner, index);
            proof {
                assert forall|e: int| 0 <= e < pending@.len() implies {
                    &&& self.slots().contains_key((#[trigger] pending@[e]).1.key())
                    &&& self.slots()[pending@[e].1.key()] == pending@[e].0
                    &&& family_keys.contains(pending@[e].1.key())
                } by {
                    let f = if e < top { e } else { e + 1 };
                    assert(pending@[e] == before[f]);
                    assert(before[f].1 != owner);
                    assert(prior.slots()[before[f].1.key()] == before[f].0);
                    assert(before[f].0 < index);
                    assert(index < prior.lanes().len());
                }
                assert forall|e: int, f: int| 0 <= e < f < pending@.len() implies #[trigger] pending@[e].1 != #[trigger] pending@[f].1 by {
                    let e2 = if e < top { e } else { e + 1 };
                    let f2 = if f < top { f } else { f + 1 };
                    assert(pending@[e] == before[e2]);
                    assert(pending@[f] == before[f2]);
                }
                assert forall|key: (u64, u32)| family_keys.contains(key) && #[trigger] self.slots().contains_key(key)
                    implies exists|e: int| 0 <= e < pending@.len() && (#[trigger] pending@[e]).1.key() == key by {
                    let f = choose|f: int| 0 <= f < before.len() && (#[trigger] before[f]).1.key() == key;
                    assert(key != owner.key());
                    assert(f != top);
                    let e = if f < top { f } else { f - 1 };
                    assert(pending@[e] == before[f]);
                }
                assert forall|key: (u64, u32)| old_self.slots().contains_key(key) && !family_keys.contains(key)
                    implies #[trigger] self.slots().contains_key(key) by {
                    assert(prior.slots().contains_key(key));
                    assert(family_keys.contains(owner.key()));
                }
            }
        }
        self.families.remove(&broker);
        self.normalize_refresh_cursor();
        proof {
            assert(self.slots().dom() =~= old_self.slots().dom().difference(family_keys)) by {
                assert forall|key: (u64, u32)| self.slots().contains_key(key) implies !family_keys.contains(key) by {
                    if family_keys.contains(key) {
                        let e = choose|e: int| 0 <= e < pending@.len() && (#[trigger] pending@[e]).1.key() == key;
                    }
                }
            }
            assert(self.families() =~= old_self.families().remove(broker));
            // remaining families keep exactly their filed owners
            assert forall|b: i32| #[trigger] self.families().contains_key(b) implies {
                let f = self.families()[b];
                forall|t: int| 0 <= t < TRAFFIC_COUNT ==>
                    (#[trigger] f.active()[t] <==> self.slots().contains_key(f.owners()[t].key()))
            } by {
                let f = self.families()[b];
                assert(old_self.families().contains_key(b));
                assert forall|t: int| 0 <= t < TRAFFIC_COUNT implies
                    (#[trigger] f.active()[t] <==> self.slots().contains_key(f.owners()[t].key())) by {
                    let o = f.owners()[t];
                    if family_keys.contains(o.key()) {
                        let j = choose|j: int| 0 <= j < family.owners().len() && (#[trigger] family.owners()[j]).key() == o.key();
                        assert(family.owners()[j] == o);
                    }
                }
            }
            if let Some(seed) = self.seed() {
                if family_keys.contains(seed.owner.key()) {
                    let j = choose|j: int| 0 <= j < family.owners().len() && (#[trigger] family.owners()[j]).key() == seed.owner.key();
                    assert(family.owners()[j] == seed.owner);
                    assert(old_self.families()[broker].holds(seed.owner));
                }
                if self.family_holds(seed.owner) {
                    let b = choose|b: i32| #[trigger] self.families().contains_key(b) && self.families()[b].holds(seed.owner);
                    assert(old_self.families().contains_key(b));
                }
            }
            assert(self.families().dom().len() <= old_self.families().dom().len());
        }
        Ok(true)
    }

    /// Reduces the refresh cursor into the ring of family slots.
    fn normalize_refresh_cursor(&mut self)
        requires
            old(self).families().dom().len() * TRAFFIC_COUNT <= usize::MAX,
        ensures
            final(self).refresh_cursor() == spec_normalized_cursor(old(self).refresh_cursor() as int, old(self).families().dom().len() * TRAFFIC_COUNT),
            final(self).lanes() == old(self).lanes(),
            final(self).slots() == old(self).slots(),
            final(self).families() == old(self).families(),
            final(self).seed() == old(self).seed(),
            final(self).bounds() == old(self).bounds(),
            final(self).max_brokers() == old(self).max_brokers(),
            final(self).next_lane() == old(self).next_lane(),
            final(self).next_endpoint() == old(self).next_endpoint(),
            final(self).directory() == old(self).directory(),
            final(self).directory_generation() == old(self).directory_generation(),
            final(self).pending_seed() == old(self).pending_seed(),
            final(self).refresh_turn() == old(self).refresh_turn(),
            final(self).draining() == old(self).draining(),
            final(self).scram_sender() == old(self).scram_sender(),
    {
        let slots = match self.families.len().checked_mul(TRAFFIC_COUNT) {
            Some(slots) => slots,
            None => usize::MAX,
        };
        self.refresh_cursor = match self.refresh_cursor.checked_rem(slots) {
            Some(cursor) => cursor,
            None => 0,
        };
    }
}

/// A cursor reduced into a ring of `ring` slots (zero for an empty ring).
pub open spec fn spec_normalized_cursor(cursor: int, ring: int) -> int {
    if ring == 0 { 0 } else { cursor % ring }
}

/// Entries of one family come from distinct traffic positions.
pub proof fn lemma_family_entries_strict(family: BrokerFamily, slots: Map<(u64, u32), usize>, n: int, e: int, f: int)
    requires
        family.wf(),
        0 <= n <= TRAFFIC_COUNT,
        0 <= e < f < family_entries(family, slots, n).len(),
        forall|t: int, u: int| 0 <= t < u < TRAFFIC_COUNT ==> #[trigger] family.owners()[t] != #[trigger] family.owners()[u],
    ensures
        family_entries(family, slots, n)[e].1 != family_entries(family, slots, n)[f].1,
    decreases n,
{
    if n > 0 {
        let earlier = family_entries(family, slots, n - 1);
        if !family.active()[n - 1] {
            lemma_family_entries_strict(family, slots, n - 1, e, f);
        } else if f < earlier.len() {
            lemma_family_entries_strict(family, slots, n - 1, e, f);
        } else {
            lemma_family_entries(family, slots, n - 1);
            let t = choose|t: int| 0 <= t < n - 1 && family.active()[t] && #[trigger] earlier[e]
                == (slots[family.owners()[t].key()], family.owners()[t]);
            assert(family.owners()[t] != family.owners()[n - 1]);
        }
    }
}

/// Marks `index` as claimed.
pub fn claim(claimed: &mut Vec<bool>, index: usize) -> (result: Result<(), ClusterError>)
    ensures
        index >= old(claimed).len() ==> result == Err::<(), ClusterError>(ClusterError::ClaimIndexStale) && final(claimed)@ == old(claimed)@,
        index < old(claimed).len() && old(claimed)@[index as int] ==> result == Err::<(), ClusterError>(ClusterError::LaneClaimedTwice)
            && final(claimed)@ == old(claimed)@,
        index < old(claimed).len() && !old(claimed)@[index as int] ==> result == Ok::<(), ClusterError>(())
            && final(claimed)@ == old(claimed)@.update(index as int, true),
{
    if index >= claimed.len() {
        return Err(ClusterError::ClaimIndexStale);
    }
    if claimed[index] {
        return Err(ClusterError::LaneClaimedTwice);
    }
    claimed.set(index, true);
    Ok(())
}

impl ClusterRuntime {
    /// The lane at `index` belongs to the seed or to an active family lane.
    pub open spec fn lane_claimed(&self, index: int) -> bool {
        let owner = self.lanes()[index].owner;
        ||| (self.seed() matches Some(seed) && seed.owner == owner)
        ||| exists|broker: i32, t: int| #![trigger self.families()[broker].owners()[t]]
            self.families().contains_key(broker) && 0 <= t < TRAFFIC_COUNT
                && self.families()[broker].active()[t] && self.families()[broker].owners()[t] == owner
    }

    /// Every lane belongs to the seed or to an active family lane.
    pub open spec fn all_lanes_claimed(&self) -> bool {
        forall|i: int| 0 <= i < self.lanes().len() ==> #[trigger] self.lane_claimed(i)
    }

    /// Checks that every lane is filed once and claimed exactly once, by the
    /// seed or by one active family lane.
    pub fn validate_cluster_ownership(&self) -> (result: Result<(), ClusterError>)
        requires
            self.wf(),
        ensures
            self.all_lanes_claimed() ==> result == Ok::<(), ClusterError>(()),
            !self.all_lanes_claimed() ==> result == Err::<(), ClusterError>(ClusterError::LaneUnclaimed),
    {
        let mut claimed: Vec<bool> = Vec::new();
        let mut fill: usize = 0;
        while fill < self.lanes.len()
            invariant
                fill <= self.lanes().len(),
                claimed@ == Seq::new(fill as nat, |i: int| false),
            decreases self.lanes().len() - fill,
        {
            claimed.push(false);
            fill = fill + 1;
            assert(claimed@ =~= Seq::new(fill as nat, |i: int| false));
        }
        // the seed
        if let Some(seed) = self.seed {
            let index = match self.slots.get(&seed.owner.slot_key()) {
                Some(index) => *index,
                None => return Err(ClusterError::OwnerStale),
            };
            match claim(&mut claimed, index) {
                Ok(()) => {},
                Err(error) => return Err(error),
            }
        }
        let ghost seed_claimed = claimed@;
        proof {
            assert forall|i: int| 0 <= i < claimed@.len() implies (#[trigger] claimed@[i] <==>
                (self.seed() matches Some(seed) && seed.owner == self.lanes()[i].owner)) by {
                if let Some(seed) = self.seed() {
                    assert(self.slots().contains_key(self.lanes()[i].owner.key()));
                }
            }
        }
        // the families
        let ghost keys = vstd::std_specs::btree::spec_keys_iter(&self.families).remaining().unref();
        proof {
            vstd::std_specs::btree::axiom_spec_keys_iter(&self.families);
        }
        for broker in it: self.families.keys()
            invariant
                self.wf(),
                it.seq().unref() == keys,
                keys.to_set() == self.families().dom(),
                keys.no_duplicates(),
                claimed@.len() == self.lanes().len(),
                forall|i: int| 0 <= i < claimed@.len() ==> (#[trigger] claimed@[i] <==> (
                    (self.seed() matches Some(seed) && seed.owner == self.lanes()[i].owner)
                    || exists|j: int, t: int| #![trigger keys[j], self.families()[keys[j]].owners()[t]]
                        0 <= j < it.index() && 0 <= t < TRAFFIC_COUNT
                        && self.families()[keys[j]].active()[t] && self.families()[keys[j]].owners()[t] == self.lanes()[i].owner)),
        {
            let ghost j0 = it.index() as int;
            proof {
                assert(keys[j0] == *broker);
                assert(keys.to_set().contains(*broker));
            }
            let mut order: usize = 0;
            while order < TRAFFIC_COUNT
                invariant
                    self.wf(),
                    self.families().contains_key(*broker),
                    keys[j0] == *broker,
                    0 <= j0 < keys.len(),
                    keys.to_set() == self.families().dom(),
                    keys.no_duplicates(),
                    order <= TRAFFIC_COUNT,
                    claimed@.len() == self.lanes().len(),
                    forall|i: int| 0 <= i < claimed@.len() ==> (#[trigger] claimed@[i] <==> (
                        (self.seed() matches Some(seed) && seed.owner == self.lanes()[i].owner)
                        || (exists|j: int, t: int| #![trigger keys[j], self.families()[keys[j]].owners()[t]]
                            0 <= j < j0 && 0 <= t < TRAFFIC_COUNT
                            && self.families()[keys[j]].active()[t] && self.families()[keys[j]].owners()[t] == self.lanes()[i].owner)
                        || (exists|t: int| 0 <= t < order
                            && self.families()[*broker].active()[t] && #[trigger] self.families()[*broker].owners()[t] == self.lanes()[i].owner))),
                decreases TRAFFIC_COUNT - order,
            {
                let traffic = traffic_at(order);
                let state = self.family_lane_state(*broker, traffic);
                let ghost before = claimed@;
                match state {
                    Ok(FamilyLaneState::Active(_, index)) => {
                        let ghost owner = self.families()[*broker].owners()[order as int];
                        proof {
                            assert(self.slots().contains_key(owner.key()));
                            assert(self.lanes()[index as int].owner == owner);
                            if before[index as int] {
                                // already claimed by the seed or by another family slot: impossible
                                if let Some(seed) = self.seed() {
                                    if seed.owner == owner {
                                        assert(self.families()[*broker].holds(seed.owner));
                                    }
                                }
                                if exists|j: int, t: int| #![trigger keys[j], self.families()[keys[j]].owners()[t]]
                                    0 <= j < j0 && 0 <= t < TRAFFIC_COUNT
                                    && self.families()[keys[j]].active()[t] && self.families()[keys[j]].owners()[t] == owner {
                                    let (j, t) = choose|j: int, t: int| #![trigger keys[j], self.families()[keys[j]].owners()[t]]
                                        0 <= j < j0 && 0 <= t < TRAFFIC_COUNT
                                        && self.families()[keys[j]].active()[t] && self.families()[keys[j]].owners()[t] == owner;
                                    assert(keys.to_set().contains(keys[j]));
                                    assert(keys[j] != keys[j0]);
                                    assert(self.families()[keys[j]].owners()[t] != self.families()[*broker].owners()[order as int]);
                                }
                                if exists|t: int| 0 <= t < order
                                    && self.families()[*broker].active()[t] && #[trigger] self.families()[*broker].owners()[t] == owner {
                                    let t = choose|t: int| 0 <= t < order
                                        && self.families()[*broker].active()[t] && #[trigger] self.families()[*broker].owners()[t] == owner;
                                    assert(self.families()[*broker].owners()[t] != self.families()[*broker].owners()[order as int]);
                                }
                                assert(false);
                            }
                        }
                        match claim(&mut claimed, index) {
                            Ok(()) => {},
                            Err(error) => return Err(error),
                        }
                        proof {
                            assert forall|i: int| 0 <= i < claimed@.len() implies (#[trigger] claimed@[i] <==> (
                                (self.seed() matches Some(seed) && seed.owner == self.lanes()[i].owner)
                                || (exists|j: int, t: int| #![trigger keys[j], self.families()[keys[j]].owners()[t]]
                                    0 <= j < j0 && 0 <= t < TRAFFIC_COUNT
                                    && self.families()[keys[j]].active()[t] && self.families()[keys[j]].owners()[t] == self.lanes()[i].owner)
                                || (exists|t: int| 0 <= t < order + 1
                                    && self.families()[*broker].active()[t] && #[trigger] self.families()[*broker].owners()[t] == self.lanes()[i].owner))) by {
                                if i == index as int {
                                    assert(self.families()[*broker].owners()[order as int] == self.lanes()[i].owner);
                                } else {
                                    assert(self.slots().contains_key(self.lanes()[i].owner.key()));
                                    if self.lanes()[i].owner == owner {
                                        assert(self.slots()[owner.key()] == i);
                                    }
                                    assert(claimed@[i] == before[i]);
                                }
                            }
                        }
                    },
                    Ok(FamilyLaneState::Dormant) => {
                        proof {
                            assert forall|i: int| 0 <= i < claimed@.len() implies (#[trigger] claimed@[i] <==> (
                                (self.seed() matches Some(seed) && seed.owner == self.lanes()[i].owner)
                                || (exists|j: int, t: int| #![trigger keys[j], self.families()[keys[j]].owners()[t]]
                                    0 <= j < j0 && 0 <= t < TRAFFIC_COUNT
                                    && self.families()[keys[j]].active()[t] && self.families()[keys[j]].owners()[t] == self.lanes()[i].owner)
                                || (exists|t: int| 0 <= t < order + 1
                                    && self.families()[*broker].active()[t] && #[trigger] self.families()[*broker].owners()[t] == self.lanes()[i].owner))) by {
                                if exists|t: int| 0 <= t < order + 1
                                    && self.families()[*broker].active()[t] && #[trigger] self.families()[*broker].owners()[t] == self.lanes()[i].owner {
                                    let t = choose|t: int| 0 <= t < order + 1
                                        && self.families()[*broker].active()[t] && #[trigger] self.families()[*broker].owners()[t] == self.lanes()[i].owner;
                                    assert(t != order);
                                }
                            }
                        }
                    },
                    Err(error) => return Err(error),
                }
                order = order + 1;
            }
            proof {
                assert forall|i: int| 0 <= i < claimed@.len() implies (#[trigger] claimed@[i] <==> (
                    (self.seed() matches Some(seed) && seed.owner == self.lanes()[i].owner)
                    || exists|j: int, t: int| #![trigger keys[j], self.families()[keys[j]].owners()[t]]
                        0 <= j < j0 + 1 && 0 <= t < TRAFFIC_COUNT
                        && self.families()[keys[j]].active()[t] && self.families()[keys[j]].owners()[t] == self.lanes()[i].owner)) by {
                    if exists|t: int| 0 <= t < TRAFFIC_COUNT
                        && self.families()[*broker].active()[t] && #[trigger] self.families()[*broker].owners()[t] == self.lanes()[i].owner {
                        let t = choose|t: int| 0 <= t < TRAFFIC_COUNT
                            && self.families()[*broker].active()[t] && #[trigger] self.families()[*broker].owners()[t] == self.lanes()[i].owner;
                        assert(keys[j0] == *broker);
                        assert(self.families()[keys[j0]].owners()[t] == self.lanes()[i].owner);
                    }
                    if exists|j: int, t: int| #![trigger keys[j], self.families()[keys[j]].owners()[t]]
                        0 <= j < j0 + 1 && 0 <= t < TRAFFIC_COUNT
                        && self.families()[keys[j]].active()[t] && self.families()[keys[j]].owners()[t] == self.lanes()[i].owner {
                        let (j, t) = choose|j: int, t: int| #![trigger keys[j], self.families()[keys[j]].owners()[t]]
                            0 <= j < j0 + 1 && 0 <= t < TRAFFIC_COUNT
                            && self.families()[keys[j]].active()[t] && self.families()[keys[j]].owners()[t] == self.lanes()[i].owner;
                        if j == j0 {
                            assert(self.families()[*broker].owners()[t] == self.lanes()[i].owner);
                        }
                    }
                }
            }
        }
        // every lane must be claimed
        let mut index: usize = 0;
        while index < claimed.len()
            invariant
                self.wf(),
                index <= claimed@.len(),
                claimed@.len() == self.lanes().len(),
                keys.to_set() == self.families().dom(),
                forall|i: int| 0 <= i < claimed@.len() ==> (#[trigger] claimed@[i] <==> (
                    (self.seed() matches Some(seed) && seed.owner == self.lanes()[i].owner)
                    || exists|j: int, t: int| #![trigger keys[j], self.families()[keys[j]].owners()[t]]
                        0 <= j < keys.len() && 0 <= t < TRAFFIC_COUNT
                        && self.families()[keys[j]].active()[t] && self.families()[keys[j]].owners()[t] == self.lanes()[i].owner)),
                forall|i: int| 0 <= i < index ==> claimed@[i],
            decreases claimed@.len() - index,
        {
            if !claimed[index] {
                proof {
                    let i = index as int;
                    if self.lane_claimed(i) {
                        if !(self.seed() matches Some(seed) && seed.owner == self.lanes()[i].owner) {
                            let (b, t) = choose|b: i32, t: int| #![trigger self.families()[b].owners()[t]]
                                self.families().contains_key(b) && 0 <= t < TRAFFIC_COUNT
                                    && self.families()[b].active()[t] && self.families()[b].owners()[t] == self.lanes()[i].owner;
                            assert(keys.to_set().contains(b));
                            let j = choose|j: int| 0 <= j < keys.len() && keys[j] == b;
                            assert(self.families()[keys[j]].owners()[t] == self.lanes()[i].owner);
                        }
                    }
                }
                return Err(ClusterError::LaneUnclaimed);
            }
            index = index + 1;
        }
        proof {
            assert forall|i: int| 0 <= i < self.lanes().len() implies #[trigger] self.lane_claimed(i) by {
                assert(claimed@[i]);
                if !(self.seed() matches Some(seed) && seed.owner == self.lanes()[i].owner) {
                    let (j, t) = choose|j: int, t: int| #![trigger keys[j], self.families()[keys[j]].owners()[t]]
                        0 <= j < keys.len() && 0 <= t < TRAFFIC_COUNT
                        && self.families()[keys[j]].active()[t] && self.families()[keys[j]].owners()[t] == self.lanes()[i].owner;
                    assert(keys.to_set().contains(keys[j]));
                }
            }
        }
        Ok(())
    }
}

/// Owners of the given family entries whose lanes are not terminal, in order.
pub open spec fn nonterminal_entry_owners(entries: Seq<(usize, DirectRefreshOwner)>, lanes: Seq<LaneRecord>) -> Seq<DirectRefreshOwner>
    decreases entries.len(),
{
    if entries.len() == 0 {
        Seq::empty()
    } else {
        let earlier = nonterminal_entry_owners(entries.drop_last(), lanes);
        let entry = entries.last();
        if !lanes[entry.0 as int].facts.terminal {
            earlier.push(entry.1)
        } else {
            earlier
        }
    }
}

/// Owners of the lanes that are not terminal, in lane order.
pub open spec fn nonterminal_lane_owners(lanes: Seq<LaneRecord>) -> Seq<DirectRefreshOwner>
    decreases lanes.len(),
{
    if lanes.len() == 0 {
        Seq::empty()
    } else {
        let earlier = nonterminal_lane_owners(lanes.drop_last());
        if !lanes.last().facts.terminal {
            earlier.push(lanes.last().owner)
        } else {
            earlier
        }
    }
}

impl ClusterRuntime {
    /// Starts retiring a family. Reports `None` when it was already retiring;
    /// otherwise the owners of its active, non-terminal lanes, in stable
    /// traffic order, whose sessions must now begin draining.
    #[verifier::rlimit(30)]
    pub fn begin_family_retirement(&mut self, broker: i32) -> (result: Result<Option<Vec<DirectRefreshOwner>>, ClusterError>)
        requires
            old(self).wf(),
        ensures
            final(self).wf(),
            !old(self).families().contains_key(broker) ==> result == Err::<Option<Vec<DirectRefreshOwner>>, ClusterError>(ClusterError::FamilyStale),
            old(self).families().contains_key(broker) && old(self).families()[broker].retiring()
                ==> result == Ok::<Option<Vec<DirectRefreshOwner>>, ClusterError>(None),
            !(old(self).families().contains_key(broker) && !old(self).families()[broker].retiring()) ==> final(self).same_view(*old(self)),
            old(self).families().contains_key(broker) && !old(self).families()[broker].retiring() ==> {
                &&& result matches Ok(Some(owners))
                &&& owners@ == nonterminal_entry_owners(
                    family_entries(old(self).families()[broker], old(self).slots(), TRAFFIC_COUNT as int), old(self).lanes())
                &&& final(self).families().dom() == old(self).families().dom()
                &&& forall|b: i32| b != broker && #[trigger] old(self).families().contains_key(b) ==> final(self).families()[b] == old(self).families()[b]
                &&& final(self).families()[broker].retiring()
                &&& final(self).families()[broker].owners() == old(self).families()[broker].owners()
                &&& final(self).families()[broker].active() == old(self).families()[broker].active()
                &&& final(self).families()[broker].endpoint_value() == old(self).families()[broker].endpoint_value()
                &&& final(self).lanes() == old(self).lanes()
                &&& final(self).slots() == old(self).slots()
                &&& final(self).seed() == old(self).seed()
                &&& final(self).next_lane() == old(self).next_lane()
            },
    {
        let removals = match self.family_removals(broker) {
            Ok(removals) => removals,
            Err(error) => return Err(error),
        };
        let ghost old_self = *self;
        let mut family = self.families.remove(&broker).unwrap();
        let changed = family.begin_retirement();
        self.families.insert(broker, family);
        if !changed {
            proof {
                assert(self.families() =~= old_self.families());
            }
            return Ok(None);
        }
        let ghost entries = removals@;
        proof {
            lemma_family_entries(old_self.families()[broker], self.slots(), TRAFFIC_COUNT as int);
        }
        let mut owners: Vec<DirectRefreshOwner> = Vec::new();
        let mut index: usize = 0;
        while index < removals.len()
            invariant
                index <= removals.len(),
                entries == removals@,
                self.lanes() == old_self.lanes(),
                self.slots() == old_self.slots(),
                old_self.slots_consistent(),
                forall|e: int| 0 <= e < entries.len() ==> old_self.slots().contains_key((#[trigger] entries[e]).1.key())
                    && old_self.slots()[entries[e].1.key()] == entries[e].0,
                owners@ == nonterminal_entry_owners(entries.take(index as int), old_self.lanes()),
            decreases removals.len() - index,
        {
            let (lane_index, owner) = removals[index];
            proof {
                assert(old_self.slots().contains_key(entries[index as int].1.key()));
            }
            if !self.lanes[lane_index].facts.terminal {
                owners.push(owner);
            }
            index = index + 1;
            proof {
                assert(entries.take(index as int).drop_last() =~= entries.take(index - 1));
            }
        }
        proof {
            assert(entries.take(entries.len() as int) =~= entries);
            let family = self.families()[broker];
            assert forall|e: int| 0 <= e < entries.len() implies old_self.slots().contains_key((#[trigger] entries[e]).1.key())
                && old_self.slots()[entries[e].1.key()] == entries[e].0 by {
                let fam = old_self.families()[broker];
                let t = choose|t: int| 0 <= t < TRAFFIC_COUNT && fam.active()[t] && #[trigger] family_entries(fam, old_self.slots(), TRAFFIC_COUNT as int)[e]
                    == (old_self.slots()[fam.owners()[t].key()], fam.owners()[t]);
            }
            assert(self.families().dom() =~= old_self.families().dom());
            lemma_wf_transfer(old_self, *self);
        }
        Ok(Some(owners))
    }
}

/// The ownership invariant depends only on lanes, slots, the seed, the
/// allocator, the capacity, and which owners families reserve and activate.
pub proof fn lemma_wf_transfer(before: ClusterRuntime, after: ClusterRuntime)
    requires
        before.wf(),
        family_holds_preserved(before, after),
        after.lanes() == before.lanes(),
        after.slots() == before.slots(),
        after.seed() == before.seed(),
        after.next_lane() == before.next_lane(),
        after.bounds() == before.bounds(),
        after.max_brokers() == before.max_brokers(),
        after.refresh_turn() == before.refresh_turn(),
    ensures
        after.wf(),
{
    assert forall|b: i32| #[trigger] after.families().contains_key(b) implies {
        let family = after.families()[b];
        &&& family.wf()
        &&& forall|t: int| 0 <= t < TRAFFIC_COUNT ==>
            (#[trigger] family.active()[t] <==> after.slots().contains_key(family.owners()[t].key()))
        &&& forall|t: int| 0 <= t < TRAFFIC_COUNT ==> (#[trigger] family.owners()[t]).lane < after.next_lane()
        &&& forall|t: int, u: int| 0 <= t < u < TRAFFIC_COUNT ==> #[trigger] family.owners()[t] != #[trigger] family.owners()[u]
    } by {
        assert(before.families().contains_key(b));
    }
    assert forall|b1: i32, b2: i32, t1: int, t2: int|
        #![trigger after.families()[b1].owners()[t1], after.families()[b2].owners()[t2]]
        after.families().contains_key(b1) && after.families().contains_key(b2) && b1 != b2
            && 0 <= t1 < TRAFFIC_COUNT && 0 <= t2 < TRAFFIC_COUNT
            implies after.families()[b1].owners()[t1] != after.families()[b2].owners()[t2] by {
        assert(before.families()[b1].owners()[t1] != before.families()[b2].owners()[t2]);
    }
    if let Some(seed) = after.seed() {
        if after.family_holds(seed.owner) {
            let b = choose|b: i32| #[trigger] after.families().contains_key(b) && after.families()[b].holds(seed.owner);
            let t = choose|t: int| 0 <= t < TRAFFIC_COUNT && #[trigger] after.families()[b].owners()[t] == seed.owner;
            assert(before.families()[b].owners()[t] == seed.owner);
            assert(before.families()[b].holds(seed.owner));
        }
    }
}

/// Two runtimes whose families reserve the same owners with the same activity.
pub open spec fn family_holds_preserved(before: ClusterRuntime, after: ClusterRuntime) -> bool {
    &&& after.families().dom() == before.families().dom()
    &&& forall|b: i32| #[trigger] before.families().contains_key(b) ==> {
        &&& after.families()[b].owners() == before.families()[b].owners()
        &&& after.families()[b].active() == before.families()[b].active()
    }
}

impl ClusterRuntime {
    /// Gives every lane, and every lane started later, the SCRAM proof sender.
    pub fn install_scram_proof_sender(&mut self)
        requires
            old(self).wf(),
        ensures
            final(self).wf(),
            final(self).scram_sender(),
            final(self).lanes().len() == old(self).lanes().len(),
            forall|i: int| 0 <= i < final(self).lanes().len() ==> {
                &&& (#[trigger] final(self).lanes()[i]).facts.scram_proof_sender
                &&& final(self).lanes()[i].owner == old(self).lanes()[i].owner
            },
            final(self).slots() == old(self).slots(),
            final(self).families() == old(self).families(),
            final(self).seed() == old(self).seed(),
            final(self).next_lane() == old(self).next_lane(),
    {
        self.set_lane_senders(true);
        let ghost before = *self;
        self.scram_proof_sender = true;
        proof {
            lemma_wf_preserved_by_facts(before, *self);
        }
    }

    /// Takes the SCRAM proof sender away from the runtime and every lane.
    pub fn release_scram_proof_sender(&mut self)
        requires
            old(self).wf(),
        ensures
            final(self).wf(),
            !final(self).scram_sender(),
            final(self).lanes().len() == old(self).lanes().len(),
            forall|i: int| 0 <= i < final(self).lanes().len() ==> {
                &&& !(#[trigger] final(self).lanes()[i]).facts.scram_proof_sender
                &&& final(self).lanes()[i].owner == old(self).lanes()[i].owner
            },
            final(self).slots() == old(self).slots(),
            final(self).families() == old(self).families(),
            final(self).seed() == old(self).seed(),
            final(self).next_lane() == old(self).next_lane(),
    {
        let ghost before = *self;
        self.scram_proof_sender = false;
        proof {
            lemma_wf_preserved_by_facts(before, *self);
        }
        self.set_lane_senders(false);
    }

    fn set_lane_senders(&mut self, holds: bool)
        requires
            old(self).wf(),
        ensures
            final(self).wf(),
            final(self).lanes().len() == old(self).lanes().len(),
            forall|i: int| 0 <= i < final(self).lanes().len() ==> {
                &&& (#[trigger] final(self).lanes()[i]).facts.scram_proof_sender == holds
                &&& final(self).lanes()[i].owner == old(self).lanes()[i].owner
            },
            final(self).slots() == old(self).slots(),
            final(self).families() == old(self).families(),
            final(self).seed() == old(self).seed(),
            final(self).next_lane() == old(self).next_lane(),
            final(self).bounds() == old(self).bounds(),
            final(self).max_brokers() == old(self).max_brokers(),
            final(self).scram_sender() == old(self).scram_sender(),
            final(self).draining() == old(self).draining(),
            final(self).refresh_turn() == old(self).refresh_turn(),
    {
        let ghost old_self = *self;
        let mut index: usize = 0;
        while index < self.lanes.len()
            invariant
                old_self.wf(),
                index <= self.lanes().len(),
                self.lanes().len() == old_self.lanes().len(),
                forall|i: int| 0 <= i < self.lanes().len() ==> (#[trigger] self.lanes()[i]).owner == old_self.lanes()[i].owner,
                forall|i: int| 0 <= i < index ==> (#[trigger] self.lanes()[i]).facts.scram_proof_sender == holds,
                self.slots() == old_self.slots(),
                self.families() == old_self.families(),
                self.seed() == old_self.seed(),
                self.next_lane() == old_self.next_lane(),
                self.bounds() == old_self.bounds(),
                self.max_brokers() == old_self.max_brokers(),
                self.scram_sender() == old_self.scram_sender(),
                self.draining() == old_self.draining(),
                self.refresh_turn() == old_self.refresh_turn(),
            decreases self.lanes().len() - index,
        {
            self.lanes[index].facts.scram_proof_sender = holds;
            index = index + 1;
        }
        proof {
            assert forall|i: int| 0 <= i < self.lanes().len() implies {
                &&& #[trigger] self.slots().contains_key(self.lanes()[i].owner.key())
                &&& self.slots()[self.lanes()[i].owner.key()] == i
            } by {
                assert(old_self.slots().contains_key(old_self.lanes()[i].owner.key()));
            }
        }
    }

    /// The lane whose live connection is `connection`: none when no lane
    /// holds it, a failure when more than one does.
    pub fn scram_proof_lane_index(&self, connection: u64) -> (found: Result<Option<usize>, ClusterError>)
        requires
            self.wf(),
        ensures
            found matches Ok(Some(i)) ==> i < self.lanes().len() && self.lanes()[i as int].facts.connection == Some(connection)
                && forall|j: int| 0 <= j < self.lanes().len() && j != i ==> self.lanes()[j].facts.connection != Some(connection),
            found == Ok::<Option<usize>, ClusterError>(None) <==>
                forall|j: int| 0 <= j < self.lanes().len() ==> self.lanes()[j].facts.connection != Some(connection),
            found is Err ==> found == Err::<Option<usize>, ClusterError>(ClusterError::ScramProofOwnerDuplicated)
                && exists|j: int, k: int| 0 <= j < k < self.lanes().len()
                    && self.lanes()[j].facts.connection == Some(connection) && self.lanes()[k].facts.connection == Some(connection),
    {
        let mut first: Option<usize> = None;
        let mut index: usize = 0;
        while index < self.lanes.len()
            invariant
                index <= self.lanes().len(),
                first matches Some(i) ==> i < index && self.lanes()[i as int].facts.connection == Some(connection)
                    && forall|j: int| 0 <= j < index && j != i ==> self.lanes()[j].facts.connection != Some(connection),
                first is None ==> forall|j: int| 0 <= j < index ==> self.lanes()[j].facts.connection != Some(connection),
            decreases self.lanes().len() - index,
        {
            if self.lanes[index].facts.connection == Some(connection) {
                match first {
                    Some(_) => return Err(ClusterError::ScramProofOwnerDuplicated),
                    None => first = Some(index),
                }
            }
            index = index + 1;
        }
        match first {
            Some(index) => {
                let owner = self.lanes[index].owner;
                match self.slots.get(&owner.slot_key()) {
                    Some(slot) => {
                        if *slot != index {
                            return Err(ClusterError::OwnerStale);
                        }
                    },
                    None => return Err(ClusterError::OwnerStale),
                }
                Ok(Some(index))
            },
            None => Ok(None),
        }
    }

    /// Validates ownership and marks the cluster draining; returns the owners
    /// of the non-terminal lanes, in lane order, whose sessions must begin
    /// draining.
    pub fn begin_cluster_drain(&mut self) -> (result: Result<Vec<DirectRefreshOwner>, ClusterError>)
        requires
            old(self).wf(),
        ensures
            final(self).wf(),
            !old(self).all_lanes_claimed() ==> result == Err::<Vec<DirectRefreshOwner>, ClusterError>(ClusterError::LaneUnclaimed)
                && final(self).same_view(*old(self)),
            old(self).all_lanes_claimed() ==> {
                &&& result matches Ok(owners)
                &&& owners@ == nonterminal_lane_owners(old(self).lanes())
                &&& final(self).draining()
                &&& final(self).pending_seed() is None
                &&& final(self).lanes() == old(self).lanes()
                &&& final(self).slots() == old(self).slots()
                &&& final(self).families() == old(self).families()
                &&& final(self).seed() == old(self).seed()
                &&& final(self).next_lane() == old(self).next_lane()
            },
    {
        match self.validate_cluster_ownership() {
            Ok(()) => {},
            Err(error) => return Err(error),
        }
        self.cluster_draining = true;
        self.pending_seed = None;
        let mut owners: Vec<DirectRefreshOwner> = Vec::new();
        let mut index: usize = 0;
        while index < self.lanes.len()
            invariant
                index <= self.lanes().len(),
                owners@ == nonterminal_lane_owners(self.lanes().take(index as int)),
            decreases self.lanes().len() - index,
        {
            if !self.lanes[index].facts.terminal {
                owners.push(self.lanes[index].owner);
            }
            index = index + 1;
            proof {
                assert(self.lanes().take(index as int).drop_last() =~= self.lanes().take(index - 1));
            }
        }
        proof {
            assert(self.lanes().take(self.lanes().len() as int) =~= self.lanes());
        }
        Ok(owners)
    }

    /// Whether a draining cluster has settled: ownership is valid, every
    /// waiter outside the lanes has settled, no seed offer is kept, no SCRAM
    /// sender is held, and every lane is reclaimable.
    pub fn cluster_is_terminal(&self, waiters_settled: bool) -> (result: Result<bool, ClusterError>)
        requires
            self.wf(),
        ensures
            !self.all_lanes_claimed() ==> result == Err::<bool, ClusterError>(ClusterError::LaneUnclaimed),
            self.all_lanes_claimed() ==> result == Ok::<bool, ClusterError>(
                self.draining() && waiters_settled && self.pending_seed() is None && !self.scram_sender()
                    && forall|i: int| 0 <= i < self.lanes().len() ==> (#[trigger] self.lanes()[i]).facts.is_reclaimable()),
    {
        match self.validate_cluster_ownership() {
            Ok(()) => {},
            Err(error) => return Err(error),
        }
        if !self.cluster_draining {
            return Ok(false);
        }
        if !waiters_settled || self.pending_seed.is_some() || self.scram_proof_sender {
            return Ok(false);
        }
        let mut index: usize = 0;
        while index < self.lanes.len()
            invariant
                self.all_lanes_claimed(),
                index <= self.lanes().len(),
                forall|i: int| 0 <= i < index ==> (#[trigger] self.lanes()[i]).facts.is_reclaimable(),
            decreases self.lanes().len() - index,
        {
            if !reclaimable(&self.lanes[index].facts) {
                return Ok(false);
            }
            index = index + 1;
        }
        Ok(true)
    }
}

/// Whether `build` may return a plan for `arg` and starting that plan
/// under `owner` may fail with `error`.
pub open spec fn built_then_failed<A, P, E, B: FnOnce(A) -> Result<P, E>, S: FnOnce(P, BorneraLaneOwner) -> Result<LaneFacts, E>>(
    build: B, arg: A, start: S, owner: BorneraLaneOwner, error: E) -> bool
{
    exists|plan: P| call_ensures(build, (arg,), Ok::<P, E>(plan)) && call_ensures(start, (plan, owner), Err::<LaneFacts, E>(error))
}

/// Whether `build` may return a plan for `arg`, starting that plan under
/// `owner` may yield a lane, and `after` files that lane after `before`'s
/// lanes, under `key` and sharing `before`'s SCRAM proof sender.
pub open spec fn built_then_started<A, P, E, B: FnOnce(A) -> Result<P, E>, S: FnOnce(P, BorneraLaneOwner) -> Result<LaneFacts, E>>(
    build: B, arg: A, start: S, owner: BorneraLaneOwner, before: ClusterRuntime, after: ClusterRuntime, key: DirectRefreshOwner) -> bool
{
    exists|plan: P, facts: LaneFacts| {
        &&& call_ensures(build, (arg,), Ok::<P, E>(plan))
        &&& call_ensures(start, (plan, owner), Ok::<LaneFacts, E>(facts))
        &&& after.lanes() == before.lanes().push(LaneRecord { owner: key, facts: started_facts(facts, before.scram_sender()) })
    }
}

/// Whether starting `plan` under `before`'s next owner may yield a lane
/// that, swapped in for `before`'s seed for `generation`, gives `after`.
pub open spec fn replaced_from_plan<P, E, S: FnOnce(P, BorneraLaneOwner) -> Result<LaneFacts, E>>(
    start: S, plan: P, before: ClusterRuntime, after: ClusterRuntime, generation: u64) -> bool
{
    exists|facts: LaneFacts| {
        &&& call_ensures(start, (plan, before.next_owner()), Ok::<LaneFacts, E>(facts))
        &&& after.seed_replaced(before, refresh_owner_spec(before.next_owner()), generation, facts)
    }
}

/// Whether `build` may return a plan for `arg` from which the seed of
/// `before` was replaced, as `replaced_from_plan` says, giving `after`.
pub open spec fn replaced_from_build<A, P, E, B: FnOnce(A) -> Result<P, E>, S: FnOnce(P, BorneraLaneOwner) -> Result<LaneFacts, E>>(
    build: B, arg: A, start: S, before: ClusterRuntime, after: ClusterRuntime, generation: u64) -> bool
{
    exists|plan: P| call_ensures(build, (arg,), Ok::<P, E>(plan)) && replaced_from_plan(start, plan, before, after, generation)
}

/// As `replaced_from_build`, for some endpoint of value `endpoint`.
pub open spec fn replaced_from_kept<P, E, B: FnOnce(BrokerEndpoint) -> Result<P, E>, S: FnOnce(P, BorneraLaneOwner) -> Result<LaneFacts, E>>(
    build: B, endpoint: (Seq<u8>, u16), start: S, before: ClusterRuntime, after: ClusterRuntime, generation: u64) -> bool
{
    exists|given: BrokerEndpoint| given.value() == endpoint && replaced_from_build(build, given, start, before, after, generation)
}

/// As `built_then_failed`, for some endpoint of value `endpoint`.
pub open spec fn kept_built_then_failed<P, E, B: FnOnce(BrokerEndpoint) -> Result<P, E>, S: FnOnce(P, BorneraLaneOwner) -> Result<LaneFacts, E>>(
    build: B, endpoint: (Seq<u8>, u16), start: S, owner: BorneraLaneOwner, error: E) -> bool
{
    exists|given: BrokerEndpoint| given.value() == endpoint && built_then_failed(build, given, start, owner, error)
}

/// Whether, if there is a plan `i`, it is a plan `build` may return for
/// traffic class `i`.
pub open spec fn plan_built<P, E, B: Fn(TrafficClass) -> Result<P, E>>(build: B, plans: Seq<P>, i: int) -> bool {
    i < plans.len() ==> call_ensures(build, (traffic_of(i),), Ok::<P, E>(plans[i]))
}

/// Whether `plans` are plans that `build` may return for the first
/// `plans.len()` traffic classes, in stable order.
pub open spec fn plans_built<P, E, B: Fn(TrafficClass) -> Result<P, E>>(build: B, plans: Seq<P>) -> bool {
    &&& plans.len() <= TRAFFIC_COUNT
    &&& plan_built(build, plans, 0)
    &&& plan_built(build, plans, 1)
    &&& plan_built(build, plans, 2)
    &&& plan_built(build, plans, 3)
}

/// Whether, if there is a lane `i`, it is a lane `start` may yield for
/// `plans[i]` under `owners[i]`.
pub open spec fn lane_started<P, E, S: Fn(P, BorneraLaneOwner) -> Result<LaneFacts, E>>(
    start: S, plans: Seq<P>, owners: Seq<BorneraLaneOwner>, staged: Seq<LaneFacts>, i: int) -> bool
{
    i < staged.len() ==> call_ensures(start, (plans[i], owners[i]), Ok::<LaneFacts, E>(staged[i]))
}

/// Whether each `staged[i]` is a lane `start` may yield for `plans[i]` under
/// `owners[i]`.
pub open spec fn lanes_started<P, E, S: Fn(P, BorneraLaneOwner) -> Result<LaneFacts, E>>(
    start: S, plans: Seq<P>, owners: Seq<BorneraLaneOwner>, staged: Seq<LaneFacts>) -> bool
{
    &&& staged.len() <= TRAFFIC_COUNT
    &&& lane_started(start, plans, owners, staged, 0)
    &&& lane_started(start, plans, owners, staged, 1)
    &&& lane_started(start, plans, owners, staged, 2)
    &&& lane_started(start, plans, owners, staged, 3)
}

/// Whether `error` is what building the plan of the first traffic class, in
/// stable order, whose build fails may yield, every earlier class having
/// built a plan.
pub open spec fn family_plan_failed<P, E, B: Fn(TrafficClass) -> Result<P, E>>(build: B, error: E) -> bool {
    exists|plans: Seq<P>| {
        &&& plans.len() < TRAFFIC_COUNT
        &&& plans_built(build, plans)
        &&& call_ensures(build, (traffic_of(plans.len() as int),), Err::<P, E>(error))
    }
}

/// Whether, with the four plans built in stable order, the lanes started
/// from the first plans under the first `owners` are `started` (last started
/// first), and starting the next plan under the next owner may fail with
/// `error`.
pub open spec fn family_start_failed<P, E, B: Fn(TrafficClass) -> Result<P, E>, S: Fn(P, BorneraLaneOwner) -> Result<LaneFacts, E>>(
    build: B, start: S, owners: Seq<BorneraLaneOwner>, error: E, started: Seq<LaneFacts>) -> bool
{
    exists|plans: Seq<P>, staged: Seq<LaneFacts>| {
        &&& plans.len() == TRAFFIC_COUNT
        &&& plans_built(build, plans)
        &&& staged.len() < TRAFFIC_COUNT
        &&& lanes_started(start, plans, owners, staged)
        &&& call_ensures(start, (plans[staged.len() as int], owners[staged.len() as int]), Err::<LaneFacts, E>(error))
        &&& started.len() == staged.len()
        &&& forall|i: int| 0 <= i < started.len() ==> #[trigger] started[i] == staged[staged.len() - 1 - i]
    }
}

/// Whether `after` files, after `before`'s lanes, the four lanes started
/// from the plans built in stable traffic order, lane `i` from plan `i`
/// under `owners[i]`, each filed under `keys[i]`.
pub open spec fn family_lanes_filed<P, E, B: Fn(TrafficClass) -> Result<P, E>, S: Fn(P, BorneraLaneOwner) -> Result<LaneFacts, E>>(
    build: B, start: S, owners: Seq<BorneraLaneOwner>, keys: Seq<DirectRefreshOwner>, before: ClusterRuntime, after: ClusterRuntime) -> bool
{
    exists|plans: Seq<P>, staged: Seq<LaneFacts>| {
        &&& plans.len() == TRAFFIC_COUNT
        &&& staged.len() == TRAFFIC_COUNT
        &&& plans_built(build, plans)
        &&& lanes_started(start, plans, owners, staged)
        &&& after.lanes() == before.lanes() + published_lanes(keys, staged, before.scram_sender())
    }
}

/// A kept seed offer only grows: an offer the runtime keeps is newer than
/// the installed seed and than any offer it already keeps, and an offer that
/// is not newer than the kept one is stale.
pub proof fn law_kept_seed_offer_only_grows(rt: ClusterRuntime, generation: u64, bootstrap_blocks: bool, replacement_blocked: bool)
    requires
        rt.wf(),
    ensures
        rt.seed_offer(generation, bootstrap_blocks, replacement_blocked) == Ok::<SeedOffer, ClusterError>(SeedOffer::Retained) ==> {
            &&& generation > rt.seed().unwrap().generation
            &&& rt.pending_seed() matches Some((kept, _)) ==> generation > kept
        },
        rt.seed() is Some && (rt.pending_seed() matches Some((kept, _)) && generation <= kept)
            ==> rt.seed_offer(generation, bootstrap_blocks, replacement_blocked) == Ok::<SeedOffer, ClusterError>(SeedOffer::Stale),
{
}

/// A draining cluster takes no seed offer: every offer to an installed seed
/// is stale.
pub proof fn law_draining_cluster_drops_seed_offers(rt: ClusterRuntime, generation: u64, bootstrap_blocks: bool, replacement_blocked: bool)
    requires
        rt.wf(),
        rt.draining(),
        rt.seed() is Some,
    ensures
        rt.seed_offer(generation, bootstrap_blocks, replacement_blocked) == Ok::<SeedOffer, ClusterError>(SeedOffer::Stale),
{
}


/// Whether building the plan for some endpoint of value `endpoint` may fail
/// with `error`.
pub open spec fn endpoint_plan_may_fail<P, E, B: FnOnce(BrokerEndpoint) -> Result<P, E>>(
    build: B, endpoint: (Seq<u8>, u16), error: E) -> bool
{
    exists|given: BrokerEndpoint| given.value() == endpoint && call_ensures(build, (given,), Err::<P, E>(error))
}

/// Why a family transaction failed.
#[derive(Debug)]
pub enum FamilyFailure<E> {
    /// The runtime refused the transaction.
    Refused(ClusterError),
    /// Building a lane plan failed.
    Plan(E),
    /// Starting a lane failed; the lanes started before it, last started
    /// first, for the caller to roll back.
    Start(E, Vec<LaneFacts>),
}

/// Why a transaction that plans and starts a lane failed.
#[derive(Debug, PartialEq, Eq)]
pub enum StartFailure<E> {
    /// The runtime refused the transaction.
    Refused(ClusterError),
    /// Building the lane's plan failed.
    Plan(E),
    /// Starting the planned lane failed.
    Start(E),
}

/// What offering a seed generation meets, before any lane plan is built.
#[derive(Clone, Copy, Debug, PartialEq, Eq, Structural)]
pub enum SeedOffer {
    /// The installed seed cannot be replaced yet; the offer is kept and
    /// retried once it can.
    Retained,
    /// The offer is not newer than the installed seed, nor than a kept
    /// offer, or the cluster drains.
    Stale,
    /// A replacement lane may be planned and started.
    Replaceable,
}

/// What offering a seed generation did.
#[derive(Clone, Copy, Debug, PartialEq, Eq, Structural)]
pub enum SeedReplacement {
    /// The seed lane was replaced by the lane filed under this owner.
    Replaced(DirectRefreshOwner),
    /// The offer was dropped.
    Stale,
    /// The offer was kept for a later retry.
    Retained,
}

impl ClusterRuntime {
    /// What offering a seed of `generation` meets: a draining cluster, a
    /// generation that is not newer than the installed seed or than the kept
    /// offer, is stale; a blocking bootstrap or replacement, or a seed lane
    /// that still holds something, keeps the offer.
    pub open spec fn seed_offer(&self, generation: u64, bootstrap_blocks: bool, replacement_blocked: bool)
        -> Result<SeedOffer, ClusterError>
    {
        match self.seed() {
            None => Err(ClusterError::SeedNotInstalled),
            Some(current) => if self.draining() || generation <= current.generation {
                Ok(SeedOffer::Stale)
            } else if self.pending_seed() matches Some((pending, _)) && generation <= pending {
                Ok(SeedOffer::Stale)
            } else if bootstrap_blocks || replacement_blocked || !self.lane_at_key(current.owner.key()).facts.is_reclaimable() {
                Ok(SeedOffer::Retained)
            } else {
                Ok(SeedOffer::Replaceable)
            },
        }
    }

    /// Decides, without changing anything, what offering a seed of
    /// `generation` meets.
    pub fn check_seed_offer(&self, generation: u64, bootstrap_blocks: bool, replacement_blocked: bool)
        -> (offer: Result<SeedOffer, ClusterError>)
        requires
            self.wf(),
        ensures
            offer == self.seed_offer(generation, bootstrap_blocks, replacement_blocked),
    {
        let current = match self.seed {
            Some(current) => current,
            None => return Err(ClusterError::SeedNotInstalled),
        };
        if self.cluster_draining || generation <= current.generation {
            return Ok(SeedOffer::Stale);
        }
        let superseded = match &self.pending_seed {
            Some(pending) => generation <= pending.generation,
            None => false,
        };
        if superseded {
            return Ok(SeedOffer::Stale);
        }
        if bootstrap_blocks || replacement_blocked {
            return Ok(SeedOffer::Retained);
        }
        let index = match self.index(current.owner) {
            Ok(index) => index,
            Err(error) => return Err(error),
        };
        if !reclaimable(&self.lanes[index].facts) {
            return Ok(SeedOffer::Retained);
        }
        Ok(SeedOffer::Replaceable)
    }

    /// The kept seed offer's generation, if any.
    pub fn pending_seed_generation(&self) -> (generation: Option<u64>)
        ensures
            generation == match self.pending_seed() {
                Some((pending, _)) => Some(pending),
                None => None::<u64>,
            },
    {
        match &self.pending_seed {
            Some(pending) => Some(pending.generation),
            None => None,
        }
    }

    /// Whether `count` more lane identities can be reserved.
    pub open spec fn identities_left(&self, count: int) -> bool {
        self.next_endpoint() < u64::MAX && self.next_lane() + count <= u32::MAX
    }

    /// The owner the next single-lane reservation hands out.
    pub open spec fn next_owner(&self) -> BorneraLaneOwner {
        BorneraLaneOwner { endpoint: self.next_endpoint(), lane: self.next_lane() }
    }

    /// `self` is `before` with one lane identity spent and nothing else
    /// changed.
    pub open spec fn spent_one(&self, before: ClusterRuntime) -> bool {
        &&& self.lanes() == before.lanes()
        &&& self.slots() == before.slots()
        &&& self.families() == before.families()
        &&& self.seed() == before.seed()
        &&& self.pending_seed() == before.pending_seed()
        &&& self.next_lane() == before.next_lane() + 1
        &&& self.next_endpoint() == before.next_endpoint() + 1
        &&& self.frame_unchanged(before)
    }

    /// The limits, the directory, the refresh ring, the drain and the SCRAM
    /// proof sender are those of `before`.
    pub open spec fn frame_unchanged(&self, before: ClusterRuntime) -> bool {
        &&& self.bounds() == before.bounds()
        &&& self.max_brokers() == before.max_brokers()
        &&& self.directory() == before.directory()
        &&& self.directory_generation() == before.directory_generation()
        &&& self.refresh_turn() == before.refresh_turn()
        &&& self.refresh_cursor() == before.refresh_cursor()
        &&& self.draining() == before.draining()
        &&& self.scram_sender() == before.scram_sender()
    }
}

impl ClusterRuntime {
    /// Whether a seed is installed.
    pub fn has_seed(&self) -> (installed: bool)
        ensures
            installed == self.seed() is Some,
    {
        self.seed.is_some()
    }

    /// The installed seed.
    pub fn seed_slot(&self) -> (seed: Option<SeedSlot>)
        ensures
            seed == self.seed(),
    {
        self.seed
    }

    /// Checks that no seed is installed, reserves the seed's owner and checks
    /// that its lane can be filed. The reservation is spent even when the
    /// lane cannot be filed.
    pub fn prepare_seed_install(&mut self) -> (result: Result<BorneraLaneOwner, ClusterError>)
        requires
            old(self).wf(),
        ensures
            final(self).wf(),
            old(self).seed() is Some ==> result == Err::<BorneraLaneOwner, ClusterError>(ClusterError::SeedAlreadyInstalled)
                && final(self).same_view(*old(self)),
            old(self).seed() is None && !(old(self).next_endpoint() < u64::MAX && old(self).next_lane() + 1 <= u32::MAX)
                ==> result == Err::<BorneraLaneOwner, ClusterError>(ClusterError::IdentitiesExhausted) && final(self).same_view(*old(self)),
            old(self).seed() is None && old(self).next_endpoint() < u64::MAX && old(self).next_lane() + 1 <= u32::MAX ==> {
                let owner = BorneraLaneOwner { endpoint: old(self).next_endpoint(), lane: old(self).next_lane() };
                &&& final(self).spent_one(*old(self))
                &&& (old(self).insert_check(refresh_owner_spec(owner)) matches Err(error)
                    ==> result == Err::<BorneraLaneOwner, ClusterError>(error))
                &&& (old(self).insert_check(refresh_owner_spec(owner)) is Ok ==> {
                    &&& result == Ok::<BorneraLaneOwner, ClusterError>(owner)
                    &&& final(self).is_fresh(refresh_owner_spec(owner))
                })
            },
    {
        if self.seed.is_some() {
            return Err(ClusterError::SeedAlreadyInstalled);
        }
        let (_, owners) = match self.reserve_endpoint_lanes(1) {
            Ok(reserved) => reserved,
            Err(error) => return Err(error),
        };
        let owner = owners[0];
        proof {
            assert(owner == reserved_lanes(owner.endpoint, owner.lane, 1)[0]);
            self.lemma_reserved_owner_fresh(refresh_owner_spec(owner));
        }
        match self.preflight_insert(refresh_owner(owner)) {
            Ok(()) => Ok(owner),
            Err(error) => Err(error),
        }
    }

    /// An owner at or above the allocator's previous mark is fresh.
    proof fn lemma_reserved_owner_fresh(&self, owner: DirectRefreshOwner)
        requires
            self.wf(),
            owner.lane < self.next_lane(),
            forall|key: (u64, u32)| #[trigger] self.slots().contains_key(key) ==> key.1 < owner.lane,
            forall|b: i32, t: int| #![trigger self.families()[b].owners()[t]]
                self.families().contains_key(b) && 0 <= t < TRAFFIC_COUNT ==> self.families()[b].owners()[t].lane < owner.lane,
        ensures
            self.is_fresh(owner),
    {
        if self.family_holds(owner) {
            let b = choose|b: i32| #[trigger] self.families().contains_key(b) && self.families()[b].holds(owner);
            let t = choose|t: int| 0 <= t < TRAFFIC_COUNT && #[trigger] self.families()[b].owners()[t] == owner;
        }
        if let Some(seed) = self.seed() {
            assert(self.slots().contains_key(seed.owner.key()));
        }
    }

    /// Files the seed lane under the owner `prepare_seed_install` reserved.
    pub fn publish_seed(&mut self, owner: BorneraLaneOwner, generation: u64, facts: LaneFacts) -> (key: DirectRefreshOwner)
        requires
            old(self).wf(),
            old(self).seed() is None,
            old(self).is_fresh(refresh_owner_spec(owner)),
            old(self).insert_check(refresh_owner_spec(owner)) is Ok,
        ensures
            final(self).wf(),
            key == refresh_owner_spec(owner),
            final(self).seed() == Some(SeedSlot { owner: key, generation }),
            final(self).lanes() == old(self).lanes().push(LaneRecord { owner: key, facts: started_facts(facts, old(self).scram_sender()) }),
            final(self).slots() == old(self).slots().insert(key.key(), old(self).lanes().len() as usize),
            final(self).families() == old(self).families(),
            final(self).next_lane() == old(self).next_lane(),
            final(self).pending_seed() == old(self).pending_seed(),
            final(self).next_endpoint() == old(self).next_endpoint(),
            final(self).frame_unchanged(*old(self)),
    {
        let key = match self.insert_reserved(owner, facts) {
            Ok(key) => key,
            Err(_) => {
                proof {
                    assert(false);
                }
                refresh_owner(owner)
            },
        };
        self.seed = Some(SeedSlot { owner: key, generation });
        key
    }

    /// Installs the first seed: builds its lane plan from `endpoint`, then
    /// reserves its owner, checks that the lane can be filed, starts the lane
    /// and files it. Nothing is planned while a seed is installed, and no
    /// identity is spent when the plan cannot be built.
    #[verifier::spinoff_prover]
    pub fn install_resolved_seed<P, E, B, S>(&mut self, generation: u64, endpoint: BrokerEndpoint, build: B, start: S)
        -> (installed: Result<DirectRefreshOwner, StartFailure<E>>)
        where
            B: FnOnce(BrokerEndpoint) -> Result<P, E>,
            S: FnOnce(P, BorneraLaneOwner) -> Result<LaneFacts, E>,
        requires
            old(self).wf(),
            call_requires(build, (endpoint,)),
            forall|plan: P, owner: BorneraLaneOwner| call_requires(start, (plan, owner)),
        ensures
            final(self).wf(),
            old(self).seed() is Some ==> installed == Err::<DirectRefreshOwner, StartFailure<E>>(
                StartFailure::Refused(ClusterError::SeedAlreadyInstalled)) && final(self).same_view(*old(self)),
            installed matches Err(StartFailure::Plan(error)) ==> {
                &&& old(self).seed() is None
                &&& call_ensures(build, (endpoint,), Err::<P, E>(error))
                &&& final(self).same_view(*old(self))
            },
            installed matches Err(StartFailure::Refused(error)) ==> old(self).seed() is Some || {
                ||| error == ClusterError::IdentitiesExhausted && !old(self).identities_left(1) && final(self).same_view(*old(self))
                ||| old(self).identities_left(1) && old(self).insert_check(refresh_owner_spec(old(self).next_owner())) == Err::<(), ClusterError>(error)
                    && final(self).spent_one(*old(self))
            },
            installed matches Err(StartFailure::Start(error)) ==> {
                &&& old(self).seed() is None
                &&& old(self).identities_left(1)
                &&& old(self).insert_check(refresh_owner_spec(old(self).next_owner())) is Ok
                &&& built_then_failed(build, endpoint, start, old(self).next_owner(), error)
                &&& final(self).spent_one(*old(self))
            },
            installed matches Ok(key) ==> {
                &&& old(self).seed() is None
                &&& key == refresh_owner_spec(old(self).next_owner())
                &&& final(self).seed() == Some(SeedSlot { owner: key, generation })
                &&& built_then_started(build, endpoint, start, old(self).next_owner(), *old(self), *final(self), key)
                &&& final(self).slots() == old(self).slots().insert(key.key(), old(self).lanes().len() as usize)
                &&& final(self).families() == old(self).families()
                &&& final(self).pending_seed() == old(self).pending_seed()
                &&& final(self).frame_unchanged(*old(self))
                &&& final(self).next_lane() == old(self).next_lane() + 1
                &&& final(self).next_endpoint() == old(self).next_endpoint() + 1
            },
    {
        if self.seed.is_some() {
            return Err(StartFailure::Refused(ClusterError::SeedAlreadyInstalled));
        }
        let ghost given = endpoint;
        let plan = match build(endpoint) {
            Ok(plan) => plan,
            Err(error) => return Err(StartFailure::Plan(error)),
        };
        proof {
            assert(call_ensures(build, (given,), Ok::<P, E>(plan)));
        }
        let ghost before = *self;
        let owner = match self.prepare_seed_install() {
            Ok(owner) => owner,
            Err(error) => return Err(StartFailure::Refused(error)),
        };
        proof {
            assert(before.insert_check(refresh_owner_spec(owner)) is Ok);
            assert(self.insert_check(refresh_owner_spec(owner)) is Ok);
        }
        let ghost planned = plan;
        let facts = match start(plan, owner) {
            Ok(facts) => facts,
            Err(error) => {
                proof {
                    assert(owner == before.next_owner());
                    assert(call_ensures(start, (planned, owner), Err::<LaneFacts, E>(error)));
                    assert(built_then_failed(build, given, start, before.next_owner(), error));
                }
                return Err(StartFailure::Start(error));
            },
        };
        let ghost started = facts;
        let key = self.publish_seed(owner, generation, facts);
        proof {
            assert(call_ensures(start, (planned, owner), Ok::<LaneFacts, E>(started)));
            assert(built_then_started(build, given, start, before.next_owner(), *old(self), *self, key));
        }
        Ok(key)
    }

    /// Reserves the owner of a replacement seed lane.
    fn reserve_seed_owner(&mut self) -> (owner: Result<BorneraLaneOwner, ClusterError>)
        requires
            old(self).wf(),
        ensures
            final(self).wf(),
            !old(self).identities_left(1) ==> owner == Err::<BorneraLaneOwner, ClusterError>(ClusterError::IdentitiesExhausted)
                && final(self).same_view(*old(self)),
            old(self).identities_left(1) ==> {
                &&& owner == Ok::<BorneraLaneOwner, ClusterError>(old(self).next_owner())
                &&& final(self).spent_one(*old(self))
                &&& final(self).is_fresh(refresh_owner_spec(old(self).next_owner()))
                &&& final(self).same_view_but_identities(*old(self))
            },
    {
        let (_, owners) = match self.reserve_endpoint_lanes(1) {
            Ok(reserved) => reserved,
            Err(error) => return Err(error),
        };
        let owner = owners[0];
        proof {
            assert(owner == reserved_lanes(owner.endpoint, owner.lane, 1)[0]);
            self.lemma_reserved_owner_fresh(refresh_owner_spec(owner));
        }
        Ok(owner)
    }

    /// Whether the kept offer of `generation` can replace the seed now; the
    /// seed it would replace.
    pub open spec fn seed_offer_now(&self, generation: u64, bootstrap_blocks: bool, replacement_blocked: bool) -> Option<SeedSlot> {
        match self.seed() {
            Some(current) => if !self.draining() && generation > current.generation && !bootstrap_blocks && !replacement_blocked
                && self.slots().contains_key(current.owner.key()) && self.lane_at_key(current.owner.key()).facts.is_reclaimable() {
                Some(current)
            } else {
                None
            },
            None => None,
        }
    }

    /// `self` differs from `before` in the kept seed offer at most.
    pub open spec fn same_view_but_pending(&self, before: ClusterRuntime) -> bool {
        &&& self.lanes() == before.lanes()
        &&& self.slots() == before.slots()
        &&& self.families() == before.families()
        &&& self.seed() == before.seed()
        &&& self.bounds() == before.bounds()
        &&& self.max_brokers() == before.max_brokers()
        &&& self.next_lane() == before.next_lane()
        &&& self.next_endpoint() == before.next_endpoint()
        &&& self.directory() == before.directory()
        &&& self.directory_generation() == before.directory_generation()
        &&& self.refresh_turn() == before.refresh_turn()
        &&& self.refresh_cursor() == before.refresh_cursor()
        &&& self.draining() == before.draining()
        &&& self.scram_sender() == before.scram_sender()
    }

    /// `self` differs from `before` in the identity allocator at most.
    pub open spec fn same_view_but_identities(&self, before: ClusterRuntime) -> bool {
        &&& self.lanes() == before.lanes()
        &&& self.slots() == before.slots()
        &&& self.families() == before.families()
        &&& self.seed() == before.seed()
        &&& self.pending_seed() == before.pending_seed()
        &&& self.bounds() == before.bounds()
        &&& self.max_brokers() == before.max_brokers()
        &&& self.directory() == before.directory()
        &&& self.directory_generation() == before.directory_generation()
        &&& self.refresh_turn() == before.refresh_turn()
        &&& self.refresh_cursor() == before.refresh_cursor()
        &&& self.draining() == before.draining()
        &&& self.scram_sender() == before.scram_sender()
    }

    /// The seed lane of `before` replaced, in place, by `facts` filed under
    /// `key` for `generation`; a kept offer is dropped with it.
    pub open spec fn seed_replaced(&self, before: ClusterRuntime, key: DirectRefreshOwner, generation: u64, facts: LaneFacts) -> bool {
        let index = before.slots()[before.seed().unwrap().owner.key()];
        &&& self.seed() == Some(SeedSlot { owner: key, generation })
        &&& self.lanes() == before.lanes().update(index as int, LaneRecord { owner: key, facts: started_facts(facts, before.scram_sender()) })
        &&& self.slots() == before.slots().remove(before.seed().unwrap().owner.key()).insert(key.key(), index)
        &&& self.families() == before.families()
        &&& self.pending_seed() is None
        &&& self.frame_unchanged(before)
    }

    /// Replaces the reclaimable seed lane, in place, by the lane started for
    /// a newer generation under a freshly reserved owner.
    fn commit_seed_replacement(&mut self, owner: BorneraLaneOwner, generation: u64, facts: LaneFacts) -> (key: DirectRefreshOwner)
        requires
            old(self).wf(),
            old(self).seed() is Some,
            generation > old(self).seed().unwrap().generation,
            old(self).is_fresh(refresh_owner_spec(owner)),
        ensures
            final(self).wf(),
            key == refresh_owner_spec(owner),
            final(self).seed_replaced(*old(self), key, generation, facts),
            final(self).next_lane() == old(self).next_lane(),
            final(self).next_endpoint() == old(self).next_endpoint(),
    {
        let current = self.seed.unwrap();
        let index = match self.index(current.owner) {
            Ok(index) => index,
            Err(_) => {
                proof {
                    assert(false);
                }
                0
            },
        };
        let key = refresh_owner(owner);
        let facts = with_sender(facts, self.scram_proof_sender);
        let ghost old_self = *self;
        self.lanes.set(index, LaneRecord { owner: key, facts });
        self.slots.remove(&current.owner.slot_key());
        self.slots.insert(key.slot_key(), index);
        self.seed = Some(SeedSlot { owner: key, generation });
        self.pending_seed = None;
        proof {
            let old_key = current.owner.key();
            assert forall|i: int| 0 <= i < self.lanes().len() implies {
                &&& #[trigger] self.slots().contains_key(self.lanes()[i].owner.key())
                &&& self.slots()[self.lanes()[i].owner.key()] == i
            } by {
                if i != index {
                    assert(old_self.slots().contains_key(old_self.lanes()[i].owner.key()));
                    assert(old_self.lanes()[i].owner.key() != old_key);
                }
            }
            assert forall|k: (u64, u32)| #[trigger] self.slots().contains_key(k) implies {
                &&& self.slots()[k] < self.lanes().len()
                &&& self.lanes()[self.slots()[k] as int].owner.key() == k
            } by {
                if k != key.key() {
                    assert(old_self.slots().contains_key(k));
                    assert(old_self.slots()[k] != index);
                }
            }
            assert forall|b: i32| #[trigger] self.families().contains_key(b) implies {
                let family = self.families()[b];
                forall|t: int| 0 <= t < TRAFFIC_COUNT ==>
                    (#[trigger] family.active()[t] <==> self.slots().contains_key(family.owners()[t].key()))
            } by {
                let family = self.families()[b];
                assert forall|t: int| 0 <= t < TRAFFIC_COUNT implies
                    (#[trigger] family.active()[t] <==> self.slots().contains_key(family.owners()[t].key())) by {
                    if family.owners()[t] == key {
                        assert(family.holds(key));
                    }
                    if family.owners()[t] == current.owner {
                        assert(family.holds(current.owner));
                    }
                }
            }
        }
        key
    }

    /// Replaces the reclaimable seed by a lane for `generation` started from
    /// `plan`: reserves the new owner, starts the lane and swaps it in.
    fn replace_planned_seed<P, E, S>(&mut self, generation: u64, plan: P, start: S)
        -> (replaced: Result<DirectRefreshOwner, StartFailure<E>>)
        where
            S: FnOnce(P, BorneraLaneOwner) -> Result<LaneFacts, E>,
        requires
            old(self).wf(),
            old(self).seed() is Some,
            generation > old(self).seed().unwrap().generation,
            forall|plan: P, owner: BorneraLaneOwner| call_requires(start, (plan, owner)),
        ensures
            final(self).wf(),
            !old(self).identities_left(1) ==> replaced == Err::<DirectRefreshOwner, StartFailure<E>>(
                StartFailure::Refused(ClusterError::IdentitiesExhausted)) && final(self).same_view(*old(self)),
            replaced matches Err(StartFailure::Plan(_)) ==> false,
            replaced matches Err(StartFailure::Refused(error)) ==> !old(self).identities_left(1),
            replaced matches Err(StartFailure::Start(error)) ==> {
                &&& old(self).identities_left(1)
                &&& call_ensures(start, (plan, old(self).next_owner()), Err::<LaneFacts, E>(error))
                &&& final(self).spent_one(*old(self))
            },
            replaced matches Ok(key) ==> {
                &&& old(self).identities_left(1)
                &&& key == refresh_owner_spec(old(self).next_owner())
                &&& replaced_from_plan(start, plan, *old(self), *final(self), generation)
                &&& final(self).next_lane() == old(self).next_lane() + 1
            },
    {
        let ghost before = *self;
        let owner = match self.reserve_seed_owner() {
            Ok(owner) => owner,
            Err(error) => return Err(StartFailure::Refused(error)),
        };
        let ghost planned = plan;
        let facts = match start(plan, owner) {
            Ok(facts) => facts,
            Err(error) => return Err(StartFailure::Start(error)),
        };
        let ghost started = facts;
        let key = self.commit_seed_replacement(owner, generation, facts);
        proof {
            assert(owner == before.next_owner());
            assert(call_ensures(start, (planned, owner), Ok::<LaneFacts, E>(started)));
            assert(self.seed_replaced(before, key, generation, started));
            assert(replaced_from_plan(start, planned, before, *self, generation));
        }
        Ok(key)
    }

    /// Offers a seed of `generation` resolved to `endpoint`. A stale offer is
    /// dropped and one that cannot replace the seed yet is kept, both before
    /// any plan is built or identity spent; otherwise the replacement lane is
    /// planned, its owner reserved, and the lane started and swapped in. A
    /// failed plan leaves the runtime as it was.
    pub fn replace_resolved_seed<P, E, B, S>(
        &mut self,
        generation: u64,
        endpoint: BrokerEndpoint,
        bootstrap_blocks: bool,
        replacement_blocked: bool,
        build: B,
        start: S,
    ) -> (replaced: Result<SeedReplacement, StartFailure<E>>)
        where
            B: FnOnce(BrokerEndpoint) -> Result<P, E>,
            S: FnOnce(P, BorneraLaneOwner) -> Result<LaneFacts, E>,
        requires
            old(self).wf(),
            call_requires(build, (endpoint,)),
            forall|plan: P, owner: BorneraLaneOwner| call_requires(start, (plan, owner)),
        ensures
            final(self).wf(),
            old(self).seed_offer(generation, bootstrap_blocks, replacement_blocked) matches Err(error)
                ==> replaced == Err::<SeedReplacement, StartFailure<E>>(StartFailure::Refused(error)) && final(self).same_view(*old(self)),
            old(self).seed_offer(generation, bootstrap_blocks, replacement_blocked) == Ok::<SeedOffer, ClusterError>(SeedOffer::Stale)
                ==> replaced == Ok::<SeedReplacement, StartFailure<E>>(SeedReplacement::Stale) && final(self).same_view(*old(self)),
            old(self).seed_offer(generation, bootstrap_blocks, replacement_blocked) == Ok::<SeedOffer, ClusterError>(SeedOffer::Retained) ==> {
                &&& replaced == Ok::<SeedReplacement, StartFailure<E>>(SeedReplacement::Retained)
                &&& final(self).pending_seed() == Some((generation, endpoint.value()))
                &&& final(self).same_view_but_pending(*old(self))
            },
            old(self).seed_offer(generation, bootstrap_blocks, replacement_blocked) == Ok::<SeedOffer, ClusterError>(SeedOffer::Replaceable) ==> {
                &&& replaced matches Err(StartFailure::Plan(error)) ==> call_ensures(build, (endpoint,), Err::<P, E>(error))
                    && final(self).same_view(*old(self))
                &&& replaced matches Err(StartFailure::Refused(error)) ==> error == ClusterError::IdentitiesExhausted
                    && !old(self).identities_left(1) && final(self).same_view(*old(self))
                &&& replaced matches Err(StartFailure::Start(error)) ==> old(self).identities_left(1)
                    && built_then_failed(build, endpoint, start, old(self).next_owner(), error) && final(self).spent_one(*old(self))
                &&& replaced matches Ok(outcome) ==> {
                    &&& old(self).identities_left(1)
                    &&& outcome == SeedReplacement::Replaced(refresh_owner_spec(old(self).next_owner()))
                    &&& replaced_from_build(build, endpoint, start, *old(self), *final(self), generation)
                    &&& final(self).next_lane() == old(self).next_lane() + 1
                }
            },
    {
        let offer = match self.check_seed_offer(generation, bootstrap_blocks, replacement_blocked) {
            Ok(offer) => offer,
            Err(error) => return Err(StartFailure::Refused(error)),
        };
        match offer {
            SeedOffer::Stale => return Ok(SeedReplacement::Stale),
            SeedOffer::Retained => {
                self.pending_seed = Some(PendingSeed { generation, endpoint });
                return Ok(SeedReplacement::Retained);
            },
            SeedOffer::Replaceable => {},
        }
        let ghost given = endpoint;
        let plan = match build(endpoint) {
            Ok(plan) => plan,
            Err(error) => return Err(StartFailure::Plan(error)),
        };
        let ghost planned = plan;
        proof {
            assert(call_ensures(build, (given,), Ok::<P, E>(planned)));
        }
        match self.replace_planned_seed(generation, plan, start) {
            Ok(key) => {
                proof {
                    assert(replaced_from_plan(start, planned, *old(self), *self, generation));
                    assert(replaced_from_build(build, given, start, *old(self), *self, generation));
                }
                Ok(SeedReplacement::Replaced(key))
            },
            Err(failure) => {
                proof {
                    if failure is Start {
                        let error = failure->Start_0;
                        assert(call_ensures(start, (planned, old(self).next_owner()), Err::<LaneFacts, E>(error)));
                        assert(built_then_failed(build, given, start, old(self).next_owner(), error));
                    }
                }
                Err(failure)
            },
        }
    }

    /// Retries the kept seed offer once the seed can be replaced: nothing
    /// happens, and `false` is reported, while none is kept or the seed is
    /// still blocked or busy; otherwise the offer is taken out, its lane
    /// planned, started and swapped in, and `true` reported. A failed plan or
    /// start drops the offer.
    #[verifier::spinoff_prover]
    pub fn retry_pending_resolved_seed<P, E, B, S>(
        &mut self,
        bootstrap_blocks: bool,
        replacement_blocked: bool,
        build: B,
        start: S,
    ) -> (retried: Result<bool, StartFailure<E>>)
        where
            B: FnOnce(BrokerEndpoint) -> Result<P, E>,
            S: FnOnce(P, BorneraLaneOwner) -> Result<LaneFacts, E>,
        requires
            old(self).wf(),
            forall|endpoint: BrokerEndpoint| call_requires(build, (endpoint,)),
            forall|plan: P, owner: BorneraLaneOwner| call_requires(start, (plan, owner)),
        ensures
            final(self).wf(),
            old(self).pending_seed() is None ==> retried == Ok::<bool, StartFailure<E>>(false) && final(self).same_view(*old(self)),
            old(self).pending_seed() matches Some((generation, endpoint)) ==> {
                let offer = old(self).seed_offer_now(generation, bootstrap_blocks, replacement_blocked);
                &&& offer is None ==> retried == Ok::<bool, StartFailure<E>>(false) && final(self).same_view(*old(self))
                &&& offer is Some ==> {
                    &&& final(self).pending_seed() is None
                    &&& retried matches Err(StartFailure::Plan(error)) ==> endpoint_plan_may_fail(build, endpoint, error)
                    &&& retried matches Err(StartFailure::Refused(error)) ==> error == ClusterError::IdentitiesExhausted
                        && !old(self).identities_left(1)
                    &&& retried matches Err(StartFailure::Start(error)) ==> old(self).identities_left(1)
                        && kept_built_then_failed(build, endpoint, start, old(self).next_owner(), error)
                        && final(self).next_lane() == old(self).next_lane() + 1
                    &&& !(retried matches Ok(true)) ==> {
                        &&& final(self).lanes() == old(self).lanes()
                        &&& final(self).slots() == old(self).slots()
                        &&& final(self).seed() == old(self).seed()
                        &&& final(self).families() == old(self).families()
                    }
                    &&& retried matches Ok(replaced) ==> {
                        &&& replaced
                        &&& old(self).identities_left(1)
                        &&& replaced_from_kept(build, endpoint, start, *old(self), *final(self), generation)
                        &&& final(self).next_lane() == old(self).next_lane() + 1
                    }
                }
            },
    {
        let pending_generation = match &self.pending_seed {
            Some(pending) => pending.generation,
            None => return Ok(false),
        };
        let current = match self.seed {
            Some(current) => current,
            None => return Ok(false),
        };
        if self.cluster_draining || pending_generation <= current.generation || bootstrap_blocks || replacement_blocked {
            return Ok(false);
        }
        let index = match self.index(current.owner) {
            Ok(index) => index,
            Err(_) => return Ok(false),
        };
        if !reclaimable(&self.lanes[index].facts) {
            return Ok(false);
        }
        let pending = self.pending_seed.take().unwrap();
        let ghost before = *self;
        let ghost kept = pending.endpoint;
        let plan = match build(pending.endpoint) {
            Ok(plan) => plan,
            Err(error) => {
                proof {
                    assert(call_ensures(build, (kept,), Err::<P, E>(error)));
                    assert(endpoint_plan_may_fail(build, kept.value(), error));
                }
                return Err(StartFailure::Plan(error));
            },
        };
        let ghost planned = plan;
        proof {
            assert(call_ensures(build, (kept,), Ok::<P, E>(planned)));
        }
        match self.replace_planned_seed(pending.generation, plan, start) {
            Ok(_) => {
                proof {
                    let facts = choose|facts: LaneFacts| {
                        &&& call_ensures(start, (planned, before.next_owner()), Ok::<LaneFacts, E>(facts))
                        &&& self.seed_replaced(before, refresh_owner_spec(before.next_owner()), pending.generation, facts)
                    };
                    assert(self.seed_replaced(*old(self), refresh_owner_spec(old(self).next_owner()), pending.generation, facts));
                    assert(replaced_from_plan(start, planned, *old(self), *self, pending.generation));
                    assert(replaced_from_build(build, kept, start, *old(self), *self, pending.generation));
                    assert(replaced_from_kept(build, kept.value(), start, *old(self), *self, pending.generation));
                }
                Ok(true)
            },
            Err(failure) => {
                proof {
                    if failure is Start {
                        let error = failure->Start_0;
                        assert(call_ensures(start, (planned, before.next_owner()), Err::<LaneFacts, E>(error)));
                        assert(built_then_failed(build, kept, start, old(self).next_owner(), error));
                        assert(kept_built_then_failed(build, kept.value(), start, old(self).next_owner(), error));
                    }
                }
                Err(failure)
            },
        }
    }

    /// Reserves the four owners of a new broker family.
    fn reserve_family_owners(&mut self) -> (owners: Result<Vec<BorneraLaneOwner>, ClusterError>)
        requires
            old(self).wf(),
        ensures
            final(self).wf(),
            !old(self).identities_left(TRAFFIC_COUNT as int) ==> owners == Err::<Vec<BorneraLaneOwner>, ClusterError>(
                ClusterError::IdentitiesExhausted) && final(self).same_view(*old(self)),
            old(self).identities_left(TRAFFIC_COUNT as int) ==> {
                &&& owners matches Ok(owners)
                &&& owners@ == reserved_lanes(old(self).next_endpoint(), old(self).next_lane(), TRAFFIC_COUNT as nat)
                &&& final(self).fresh_distinct(owners@)
                &&& final(self).same_view_but_identities(*old(self))
                &&& final(self).next_lane() == old(self).next_lane() + TRAFFIC_COUNT
                &&& final(self).next_endpoint() == old(self).next_endpoint() + 1
            },
    {
        let (_, owners) = match self.reserve_endpoint_lanes(TRAFFIC_COUNT) {
            Ok(reserved) => reserved,
            Err(error) => return Err(error),
        };
        proof {
            assert forall|i: int| 0 <= i < TRAFFIC_COUNT implies self.is_fresh(#[trigger] refresh_owner_spec(owners@[i])) by {
                self.lemma_reserved_owner_fresh(refresh_owner_spec(owners@[i]));
            }
            assert forall|i: int, j: int| 0 <= i < j < TRAFFIC_COUNT implies #[trigger] owners@[i] != #[trigger] owners@[j] by {
                assert(owners@[i].lane != owners@[j].lane);
            }
        }
        Ok(owners)
    }

    /// Installs `broker`'s whole family at `endpoint`: checks family and
    /// physical capacity, builds the four lane plans in stable traffic order
    /// (stopping at the first that fails), reserves the four owners, starts
    /// lane `i` from the plan of traffic class `i` under owner `i`, and
    /// publishes the four lanes. A refusal or a failed plan leaves the runtime
    /// as it was; a failed start spends the reserved owners, files nothing,
    /// and hands back the lanes already started, last started first, for the
    /// caller to roll back.
    pub fn install_resolved_family<P, E, B, S>(&mut self, broker: i32, endpoint: BrokerEndpoint, build: B, start: S)
        -> (installed: Result<Vec<DirectRefreshOwner>, FamilyFailure<E>>)
        where
            B: Fn(TrafficClass) -> Result<P, E>,
            S: Fn(P, BorneraLaneOwner) -> Result<LaneFacts, E>,
        requires
            old(self).wf(),
            forall|traffic: TrafficClass| call_requires(build, (traffic,)),
            forall|plan: P, owner: BorneraLaneOwner| call_requires(start, (plan, owner)),
        ensures
            final(self).wf(),
            old(self).family_check(broker) matches Err(error) ==> installed == Err::<Vec<DirectRefreshOwner>, FamilyFailure<E>>(
                FamilyFailure::Refused(error)) && final(self).same_view(*old(self)),
            installed matches Err(FamilyFailure::Plan(error)) ==> {
                &&& old(self).family_check(broker) is Ok
                &&& family_plan_failed(build, error)
                &&& final(self).same_view(*old(self))
            },
            installed matches Err(FamilyFailure::Refused(error)) ==> old(self).family_check(broker) is Err || {
                &&& error == ClusterError::IdentitiesExhausted
                &&& !old(self).identities_left(TRAFFIC_COUNT as int)
                &&& final(self).same_view(*old(self))
            },
            installed matches Err(FamilyFailure::Start(error, started)) ==> {
                &&& old(self).family_check(broker) is Ok
                &&& old(self).identities_left(TRAFFIC_COUNT as int)
                &&& family_start_failed(build, start,
                    reserved_lanes(old(self).next_endpoint(), old(self).next_lane(), TRAFFIC_COUNT as nat), error, started@)
                &&& final(self).same_view_but_identities(*old(self))
                &&& final(self).next_lane() == old(self).next_lane() + TRAFFIC_COUNT
            },
            installed matches Ok(keys) ==> {
                &&& old(self).family_check(broker) is Ok
                &&& old(self).identities_left(TRAFFIC_COUNT as int)
                &&& keys@ == reserved_lanes(old(self).next_endpoint(), old(self).next_lane(), TRAFFIC_COUNT as nat)
                    .map_values(|owner: BorneraLaneOwner| refresh_owner_spec(owner))
                &&& family_lanes_filed(build, start,
                    reserved_lanes(old(self).next_endpoint(), old(self).next_lane(), TRAFFIC_COUNT as nat),
                    keys@, *old(self), *final(self))
                &&& final(self).slots().dom() == old(self).slots().dom().union(keys_of(keys@))
                &&& final(self).families().dom() == old(self).families().dom().insert(broker)
                &&& forall|b: i32| b != broker && #[trigger] old(self).families().contains_key(b) ==> final(self).families()[b] == old(self).families()[b]
                &&& final(self).families()[broker].owners() == keys@
                &&& final(self).families()[broker].active() == seq![true, true, true, true]
                &&& final(self).families()[broker].endpoint_value() == endpoint.value()
                &&& !final(self).families()[broker].retiring()
                &&& final(self).seed() == old(self).seed()
                &&& final(self).pending_seed() == old(self).pending_seed()
                &&& final(self).frame_unchanged(*old(self))
                &&& final(self).next_lane() == old(self).next_lane() + TRAFFIC_COUNT
                &&& final(self).next_endpoint() == old(self).next_endpoint() + 1
            },
    {
        match self.preflight_family(broker) {
            Ok(()) => {},
            Err(error) => return Err(FamilyFailure::Refused(error)),
        }
        let ghost checked = *self;
        let mut plans: Vec<P> = Vec::new();
        let mut failed: Option<E> = None;
        let mut order: usize = 0;
        while order < TRAFFIC_COUNT && failed.is_none()
            invariant
                order <= TRAFFIC_COUNT,
                failed is None ==> plans@.len() == order && plans_built(build, plans@),
                failed matches Some(error) ==> family_plan_failed(build, error),
                forall|traffic: TrafficClass| call_requires(build, (traffic,)),
            decreases TRAFFIC_COUNT - order,
        {
            let traffic = traffic_at(order);
            let ghost before = plans@;
            match build(traffic) {
                Ok(plan) => {
                    plans.push(plan);
                    proof {
                        assert(call_ensures(build, (traffic_of(order as int),), Ok::<P, E>(plan)));
                        assert(plans@ == before.push(plan));
                        assert(plans_built(build, plans@));
                    }
                },
                Err(error) => {
                    proof {
                        assert(call_ensures(build, (traffic_of(before.len() as int),), Err::<P, E>(error)));
                        assert(family_plan_failed(build, error));
                    }
                    failed = Some(error);
                },
            }
            order = order + 1;
        }
        if let Some(error) = failed {
            return Err(FamilyFailure::Plan(error));
        }
        let ghost built = plans@;
        let owners = match self.reserve_family_owners() {
            Ok(owners) => owners,
            Err(error) => return Err(FamilyFailure::Refused(error)),
        };
        let ghost reserved = *self;
        let mut staged: Vec<LaneFacts> = Vec::new();
        let mut failed: Option<E> = None;
        let mut index: usize = 0;
        while index < TRAFFIC_COUNT && failed.is_none()
            invariant
                index <= TRAFFIC_COUNT,
                owners@.len() == TRAFFIC_COUNT,
                built.len() == TRAFFIC_COUNT,
                plans_built(build, built),
                staged@.len() <= index,
                staged@.len() < TRAFFIC_COUNT || failed is None,
                failed is None ==> staged@.len() == index && plans@ == built.subrange(index as int, TRAFFIC_COUNT as int),
                lanes_started(start, built, owners@, staged@),
                failed matches Some(error) ==> staged@.len() < TRAFFIC_COUNT
                    && call_ensures(start, (built[staged@.len() as int], owners@[staged@.len() as int]), Err::<LaneFacts, E>(error)),
                forall|plan: P, owner: BorneraLaneOwner| call_requires(start, (plan, owner)),
            decreases TRAFFIC_COUNT - index,
        {
            let ghost remaining = plans@;
            let plan = plans.remove(0);
            let ghost planned = plan;
            let owner = owners[index];
            let ghost before = staged@;
            proof {
                assert(planned == built[index as int]);
            }
            match start(plan, owner) {
                Ok(facts) => {
                    staged.push(facts);
                    proof {
                        assert(call_ensures(start, (planned, owner), Ok::<LaneFacts, E>(facts)));
                        assert(staged@ == before.push(facts));
                        assert(lanes_started(start, built, owners@, staged@));
                        assert(plans@ =~= built.subrange(index + 1, TRAFFIC_COUNT as int));
                    }
                },
                Err(error) => {
                    proof {
                        assert(call_ensures(start, (planned, owner), Err::<LaneFacts, E>(error)));
                    }
                    failed = Some(error);
                },
            }
            index = index + 1;
        }
        if let Some(error) = failed {
            let ghost staged_view = staged@;
            let mut started: Vec<LaneFacts> = Vec::new();
            while staged.len() > 0
                invariant
                    staged@.len() + started@.len() == staged_view.len(),
                    staged@ == staged_view.take(staged@.len() as int),
                    forall|i: int| 0 <= i < started@.len() ==> #[trigger] started@[i] == staged_view[staged_view.len() - 1 - i],
                decreases staged@.len(),
            {
                let ghost before = started@;
                let lane = staged.pop().unwrap();
                started.push(lane);
                proof {
                    assert(staged@ =~= staged_view.take(staged@.len() as int));
                    assert forall|i: int| 0 <= i < started@.len() implies #[trigger] started@[i] == staged_view[staged_view.len() - 1 - i] by {
                        if i < before.len() {
                            assert(started@[i] == before[i]);
                        }
                    }
                }
            }
            proof {
                assert(family_start_failed(build, start, owners@, error, started@)) by {
                    assert(started@.len() == staged_view.len());
                }
            }
            return Err(FamilyFailure::Start(error, started));
        }
        let ghost staged_view = staged@;
        proof {
            assert(reserved.family_check(broker) == checked.family_check(broker));
        }
        match self.install_family(broker, owners, endpoint, staged) {
            Ok(keys) => {
                proof {
                    assert(family_lanes_filed(build, start, owners@, keys@, *old(self), *self)) by {
                        assert(plans_built(build, built));
                        assert(lanes_started(start, built, owners@, staged_view));
                    }
                }
                Ok(keys)
            },
            Err(_) => {
                proof {
                    assert(false);
                }
                Err(FamilyFailure::Refused(ClusterError::OwnerReused))
            },
        }
    }

    /// Activates `broker`'s lane for `traffic` at `endpoint`: an active lane
    /// is reported as it is; otherwise family and physical capacity are
    /// checked, the lane's plan is built, a new family's four owners are
    /// reserved, and the lane is started under its owner and published. A
    /// refusal or a failed plan leaves the runtime as it was; a failed start
    /// files nothing.
    pub fn activate_resolved_lane<P, E, B, S>(&mut self, broker: i32, traffic: TrafficClass, endpoint: BrokerEndpoint, build: B, start: S)
        -> (activated: Result<DirectRefreshOwner, StartFailure<E>>)
        where
            B: FnOnce(TrafficClass) -> Result<P, E>,
            S: FnOnce(P, BorneraLaneOwner) -> Result<LaneFacts, E>,
        requires
            old(self).wf(),
            call_requires(build, (traffic,)),
            forall|plan: P, owner: BorneraLaneOwner| call_requires(start, (plan, owner)),
        ensures
            final(self).wf(),
            old(self).activation_check(broker, traffic) matches Err(error) ==> activated == Err::<DirectRefreshOwner, StartFailure<E>>(
                StartFailure::Refused(error)) && final(self).same_view(*old(self)),
            old(self).activation_check(broker, traffic) matches Ok(ActivationPlan::Active(owner))
                ==> activated == Ok::<DirectRefreshOwner, StartFailure<E>>(owner) && final(self).same_view(*old(self)),
            activated matches Err(StartFailure::Plan(error)) ==> {
                &&& call_ensures(build, (traffic,), Err::<P, E>(error))
                &&& final(self).same_view(*old(self))
            },
            activated matches Err(StartFailure::Refused(error)) ==> old(self).activation_check(broker, traffic) is Err || {
                &&& old(self).activation_check(broker, traffic) == Ok::<ActivationPlan, ClusterError>(ActivationPlan::NewFamily)
                &&& error == ClusterError::IdentitiesExhausted
                &&& !old(self).identities_left(TRAFFIC_COUNT as int)
                &&& final(self).same_view(*old(self))
            },
            activated matches Err(StartFailure::Start(error)) ==> {
                &&& built_then_failed(build, traffic, start, old(self).activation_owner(broker, traffic), error)
                &&& final(self).same_view_but_identities(*old(self))
                &&& final(self).next_lane() == old(self).next_lane()
                    + if old(self).families().contains_key(broker) { 0int } else { TRAFFIC_COUNT as int }
            },
            old(self).dormant_activation(broker, traffic) matches Some(owner) ==> (activated is Ok ==> {
                &&& activated == Ok::<DirectRefreshOwner, StartFailure<E>>(owner)
                &&& built_then_started(build, traffic, start, old(self).activation_owner(broker, traffic), *old(self), *final(self), owner)
                &&& final(self).slots() == old(self).slots().insert(owner.key(), old(self).lanes().len() as usize)
                &&& final(self).families()[broker].owners() == old(self).families()[broker].owners()
                &&& final(self).families()[broker].active() == old(self).families()[broker].active().update(traffic.order(), true)
                &&& final(self).next_lane() == old(self).next_lane()
                &&& final(self).next_endpoint() == old(self).next_endpoint()
                &&& final(self).seed() == old(self).seed()
                &&& final(self).pending_seed() == old(self).pending_seed()
                &&& final(self).frame_unchanged(*old(self))
            }),
            old(self).activation_check(broker, traffic) == Ok::<ActivationPlan, ClusterError>(ActivationPlan::NewFamily) && activated is Ok ==> {
                let keys = reserved_lanes(old(self).next_endpoint(), old(self).next_lane(), TRAFFIC_COUNT as nat)
                    .map_values(|owner: BorneraLaneOwner| refresh_owner_spec(owner));
                &&& activated == Ok::<DirectRefreshOwner, StartFailure<E>>(keys[traffic.order()])
                &&& built_then_started(build, traffic, start, old(self).activation_owner(broker, traffic), *old(self), *final(self), keys[traffic.order()])
                &&& final(self).slots() == old(self).slots().insert(keys[traffic.order()].key(), old(self).lanes().len() as usize)
                &&& final(self).families().dom() == old(self).families().dom().insert(broker)
                &&& final(self).families()[broker].owners() == keys
                &&& final(self).families()[broker].active() == seq![false, false, false, false].update(traffic.order(), true)
                &&& final(self).families()[broker].endpoint_value() == endpoint.value()
                &&& final(self).next_lane() == old(self).next_lane() + TRAFFIC_COUNT
                &&& final(self).next_endpoint() == old(self).next_endpoint() + 1
                &&& final(self).seed() == old(self).seed()
                &&& final(self).pending_seed() == old(self).pending_seed()
                &&& final(self).frame_unchanged(*old(self))
            },
    {
        let check = match self.preflight_activation(broker, traffic) {
            Ok(check) => check,
            Err(error) => return Err(StartFailure::Refused(error)),
        };
        match check {
            ActivationPlan::Active(owner) => Ok(owner),
            ActivationPlan::Dormant(owner) => {
                let plan = match build(traffic) {
                    Ok(plan) => plan,
                    Err(error) => return Err(StartFailure::Plan(error)),
                };
                proof {
                    assert(call_ensures(build, (traffic,), Ok::<P, E>(plan)));
                }
                let ghost planned = plan;
                let lane_owner = BorneraLaneOwner { endpoint: owner.endpoint, lane: owner.lane };
                let facts = match start(plan, lane_owner) {
                    Ok(facts) => facts,
                    Err(error) => {
                        proof {
                            assert(call_ensures(start, (planned, lane_owner), Err::<LaneFacts, E>(error)));
                            assert(built_then_failed(build, traffic, start, old(self).activation_owner(broker, traffic), error));
                        }
                        return Err(StartFailure::Start(error));
                    },
                };
                let ghost started = facts;
                proof {
                    assert(call_ensures(start, (planned, lane_owner), Ok::<LaneFacts, E>(started)));
                }
                match self.publish_dormant_lane(broker, traffic, facts) {
                    Ok(key) => {
                        proof {
                            assert(self.lanes() == old(self).lanes().push(
                                LaneRecord { owner, facts: started_facts(started, old(self).scram_sender()) }));
                            assert(built_then_started(build, traffic, start, old(self).activation_owner(broker, traffic), *old(self), *self, key));
                        }
                        Ok(key)
                    },
                    Err(error) => Err(StartFailure::Refused(error)),
                }
            },
            ActivationPlan::NewFamily => {
                let plan = match build(traffic) {
                    Ok(plan) => plan,
                    Err(error) => return Err(StartFailure::Plan(error)),
                };
                proof {
                    assert(call_ensures(build, (traffic,), Ok::<P, E>(plan)));
                }
                let ghost checked = *self;
                let owners = match self.reserve_family_owners() {
                    Ok(owners) => owners,
                    Err(error) => return Err(StartFailure::Refused(error)),
                };
                proof {
                    crate::traffic::lemma_traffic_order_bijective();
                }
                let ghost planned = plan;
                let lane_owner = owners[traffic.stable_order()];
                let facts = match start(plan, lane_owner) {
                    Ok(facts) => facts,
                    Err(error) => {
                        proof {
                            assert(call_ensures(start, (planned, lane_owner), Err::<LaneFacts, E>(error)));
                            assert(built_then_failed(build, traffic, start, old(self).activation_owner(broker, traffic), error));
                        }
                        return Err(StartFailure::Start(error));
                    },
                };
                let ghost started = facts;
                proof {
                    assert(call_ensures(start, (planned, lane_owner), Ok::<LaneFacts, E>(started)));
                }
                let ghost keys = owners@.map_values(|owner: BorneraLaneOwner| refresh_owner_spec(owner));
                match self.publish_sparse_family(broker, owners, endpoint, traffic, facts) {
                    Ok(key) => {
                        proof {
                            assert(self.lanes() == old(self).lanes().push(
                                LaneRecord { owner: key, facts: started_facts(started, old(self).scram_sender()) }));
                            assert(built_then_started(build, traffic, start, old(self).activation_owner(broker, traffic), *old(self), *self, key));
                        }
                        Ok(key)
                    },
                    Err(error) => Err(StartFailure::Refused(error)),
                }
            },
        }
    }

    /// The reserved owner of `broker`'s dormant lane for `traffic`, when
    /// activating that lane starts it.
    pub open spec fn dormant_activation(&self, broker: i32, traffic: TrafficClass) -> Option<DirectRefreshOwner> {
        match self.activation_check(broker, traffic) {
            Ok(ActivationPlan::Dormant(owner)) => Some(owner),
            _ => None,
        }
    }

    /// The owner a lane activation of `broker` for `traffic` starts its lane
    /// under: the family's reserved owner, or for a new family the one the
    /// next reservation hands out for `traffic`.
    pub open spec fn activation_owner(&self, broker: i32, traffic: TrafficClass) -> BorneraLaneOwner {
        if self.families().contains_key(broker) {
            let owner = self.families()[broker].owners()[traffic.order()];
            BorneraLaneOwner { endpoint: owner.endpoint, lane: owner.lane }
        } else {
            reserved_lanes(self.next_endpoint(), self.next_lane(), TRAFFIC_COUNT as nat)[traffic.order()]
        }
    }
}

/// The keys a broker-family map hands out come in ascending order.
proof fn lemma_keys_ascending(r: Seq<&i32>)
    requires
        vstd::std_specs::btree::increasing_seq(r),
    ensures
        forall|i: int, j: int| 0 <= i < j < r.len() ==> *r[i] < *r[j],
{
    broadcast use vstd::std_specs::btree::axiom_increasing_seq_meaning;
    assert(vstd::laws_cmp::obeys_cmp::<i32>());
    assert(vstd::laws_cmp::obeys_cmp::<&i32>());
    assert forall|i: int, j: int| 0 <= i < j < r.len() implies *r[i] < *r[j] by {
        assert(vstd::std_specs::cmp::OrdSpec::cmp_spec(&r[i], &r[j]) is Less);
    }
}

/// The refresh turn built from an enumeration of broker ids: each broker's
/// four traffic classes in stable order.
pub open spec fn turn_of(brokers: Seq<i32>) -> Seq<BrokerLane> {
    Seq::new(brokers.len() * 4, |i: int| BrokerLane { broker_id: brokers[i / 4], traffic: traffic_of(i % 4) })
}

/// A refused endpoint-refresh step: the failure, and the physical lane it
/// condemns, if it concerns one lane; the refusing step makes that lane
/// terminal, as `fail_refresh_lane` does.
#[derive(Clone, Copy, Debug, PartialEq, Eq, Structural)]
pub struct RefreshFailure {
    pub error: ClusterError,
    pub lane: Option<usize>,
}

/// The lane a refused refresh step names, if it was refused.
pub open spec fn refused_lane<T>(result: Result<T, RefreshFailure>) -> Option<usize> {
    match result {
        Err(failure) => failure.lane,
        Ok(_) => None,
    }
}

/// The lanes after the lane named by a failure, if any, became terminal.
pub open spec fn fatalized(lanes: Seq<LaneRecord>, lane: Option<usize>) -> Seq<LaneRecord> {
    match lane {
        Some(i) => if i < lanes.len() {
            lanes.update(i as int, LaneRecord { owner: lanes[i as int].owner, facts: LaneFacts { terminal: true, ..lanes[i as int].facts } })
        } else {
            lanes
        },
        None => lanes,
    }
}

/// What probing one refresh-turn slot found.
#[derive(Clone, Copy, Debug, PartialEq, Eq, Structural)]
pub enum RefreshProbe {
    /// Nothing to refresh here.
    Skip,
    /// This owner's lane waits for an endpoint refresh.
    Ready(DirectRefreshOwner),
    /// This owner's lane broke its endpoint-refresh fence.
    FenceDiverged(DirectRefreshOwner),
    /// The slot's family is gone.
    Vanished,
}

impl ClusterRuntime {
    /// The metadata generation of the installed directory.
    pub fn installed_directory_generation(&self) -> (generation: Option<u64>)
        ensures
            generation == self.directory_generation(),
    {
        self.directory_generation
    }

    /// Whether the directory advertises `endpoint` for `broker`.
    pub open spec fn endpoint_current(&self, broker: i32, endpoint: (Seq<u8>, u16)) -> bool {
        self.directory().contains_key(broker) && self.directory()[broker] == endpoint
    }

    /// What probing one refresh-turn slot finds.
    #[verifier::opaque]
    pub open spec fn probe(&self, lane: BrokerLane) -> RefreshProbe {
        if !self.families().contains_key(lane.broker_id) {
            RefreshProbe::Vanished
        } else {
            let family = self.families()[lane.broker_id];
            let t = lane.traffic.order();
            let owner = family.owners()[t];
            let physical = self.lane_at_key(owner.key()).facts;
            if family.retiring() || !family.active()[t] {
                RefreshProbe::Skip
            } else if !self.endpoint_current(lane.broker_id, family.endpoint_value()) || physical.terminal {
                RefreshProbe::Skip
            } else if !spec_refresh_fence_valid(&physical, owner, family.endpoint_value()) {
                RefreshProbe::FenceDiverged(owner)
            } else if physical.refresh_needed {
                RefreshProbe::Ready(owner)
            } else {
                RefreshProbe::Skip
            }
        }
    }

    /// Ring position reached after `offset` steps from the cursor.
    pub open spec fn turn_position(&self, cursor: int, offset: int) -> int {
        spec_advance_cursor(cursor, offset, self.refresh_turn().len() as int)
    }

    /// The probe at `offset` steps from the cursor.
    pub open spec fn probe_at(&self, cursor: int, offset: int) -> RefreshProbe {
        self.probe(self.refresh_turn()[self.turn_position(cursor, offset)])
    }

    /// Scanning the refresh turn from `offset` steps past `cursor`: the
    /// outcome and the cursor left behind.
    pub open spec fn select_from(&self, cursor: int, offset: int) -> (Result<Option<DirectRefreshOwner>, RefreshFailure>, int)
        decreases self.refresh_turn().len() - offset,
    {
        let ring = self.refresh_turn().len() as int;
        if offset < 0 || offset >= ring {
            (Ok(None), cursor)
        } else {
            match self.probe_at(cursor, offset) {
                RefreshProbe::Skip => self.select_from(cursor, offset + 1),
                RefreshProbe::Ready(owner) => (Ok(Some(owner)), spec_advance_cursor(self.turn_position(cursor, offset), 1, ring)),
                RefreshProbe::FenceDiverged(owner) => (
                    Err(RefreshFailure { error: ClusterError::RefreshFenceDiverged, lane: Some(self.slots()[owner.key()]) }),
                    cursor,
                ),
                RefreshProbe::Vanished => (Err(RefreshFailure { error: ClusterError::RefreshFamilyVanished, lane: None }), cursor),
            }
        }
    }

    /// Installs the directory of metadata `generation`: its advertised
    /// endpoints replace the installed ones (a later entry for the same
    /// broker wins). A directory older than the installed one is refused, so
    /// the installed generation never goes back; `installed` says whether
    /// this one was taken.
    pub fn install_directory(&mut self, generation: u64, entries: Vec<(i32, BrokerEndpoint)>) -> (installed: bool)
        requires
            old(self).wf(),
        ensures
            final(self).wf(),
            installed == !(old(self).directory_generation() matches Some(current) && generation < current),
            !installed ==> final(self).same_view(*old(self)),
            installed ==> {
                &&& final(self).directory_generation() == Some(generation)
                &&& forall|broker: i32| #[trigger] final(self).directory().contains_key(broker)
                    <==> exists|i: int| 0 <= i < entries@.len() && entries@[i].0 == broker
                &&& forall|i: int| 0 <= i < entries@.len()
                    && (forall|j: int| i < j < entries@.len() ==> entries@[j].0 != entries@[i].0)
                    ==> final(self).directory()[#[trigger] entries@[i].0] == entries@[i].1.value()
            },
            final(self).lanes() == old(self).lanes(),
            final(self).slots() == old(self).slots(),
            final(self).families() == old(self).families(),
            final(self).seed() == old(self).seed(),
            final(self).next_lane() == old(self).next_lane(),
    {
        if let Some(current) = self.directory_generation {
            if generation < current {
                return false;
            }
        }
        let ghost view = entries@;
        let mut directory: BTreeMap<i32, BrokerEndpoint> = BTreeMap::new();
        let mut entries = entries;
        let mut taken: usize = 0;
        let ghost total = view.len();
        assert(total == entries.len());
        while entries.len() > 0
            invariant
                total <= usize::MAX,
                taken + entries@.len() == total,
                total == view.len(),
                entries@ == view.subrange(taken as int, total as int),
                forall|broker: i32| #[trigger] directory@.contains_key(broker)
                    <==> exists|i: int| 0 <= i < taken && view[i].0 == broker,
                forall|i: int| 0 <= i < taken && (forall|j: int| i < j < taken ==> view[j].0 != view[i].0)
                    ==> directory@[#[trigger] view[i].0].value() == view[i].1.value(),
            decreases entries@.len(),
        {
            let (broker, endpoint) = entries.remove(0);
            let ghost previous = directory@;
            proof {
                assert(view[taken as int] == (broker, endpoint));
            }
            directory.insert(broker, endpoint);
            taken = taken + 1;
            proof {
                assert(entries@ =~= view.subrange(taken as int, total as int));
                assert forall|b: i32| #[trigger] directory@.contains_key(b)
                    <==> exists|i: int| 0 <= i < taken && view[i].0 == b by {
                    if directory@.contains_key(b) && b != broker {
                        assert(previous.contains_key(b));
                    }
                    if b == broker {
                        assert(view[taken - 1].0 == b);
                    }
                }
                assert forall|i: int| 0 <= i < taken && (forall|j: int| i < j < taken ==> view[j].0 != view[i].0)
                    implies directory@[#[trigger] view[i].0].value() == view[i].1.value() by {
                    if i < taken - 1 {
                        assert(view[taken - 1].0 != view[i].0);
                    }
                }
            }
        }
        self.directory = directory;
        self.directory_generation = Some(generation);
        true
    }

    /// Whether the directory advertises `endpoint` for `broker`.
    pub fn family_endpoint_is_current(&self, broker: i32, endpoint: &BrokerEndpoint) -> (current: bool)
        ensures
            current == self.endpoint_current(broker, endpoint.value()),
    {
        match self.directory.get(&broker) {
            Some(advertised) => advertised.same_as(endpoint),
            None => false,
        }
    }

    /// Rebuilds the refresh turn: every installed broker, in key order, with
    /// its four traffic classes in stable order.
    pub fn prepare_refresh_turn(&mut self)
        requires
            old(self).wf(),
        ensures
            final(self).wf(),
            exists|brokers: Seq<i32>| {
                &&& brokers.to_set() == old(self).families().dom()
                &&& brokers.no_duplicates()
                &&& forall|i: int, j: int| 0 <= i < j < brokers.len() ==> brokers[i] < brokers[j]
                &&& final(self).refresh_turn() == turn_of(brokers)
            },
            final(self).lanes() == old(self).lanes(),
            final(self).slots() == old(self).slots(),
            final(self).families() == old(self).families(),
            final(self).seed() == old(self).seed(),
            final(self).next_lane() == old(self).next_lane(),
            final(self).refresh_cursor() == old(self).refresh_cursor(),
            final(self).directory() == old(self).directory(),
            final(self).directory_generation() == old(self).directory_generation(),
            final(self).pending_seed() == old(self).pending_seed(),
    {
        let mut turn: Vec<BrokerLane> = Vec::new();
        let ghost keys = vstd::std_specs::btree::spec_keys_iter(&self.families).remaining().unref();
        proof {
            vstd::std_specs::btree::axiom_spec_keys_iter(&self.families);
            assert forall|i: int, j: int| 0 <= i < keys.len() && 0 <= j < keys.len() && i != j implies keys[i] != keys[j] by {
                let r = vstd::std_specs::btree::spec_keys_iter(&self.families).remaining();
                assert(r[i] != r[j]);
            }
        }
        for broker in it: self.families.keys()
            invariant
                it.seq().unref() == keys,
                turn@ == turn_of(keys.take(it.index() as int)),
        {
            let mut order: usize = 0;
            let ghost j0 = it.index() as int;
            proof {
                assert(keys[j0] == *broker);
            }
            while order < TRAFFIC_COUNT
                invariant
                    order <= TRAFFIC_COUNT,
                    keys[j0] == *broker,
                    0 <= j0 < keys.len(),
                    turn@ == turn_of(keys.take(j0)) + Seq::new(order as nat, |t: int| BrokerLane { broker_id: *broker, traffic: traffic_of(t) }),
                decreases TRAFFIC_COUNT - order,
            {
                turn.push(BrokerLane::new(*broker, traffic_at(order)));
                order = order + 1;
                assert(turn@ =~= turn_of(keys.take(j0)) + Seq::new(order as nat, |t: int| BrokerLane { broker_id: *broker, traffic: traffic_of(t) }));
            }
            proof {
                assert(turn_of(keys.take(j0 + 1)) =~= turn_of(keys.take(j0)) + Seq::new(4, |t: int| BrokerLane { broker_id: *broker, traffic: traffic_of(t) })) by {
                    let whole = turn_of(keys.take(j0 + 1));
                    let joined = turn_of(keys.take(j0)) + Seq::new(4, |t: int| BrokerLane { broker_id: *broker, traffic: traffic_of(t) });
                    assert forall|i: int| 0 <= i < whole.len() implies #[trigger] whole[i] == joined[i] by {
                        if i < j0 * 4 {
                            assert(i / 4 < j0) by (nonlinear_arith) requires 0 <= i < j0 * 4;
                        } else {
                            assert(i / 4 == j0 && i % 4 == i - j0 * 4) by (nonlinear_arith) requires j0 * 4 <= i < j0 * 4 + 4;
                        }
                    }
                }
            }
        }
        proof {
            assert(keys.take(keys.len() as int) =~= keys);
            keys.lemma_no_dup_set_cardinality();
            let r = vstd::std_specs::btree::spec_keys_iter(&self.families).remaining();
            lemma_keys_ascending(r);
            assert forall|i: int, j: int| 0 <= i < j < keys.len() implies keys[i] < keys[j] by {
                assert(keys[i] == *r[i] && keys[j] == *r[j]);
            }
        }
        self.refresh_turn = turn;
    }
}

impl ClusterRuntime {
    /// Probes one refresh-turn slot.
    fn probe_refresh_family_slot(&self, lane: BrokerLane) -> (probe: RefreshProbe)
        requires
            self.wf(),
        ensures
            probe == self.probe(lane),
    {
        reveal(ClusterRuntime::probe);
        let family = match self.families.get(&lane.broker_id) {
            Some(family) => family,
            None => return RefreshProbe::Vanished,
        };
        proof {
            assert(self.families().contains_key(lane.broker_id));
            crate::traffic::lemma_traffic_order_bijective();
        }
        if family.is_retiring() || !family.is_active(lane.traffic) {
            return RefreshProbe::Skip;
        }
        let owner = family.owner(lane.traffic);
        let index = match self.slots.get(&owner.slot_key()) {
            Some(index) => *index,
            None => {
                proof {
                    assert(false);
                }
                return RefreshProbe::Vanished;
            },
        };
        let physical = &self.lanes[index];
        if !self.family_endpoint_is_current(lane.broker_id, family.endpoint()) || physical.facts.terminal {
            return RefreshProbe::Skip;
        }
        if !family_refresh_fence_valid(&physical.facts, owner, family.endpoint()) {
            return RefreshProbe::FenceDiverged(owner);
        }
        if physical.facts.refresh_needed {
            RefreshProbe::Ready(owner)
        } else {
            RefreshProbe::Skip
        }
    }

    /// Selects the next broker lane whose endpoint refresh is due: slots of
    /// the refresh turn are probed once each in ring order from the cursor;
    /// the first ready one is selected and the cursor moves just past it.
    pub fn next_broker_endpoint_refresh_owner(&mut self) -> (selected: Result<Option<DirectRefreshOwner>, RefreshFailure>)
        requires
            old(self).wf(),
        ensures
            final(self).wf(),
            final(self).lanes() == old(self).lanes(),
            final(self).slots() == old(self).slots(),
            final(self).families() == old(self).families(),
            final(self).seed() == old(self).seed(),
            final(self).next_lane() == old(self).next_lane(),
            final(self).refresh_turn() == old(self).refresh_turn(),
            final(self).directory() == old(self).directory(),
            final(self).directory_generation() == old(self).directory_generation(),
            final(self).pending_seed() == old(self).pending_seed(),
            ({
                let cursor = spec_normalized_cursor(old(self).refresh_cursor() as int, old(self).families().dom().len() * TRAFFIC_COUNT);
                (selected, final(self).refresh_cursor() as int) == old(self).select_from(cursor, 0)
            }),
    {
        proof {
            assert(self.families().dom().len() * TRAFFIC_COUNT <= usize::MAX);
        }
        self.normalize_refresh_cursor();
        let ghost cursor = self.refresh_cursor as int;
        let ghost normalized = *self;
        proof {
            lemma_select_congruent(normalized, *old(self), cursor, 0);
        }
        let ring = self.refresh_turn.len();
        if ring == 0 {
            return Ok(None);
        }
        let start = self.refresh_cursor;
        let mut offset: usize = 0;
        while offset < ring
            invariant
                self.wf(),
                self.same_view(normalized),
                normalized.lanes() == old(self).lanes(),
                normalized.slots() == old(self).slots(),
                normalized.families() == old(self).families(),
                normalized.seed() == old(self).seed(),
                normalized.next_lane() == old(self).next_lane(),
                normalized.refresh_turn() == old(self).refresh_turn(),
                normalized.directory() == old(self).directory(),
                normalized.directory_generation() == old(self).directory_generation(),
                normalized.pending_seed() == old(self).pending_seed(),
                cursor == spec_normalized_cursor(old(self).refresh_cursor() as int, old(self).families().dom().len() * TRAFFIC_COUNT),
                ring == self.refresh_turn().len(),
                start == cursor,
                self.refresh_cursor() == cursor,
                offset <= ring,
                normalized.select_from(cursor, 0) == normalized.select_from(cursor, offset as int),
                normalized.select_from(cursor, 0) == old(self).select_from(cursor, 0),
            decreases ring - offset,
        {
            let position = advance_cursor(start, offset, ring);
            let lane = self.refresh_turn[position];
            let probe = self.probe_refresh_family_slot(lane);
            proof {
                assert(position as int == self.turn_position(cursor, offset as int));
                assert(normalized.probe_at(cursor, offset as int) == probe) by {
                    reveal(ClusterRuntime::probe);
                }
                assert(normalized.turn_position(cursor, offset as int) == position as int);
            }
            match probe {
                RefreshProbe::Skip => {},
                RefreshProbe::Ready(owner) => {
                    self.refresh_cursor = advance_cursor(position, 1, ring);
                    return Ok(Some(owner));
                },
                RefreshProbe::FenceDiverged(owner) => {
                    proof {
                        reveal(ClusterRuntime::probe);
                        crate::traffic::lemma_traffic_order_bijective();
                        assert(self.slots().contains_key(owner.key()));
                    }
                    let index = match self.slots.get(&owner.slot_key()) {
                        Some(index) => Some(*index),
                        None => None,
                    };
                    return Err(RefreshFailure { error: ClusterError::RefreshFenceDiverged, lane: index });
                },
                RefreshProbe::Vanished => return Err(RefreshFailure { error: ClusterError::RefreshFamilyVanished, lane: None }),
            }
            offset = offset + 1;
        }
        Ok(None)
    }
}

/// A family lane as endpoint refresh sees it.
#[derive(Debug)]
pub struct FamilyRefreshLane {
    pub index: usize,
    pub owner: DirectRefreshOwner,
    pub endpoint: BrokerEndpoint,
    /// Whether the directory still advertises the family's endpoint.
    pub current: bool,
    pub retiring: bool,
}

/// What completing an endpoint refresh does.
#[derive(Clone, Copy, Debug, PartialEq, Eq, Structural)]
pub enum RefreshCompletion {
    /// The outcome belongs to no live family lane; drop it.
    Ignore,
    /// The family's endpoint changed meanwhile: restore the lane's refresh at
    /// this index so it runs again for the new endpoint.
    RestoreSuperseded(usize),
    /// Apply the outcome to the lane at this index.
    Complete(usize),
}

impl ClusterRuntime {
    /// The family that reserved `owner`.
    pub open spec fn holding_family(&self, owner: DirectRefreshOwner) -> i32 {
        choose|broker: i32| #[trigger] self.families().contains_key(broker) && self.families()[broker].holds(owner)
    }

    /// What `family_refresh_lane` reports, by case: `None` for an unfiled
    /// owner or the seed, a failure for a filed lane that lost its family,
    /// otherwise the family lane.
    pub open spec fn refresh_lane_case(&self, owner: DirectRefreshOwner) -> Result<bool, ClusterError> {
        if !self.slots().contains_key(owner.key()) {
            Ok(false)
        } else if !self.family_holds(owner) {
            if self.seed() matches Some(seed) && seed.owner == owner {
                Ok(false)
            } else {
                Err(ClusterError::RefreshLaneLostFamily)
            }
        } else {
            Ok(true)
        }
    }

    /// The family lane filed under `owner`, if it is one.
    pub fn family_refresh_lane(&self, owner: DirectRefreshOwner) -> (lane: Result<Option<FamilyRefreshLane>, ClusterError>)
        requires
            self.wf(),
        ensures
            self.refresh_lane_case(owner) matches Err(error) ==> lane == Err::<Option<FamilyRefreshLane>, ClusterError>(error),
            self.refresh_lane_case(owner) == Ok::<bool, ClusterError>(false) ==> lane matches Ok(None),
            self.refresh_lane_case(owner) == Ok::<bool, ClusterError>(true) ==> {
                let broker = self.holding_family(owner);
                let family = self.families()[broker];
                &&& lane matches Ok(Some(found))
                &&& found.index == self.slots()[owner.key()]
                &&& found.owner == owner
                &&& found.endpoint.value() == family.endpoint_value()
                &&& found.current == self.endpoint_current(broker, family.endpoint_value())
                &&& found.retiring == family.retiring()
            },
    {
        let index = match self.slots.get(&owner.slot_key()) {
            Some(index) => *index,
            None => return Ok(None),
        };
        let broker = match self.family_of(owner) {
            Some(broker) => broker,
            None => {
                if let Some(seed) = self.seed {
                    if seed.owner == owner {
                        return Ok(None);
                    }
                }
                return Err(ClusterError::RefreshLaneLostFamily);
            },
        };
        proof {
            assert(self.families().contains_key(broker) && self.families()[broker].holds(owner));
            let chosen = self.holding_family(owner);
            assert(self.families().contains_key(chosen) && self.families()[chosen].holds(owner));
            if chosen != broker {
                let t1 = choose|t: int| 0 <= t < TRAFFIC_COUNT && #[trigger] self.families()[broker].owners()[t] == owner;
                let t2 = choose|t: int| 0 <= t < TRAFFIC_COUNT && #[trigger] self.families()[chosen].owners()[t] == owner;
                assert(self.families()[broker].owners()[t1] != self.families()[chosen].owners()[t2]);
            }
            assert(chosen == broker);
        }
        let family = self.families.get(&broker).unwrap();
        let mut order: usize = 0;
        while order < TRAFFIC_COUNT
            invariant
                self.wf(),
                self.families().contains_key(broker),
                *family == self.families()[broker],
                family.holds(owner),
                broker == self.holding_family(owner),
                self.slots().contains_key(owner.key()),
                self.slots()[owner.key()] == index,
                order <= TRAFFIC_COUNT,
                forall|t: int| 0 <= t < order ==> family.owners()[t] != owner,
            decreases TRAFFIC_COUNT - order,
        {
            let traffic = traffic_at(order);
            if family.owner(traffic) == owner {
                let state = self.family_lane_state(broker, traffic);
                proof {
                    assert(self.slots().contains_key(owner.key()));
                    assert(family.active()[order as int]);
                }
                match state {
                    Ok(FamilyLaneState::Active(current, active)) => {
                        if current == owner && active == index {
                            let current = self.family_endpoint_is_current(broker, family.endpoint());
                            return Ok(Some(FamilyRefreshLane {
                                index,
                                owner,
                                endpoint: family.endpoint().duplicate(),
                                current,
                                retiring: family.is_retiring(),
                            }));
                        }
                        return Err(ClusterError::FamilyLaneStateDiverged);
                    },
                    Ok(FamilyLaneState::Dormant) => return Err(ClusterError::FamilyLaneStateDiverged),
                    Err(error) => return Err(error),
                }
            }
            order = order + 1;
        }
        proof {
            let t = choose|t: int| 0 <= t < TRAFFIC_COUNT && #[trigger] family.owners()[t] == owner;
        }
        Err(ClusterError::FamilyLaneStateDiverged)
    }

    /// Whether taking the refresh of the family lane `owner` is due: the
    /// lane's physical index when the family is current, not retiring, the
    /// lane is live, fenced and waiting for a refresh.
    pub open spec fn take_target(&self, owner: DirectRefreshOwner) -> Result<Option<usize>, ClusterError> {
        match self.refresh_lane_case(owner) {
            Err(error) => Err(error),
            Ok(false) => Ok(None),
            Ok(true) => {
                let broker = self.holding_family(owner);
                let family = self.families()[broker];
                let physical = self.lane_at_key(owner.key()).facts;
                if family.retiring() || !self.endpoint_current(broker, family.endpoint_value()) || physical.terminal {
                    Ok(None)
                } else if !spec_refresh_fence_valid(&physical, owner, family.endpoint_value()) {
                    Err(ClusterError::RefreshFenceDiverged)
                } else if !physical.refresh_needed {
                    Ok(None)
                } else {
                    Ok(Some(self.slots()[owner.key()]))
                }
            },
        }
    }

    /// The failure `error` of a refresh step on `owner`, naming the physical
    /// lane filed under it.
    pub open spec fn lane_failure(&self, owner: DirectRefreshOwner, error: ClusterError) -> RefreshFailure {
        RefreshFailure { error, lane: Some(self.slots()[owner.key()]) }
    }

    fn lane_failure_of(&self, owner: DirectRefreshOwner, error: ClusterError) -> (failure: RefreshFailure)
        requires
            self.slots().contains_key(owner.key()),
        ensures
            failure == self.lane_failure(owner, error),
    {
        let index = *self.slots.get(&owner.slot_key()).unwrap();
        RefreshFailure { error, lane: Some(index) }
    }

    /// Decides whether the endpoint refresh of `owner` should be taken now;
    /// yields the physical lane to take it from. A failure names the lane
    /// filed under `owner`.
    fn take_decision(&self, owner: DirectRefreshOwner) -> (target: Result<Option<usize>, RefreshFailure>)
        requires
            self.wf(),
        ensures
            target == match self.take_target(owner) {
                Ok(found) => Ok::<Option<usize>, RefreshFailure>(found),
                Err(error) => Err(self.lane_failure(owner, error)),
            },
    {
        let current = match self.family_refresh_lane(owner) {
            Ok(Some(current)) => current,
            Ok(None) => return Ok(None),
            Err(error) => return Err(self.lane_failure_of(owner, error)),
        };
        proof {
            assert(self.slots().contains_key(owner.key()));
        }
        let physical = &self.lanes[current.index].facts;
        if current.retiring || !current.current || physical.terminal {
            return Ok(None);
        }
        if !family_refresh_fence_valid(physical, current.owner, &current.endpoint) {
            return Err(RefreshFailure { error: ClusterError::RefreshFenceDiverged, lane: Some(current.index) });
        }
        if !physical.refresh_needed {
            return Ok(None);
        }
        Ok(Some(current.index))
    }

    /// Decides whether a refresh taken for `owner` and `endpoint` may be
    /// handed back to its lane; yields the physical lane. A failure names the
    /// lane filed under `owner`.
    fn defer_decision(&self, owner: DirectRefreshOwner, endpoint: &BrokerEndpoint)
        -> (target: Result<Option<usize>, RefreshFailure>)
        requires
            self.wf(),
        ensures
            self.refresh_lane_case(owner) matches Err(error) ==> target == Err::<Option<usize>, RefreshFailure>(self.lane_failure(owner, error)),
            self.refresh_lane_case(owner) == Ok::<bool, ClusterError>(false) ==> target == Ok::<Option<usize>, RefreshFailure>(None),
            self.refresh_lane_case(owner) == Ok::<bool, ClusterError>(true) ==> {
                let broker = self.holding_family(owner);
                let family = self.families()[broker];
                let physical = self.lane_at_key(owner.key()).facts;
                target == if family.retiring() || physical.terminal {
                    Ok::<Option<usize>, RefreshFailure>(None)
                } else if !spec_refresh_fence_valid(&physical, owner, family.endpoint_value()) {
                    Err(self.lane_failure(owner, ClusterError::RefreshFenceDiverged))
                } else if endpoint.value() != family.endpoint_value() {
                    Err(self.lane_failure(owner, ClusterError::RefreshFamilyDiverged))
                } else {
                    Ok(Some(self.slots()[owner.key()]))
                }
            },
    {
        let current = match self.family_refresh_lane(owner) {
            Ok(Some(current)) => current,
            Ok(None) => return Ok(None),
            Err(error) => return Err(self.lane_failure_of(owner, error)),
        };
        proof {
            assert(self.slots().contains_key(owner.key()));
        }
        let physical = &self.lanes[current.index].facts;
        if current.retiring || physical.terminal {
            return Ok(None);
        }
        if !family_refresh_fence_valid(physical, current.owner, &current.endpoint) {
            return Err(RefreshFailure { error: ClusterError::RefreshFenceDiverged, lane: Some(current.index) });
        }
        if !endpoint.same_as(&current.endpoint) {
            return Err(RefreshFailure { error: ClusterError::RefreshFamilyDiverged, lane: Some(current.index) });
        }
        Ok(Some(current.index))
    }

    /// Decides where a resolver outcome for `owner` goes. A failure names
    /// the lane filed under `owner`.
    fn completion_decision(&self, owner: DirectRefreshOwner) -> (step: Result<RefreshCompletion, RefreshFailure>)
        requires
            self.wf(),
        ensures
            self.refresh_lane_case(owner) matches Err(error) ==> step == Err::<RefreshCompletion, RefreshFailure>(self.lane_failure(owner, error)),
            self.refresh_lane_case(owner) == Ok::<bool, ClusterError>(false) ==> step == Ok::<RefreshCompletion, RefreshFailure>(RefreshCompletion::Ignore),
            self.refresh_lane_case(owner) == Ok::<bool, ClusterError>(true) ==> {
                let broker = self.holding_family(owner);
                let family = self.families()[broker];
                let physical = self.lane_at_key(owner.key()).facts;
                let index = self.slots()[owner.key()];
                step == if family.retiring() || physical.terminal {
                    Ok::<RefreshCompletion, RefreshFailure>(RefreshCompletion::Ignore)
                } else if !spec_refresh_fence_valid(&physical, owner, family.endpoint_value()) {
                    Err(self.lane_failure(owner, ClusterError::RefreshFenceDiverged))
                } else if !self.endpoint_current(broker, family.endpoint_value()) {
                    Ok(RefreshCompletion::RestoreSuperseded(index))
                } else {
                    Ok(RefreshCompletion::Complete(index))
                }
            },
    {
        let current = match self.family_refresh_lane(owner) {
            Ok(Some(current)) => current,
            Ok(None) => return Ok(RefreshCompletion::Ignore),
            Err(error) => return Err(self.lane_failure_of(owner, error)),
        };
        proof {
            assert(self.slots().contains_key(owner.key()));
        }
        let physical = &self.lanes[current.index].facts;
        if current.retiring || physical.terminal {
            return Ok(RefreshCompletion::Ignore);
        }
        if !family_refresh_fence_valid(physical, current.owner, &current.endpoint) {
            return Err(RefreshFailure { error: ClusterError::RefreshFenceDiverged, lane: Some(current.index) });
        }
        if !current.current {
            return Ok(RefreshCompletion::RestoreSuperseded(current.index));
        }
        Ok(RefreshCompletion::Complete(current.index))
    }

    /// Checks that a superseded refresh outcome of the given failed
    /// generation may be restored on the lane at `index`: the lane still
    /// owns a refresh of that generation and is resolving it. A failure
    /// names that lane.
    fn restore_decision(&self, index: usize, outcome_epoch: u64) -> (checked: Result<(), RefreshFailure>)
        requires
            self.wf(),
            index < self.lanes().len(),
        ensures
            ({
                let lane = self.lanes()[index as int].facts;
                let failed = |error: ClusterError| Err::<(), RefreshFailure>(RefreshFailure { error, lane: Some(index) });
                checked == match lane.endpoint_refresh {
                    None => failed(ClusterError::RefreshSupersessionVanished),
                    Some(refresh) => if outcome_epoch != refresh.failed_epoch {
                        failed(ClusterError::RefreshOutcomeEpochDiverged)
                    } else if lane.lifecycle != (LifecyclePhase::Refreshing { failed_epoch: refresh.failed_epoch, resolving: true }) {
                        failed(ClusterError::RefreshSupersessionStateDiverged)
                    } else {
                        Ok::<(), RefreshFailure>(())
                    },
                }
            }),
    {
        let lane = &self.lanes[index].facts;
        let refresh = match &lane.endpoint_refresh {
            Some(refresh) => refresh,
            None => return Err(RefreshFailure { error: ClusterError::RefreshSupersessionVanished, lane: Some(index) }),
        };
        if outcome_epoch != refresh.failed_epoch {
            return Err(RefreshFailure { error: ClusterError::RefreshOutcomeEpochDiverged, lane: Some(index) });
        }
        let resolving = match lane.lifecycle {
            LifecyclePhase::Refreshing { failed_epoch, resolving } => resolving && failed_epoch == refresh.failed_epoch,
            _ => false,
        };
        if !resolving {
            return Err(RefreshFailure { error: ClusterError::RefreshSupersessionStateDiverged, lane: Some(index) });
        }
        Ok(())
    }

    /// Takes the endpoint refresh of `owner` when it is due: yields the
    /// physical lane to take it from. A refused take makes the lane it names
    /// terminal.
    pub fn take_broker_endpoint_refresh(&mut self, owner: DirectRefreshOwner) -> (target: Result<Option<usize>, RefreshFailure>)
        requires
            old(self).wf(),
        ensures
            final(self).wf(),
            target == match old(self).take_target(owner) {
                Ok(found) => Ok::<Option<usize>, RefreshFailure>(found),
                Err(error) => Err(old(self).lane_failure(owner, error)),
            },
            final(self).lanes() == fatalized(old(self).lanes(), refused_lane(target)),
            final(self).same_view_but_lanes(*old(self)),
    {
        let target = self.take_decision(owner);
        if let Err(failure) = target {
            self.fail_refresh_lane(failure);
        }
        target
    }

    /// Hands a refresh taken for `owner` and `endpoint` back to its lane when
    /// that is still in order; yields the physical lane. A refusal makes the
    /// lane it names terminal.
    pub fn defer_broker_endpoint_refresh(&mut self, owner: DirectRefreshOwner, endpoint: &BrokerEndpoint)
        -> (target: Result<Option<usize>, RefreshFailure>)
        requires
            old(self).wf(),
        ensures
            final(self).wf(),
            old(self).refresh_lane_case(owner) matches Err(error) ==> target == Err::<Option<usize>, RefreshFailure>(old(self).lane_failure(owner, error)),
            old(self).refresh_lane_case(owner) == Ok::<bool, ClusterError>(false) ==> target == Ok::<Option<usize>, RefreshFailure>(None),
            old(self).refresh_lane_case(owner) == Ok::<bool, ClusterError>(true) ==> {
                let broker = old(self).holding_family(owner);
                let family = old(self).families()[broker];
                let physical = old(self).lane_at_key(owner.key()).facts;
                target == if family.retiring() || physical.terminal {
                    Ok::<Option<usize>, RefreshFailure>(None)
                } else if !spec_refresh_fence_valid(&physical, owner, family.endpoint_value()) {
                    Err(old(self).lane_failure(owner, ClusterError::RefreshFenceDiverged))
                } else if endpoint.value() != family.endpoint_value() {
                    Err(old(self).lane_failure(owner, ClusterError::RefreshFamilyDiverged))
                } else {
                    Ok(Some(old(self).slots()[owner.key()]))
                }
            },
            final(self).lanes() == fatalized(old(self).lanes(), refused_lane(target)),
            final(self).same_view_but_lanes(*old(self)),
    {
        let target = self.defer_decision(owner, endpoint);
        if let Err(failure) = target {
            self.fail_refresh_lane(failure);
        }
        target
    }

    /// Decides where a resolver outcome for `owner` goes. A refusal makes the
    /// lane it names terminal.
    pub fn complete_broker_endpoint_refresh(&mut self, owner: DirectRefreshOwner) -> (step: Result<RefreshCompletion, RefreshFailure>)
        requires
            old(self).wf(),
        ensures
            final(self).wf(),
            old(self).refresh_lane_case(owner) matches Err(error) ==> step == Err::<RefreshCompletion, RefreshFailure>(old(self).lane_failure(owner, error)),
            old(self).refresh_lane_case(owner) == Ok::<bool, ClusterError>(false) ==> step == Ok::<RefreshCompletion, RefreshFailure>(RefreshCompletion::Ignore),
            old(self).refresh_lane_case(owner) == Ok::<bool, ClusterError>(true) ==> {
                let broker = old(self).holding_family(owner);
                let family = old(self).families()[broker];
                let physical = old(self).lane_at_key(owner.key()).facts;
                let index = old(self).slots()[owner.key()];
                step == if family.retiring() || physical.terminal {
                    Ok::<RefreshCompletion, RefreshFailure>(RefreshCompletion::Ignore)
                } else if !spec_refresh_fence_valid(&physical, owner, family.endpoint_value()) {
                    Err(old(self).lane_failure(owner, ClusterError::RefreshFenceDiverged))
                } else if !old(self).endpoint_current(broker, family.endpoint_value()) {
                    Ok(RefreshCompletion::RestoreSuperseded(index))
                } else {
                    Ok(RefreshCompletion::Complete(index))
                }
            },
            final(self).lanes() == fatalized(old(self).lanes(), refused_lane(step)),
            final(self).same_view_but_lanes(*old(self)),
    {
        let step = self.completion_decision(owner);
        if let Err(failure) = step {
            self.fail_refresh_lane(failure);
        }
        step
    }

    /// Checks that a superseded refresh outcome of the given failed
    /// generation may be restored on the lane at `index`: the lane still
    /// owns a refresh of that generation and is resolving it. A refusal
    /// makes that lane terminal.
    pub fn restore_superseded_refresh(&mut self, index: usize, outcome_epoch: u64) -> (checked: Result<(), RefreshFailure>)
        requires
            old(self).wf(),
            index < old(self).lanes().len(),
        ensures
            final(self).wf(),
            ({
                let lane = old(self).lanes()[index as int].facts;
                let failed = |error: ClusterError| Err::<(), RefreshFailure>(RefreshFailure { error, lane: Some(index) });
                checked == match lane.endpoint_refresh {
                    None => failed(ClusterError::RefreshSupersessionVanished),
                    Some(refresh) => if outcome_epoch != refresh.failed_epoch {
                        failed(ClusterError::RefreshOutcomeEpochDiverged)
                    } else if lane.lifecycle != (LifecyclePhase::Refreshing { failed_epoch: refresh.failed_epoch, resolving: true }) {
                        failed(ClusterError::RefreshSupersessionStateDiverged)
                    } else {
                        Ok::<(), RefreshFailure>(())
                    },
                }
            }),
            final(self).lanes() == fatalized(old(self).lanes(), refused_lane(checked)),
            final(self).same_view_but_lanes(*old(self)),
    {
        let checked = self.restore_decision(index, outcome_epoch);
        if let Err(failure) = checked {
            self.fail_refresh_lane(failure);
        }
        checked
    }

    /// `self` differs from `before` in its lanes at most.
    pub open spec fn same_view_but_lanes(&self, before: ClusterRuntime) -> bool {
        &&& self.slots() == before.slots()
        &&& self.families() == before.families()
        &&& self.seed() == before.seed()
        &&& self.pending_seed() == before.pending_seed()
        &&& self.next_lane() == before.next_lane()
        &&& self.next_endpoint() == before.next_endpoint()
        &&& self.frame_unchanged(before)
    }
}

/// A retiring family's lanes are inert to endpoint refresh: their refresh is
/// never taken.
pub proof fn law_retiring_family_lanes_are_inert(rt: ClusterRuntime, owner: DirectRefreshOwner)
    requires
        rt.wf(),
        rt.refresh_lane_case(owner) == Ok::<bool, ClusterError>(true),
        rt.families()[rt.holding_family(owner)].retiring(),
    ensures
        rt.take_target(owner) == Ok::<Option<usize>, ClusterError>(None),
{
}

/// Number of turn entries, among the first `n`, whose family has that
/// traffic class active.
pub open spec fn active_in_turn(families: Map<i32, BrokerFamily>, turn: Seq<BrokerLane>, n: int) -> int
    decreases n,
{
    if n <= 0 {
        0
    } else {
        let lane = turn[n - 1];
        active_in_turn(families, turn, n - 1) + (if families[lane.broker_id].active()[lane.traffic.order()] { 1int } else { 0int })
    }
}

/// Selection depends only on the refresh turn and what probing reads.
proof fn lemma_select_congruent(a: ClusterRuntime, b: ClusterRuntime, cursor: int, offset: int)
    requires
        a.refresh_turn() == b.refresh_turn(),
        a.families() == b.families(),
        a.directory() == b.directory(),
        a.lanes() == b.lanes(),
        a.slots() == b.slots(),
    ensures
        a.select_from(cursor, offset) == b.select_from(cursor, offset),
    decreases a.refresh_turn().len() - offset,
{
    reveal(ClusterRuntime::probe);
    if 0 <= offset < a.refresh_turn().len() {
        lemma_select_congruent(a, b, cursor, offset + 1);
    }
}

impl ClusterRuntime {
    /// Whether `owner` is the owner of an active lane of a family that is
    /// not retiring, whose endpoint the directory advertises, and whose
    /// physical lane is live and waits for an endpoint refresh.
    pub open spec fn due_family_lane(&self, owner: DirectRefreshOwner) -> bool {
        exists|broker: i32, t: int| {
            &&& #[trigger] self.families().contains_key(broker)
            &&& 0 <= t < TRAFFIC_COUNT
            &&& #[trigger] self.families()[broker].owners()[t] == owner
            &&& self.families()[broker].active()[t]
            &&& !self.families()[broker].retiring()
            &&& self.endpoint_current(broker, self.families()[broker].endpoint_value())
            &&& !self.lane_at_key(owner.key()).facts.terminal
            &&& self.lane_at_key(owner.key()).facts.refresh_needed
        }
    }
}

/// A refresh is taken exactly from a due family lane: the lane taken from is
/// the owner's own physical lane, its family is not retiring, the directory
/// still advertises the family's endpoint (a superseded endpoint's refresh is
/// not handed out to be resolved), the lane is live, waits for a refresh and
/// keeps its fence. Conversely a due lane is never passed over: its refresh
/// is taken when its fence holds, and a broken fence is reported.
pub proof fn law_only_due_refreshes_are_taken(rt: ClusterRuntime, owner: DirectRefreshOwner)
    requires
        rt.wf(),
    ensures
        ({
            let fenced = spec_refresh_fence_valid(
                &rt.lane_at_key(owner.key()).facts,
                owner,
                rt.families()[rt.holding_family(owner)].endpoint_value(),
            );
            &&& rt.take_target(owner) matches Ok(Some(index)) ==> {
                &&& rt.due_family_lane(owner)
                &&& fenced
                &&& index == rt.slots()[owner.key()]
                &&& rt.lanes()[index as int].owner == owner
            }
            &&& rt.due_family_lane(owner) ==> rt.take_target(owner) == if fenced {
                Ok::<Option<usize>, ClusterError>(Some(rt.slots()[owner.key()]))
            } else {
                Err(ClusterError::RefreshFenceDiverged)
            }
        }),
{
    if let Ok(Some(index)) = rt.take_target(owner) {
        assert(rt.family_holds(owner));
        let broker = rt.holding_family(owner);
        let family = rt.families()[broker];
        let t = choose|i: int| 0 <= i < TRAFFIC_COUNT && #[trigger] family.owners()[i] == owner;
        assert(family.active()[t] <==> rt.slots().contains_key(family.owners()[t].key()));
        assert(rt.families()[broker].owners()[t] == owner);
    }
    if rt.due_family_lane(owner) {
        let (broker, t) = choose|broker: i32, t: int| {
            &&& #[trigger] rt.families().contains_key(broker)
            &&& 0 <= t < TRAFFIC_COUNT
            &&& #[trigger] rt.families()[broker].owners()[t] == owner
            &&& rt.families()[broker].active()[t]
            &&& !rt.families()[broker].retiring()
            &&& rt.endpoint_current(broker, rt.families()[broker].endpoint_value())
            &&& !rt.lane_at_key(owner.key()).facts.terminal
            &&& rt.lane_at_key(owner.key()).facts.refresh_needed
        };
        let family = rt.families()[broker];
        assert(family.active()[t] <==> rt.slots().contains_key(family.owners()[t].key()));
        assert(family.holds(owner));
        assert(rt.family_holds(owner));
        let holder = rt.holding_family(owner);
        let t2 = choose|i: int| 0 <= i < TRAFFIC_COUNT && #[trigger] rt.families()[holder].owners()[i] == owner;
        if holder != broker {
            assert(rt.families()[holder].owners()[t2] != rt.families()[broker].owners()[t]);
        }
        assert(holder == broker);
    }
}

/// Only a due family lane is ever selected for endpoint refresh, whatever
/// the cursor: never a lane of a retiring family (the scan passes over it to
/// its peers), never one whose family's endpoint the directory no longer
/// advertises (a refresh superseded by a new endpoint is not selected until
/// the directory advertises its endpoint again), never a terminal lane.
pub proof fn law_only_due_lanes_are_selected(rt: ClusterRuntime, cursor: int)
    ensures
        rt.select_from(cursor, 0).0 matches Ok(Some(owner)) ==> rt.due_family_lane(owner),
{
    law_refresh_selection_first_due(rt, cursor, 0);
    if let (Ok(Some(owner)), _) = rt.select_from(cursor, 0) {
        let k = choose|k: int| {
            &&& 0 <= k < rt.refresh_turn().len()
            &&& (forall|j: int| 0 <= j < k ==> #[trigger] rt.probe_at(cursor, j) == RefreshProbe::Skip)
            &&& rt.probe_at(cursor, k) == RefreshProbe::Ready(owner)
            &&& rt.select_from(cursor, 0).1 == spec_advance_cursor(rt.turn_position(cursor, k), 1, rt.refresh_turn().len() as int)
        };
        let lane = rt.refresh_turn()[rt.turn_position(cursor, k)];
        reveal(ClusterRuntime::probe);
        assert(rt.probe(lane) == RefreshProbe::Ready(owner));
        let t = lane.traffic.order();
        assert(rt.families().contains_key(lane.broker_id));
        assert(rt.families()[lane.broker_id].owners()[t] == owner);
    }
}

/// Selection depends on the directory only through the endpoints it
/// advertises: two runtimes alike in their refresh turn, families, lanes and
/// slots, whose directories advertise the same endpoints, select alike. So a
/// directory that moves a broker from one endpoint to another and back (A,
/// then B, then A again) leaves the broker's lanes selected as under the
/// first A.
pub proof fn law_selection_follows_the_advertised_endpoints(a: ClusterRuntime, b: ClusterRuntime, cursor: int)
    requires
        a.refresh_turn() == b.refresh_turn(),
        a.families() == b.families(),
        a.lanes() == b.lanes(),
        a.slots() == b.slots(),
        a.directory() == b.directory(),
    ensures
        a.select_from(cursor, 0) == b.select_from(cursor, 0),
{
    lemma_select_congruent(a, b, cursor, 0);
}

/// A slot the cursor just passed goes last: selecting from cursor `m` picks
/// the slot just behind `m` (so the cursor comes back to `m`) only when every
/// other slot of the turn is skipped. After a selection leaves the cursor
/// just past a lane, that lane, even when deferred and due again, is selected
/// again only after every peer that is due.
pub proof fn law_selected_slot_goes_last(rt: ClusterRuntime, m: int)
    requires
        0 <= m < rt.refresh_turn().len(),
    ensures
        rt.select_from(m, 0) matches (Ok(Some(_)), moved) && moved == m
            ==> forall|j: int| 0 <= j < rt.refresh_turn().len() - 1 ==> #[trigger] rt.probe_at(m, j) == RefreshProbe::Skip,
{
    let ring = rt.refresh_turn().len() as int;
    law_refresh_selection_first_due(rt, m, 0);
    if let (Ok(Some(owner)), moved) = rt.select_from(m, 0) {
        if moved == m {
            let k = choose|k: int| {
                &&& 0 <= k < ring
                &&& (forall|j: int| 0 <= j < k ==> #[trigger] rt.probe_at(m, j) == RefreshProbe::Skip)
                &&& rt.probe_at(m, k) == RefreshProbe::Ready(owner)
                &&& moved == spec_advance_cursor(rt.turn_position(m, k), 1, ring)
            };
            assert(m % ring == m) by (nonlinear_arith) requires 0 <= m < ring;
            let position = rt.turn_position(m, k);
            assert(0 <= position < ring);
            assert(position % ring == position) by (nonlinear_arith) requires 0 <= position < ring;
            assert(k == ring - 1);
        }
    }
}

/// While the seed's bootstrap restart is pending, the endpoint-refresh scan
/// answers the restart and leaves the runtime as it was; so the first broker
/// scan after the restart is owned selects what a scan before those answers
/// would have: two runtimes with the same view select alike and expect the
/// same lanes.
pub proof fn law_pending_restart_leaves_the_broker_scan_unchanged(a: ClusterRuntime, b: ClusterRuntime, cursor: int)
    requires
        a.same_view(b),
    ensures
        a.select_from(cursor, 0) == b.select_from(cursor, 0),
        a.expected_lanes() == b.expected_lanes(),
        a.refresh_cursor() == b.refresh_cursor(),
{
    lemma_select_congruent(a, b, cursor, 0);
}

impl ClusterRuntime {
    /// The owners of the ready slots at offsets `from` and beyond from
    /// `cursor`, in ring order.
    pub open spec fn ready_from(&self, cursor: int, from: int) -> Seq<DirectRefreshOwner>
        decreases self.refresh_turn().len() - from,
    {
        if from < 0 || from >= self.refresh_turn().len() {
            Seq::empty()
        } else {
            match self.probe_at(cursor, from) {
                RefreshProbe::Ready(owner) => seq![owner] + self.ready_from(cursor, from + 1),
                _ => self.ready_from(cursor, from + 1),
            }
        }
    }

    /// The owners `count` successive selections pick on this runtime, each
    /// starting where the previous one left the cursor; it stops early at a
    /// selection that picks nothing or fails.
    pub open spec fn selections(&self, cursor: int, count: nat) -> Seq<DirectRefreshOwner>
        decreases count,
    {
        if count == 0 {
            Seq::empty()
        } else {
            match self.select_from(cursor, 0) {
                (Ok(Some(owner)), moved) => seq![owner] + self.selections(moved, (count - 1) as nat),
                _ => Seq::empty(),
            }
        }
    }

    /// No slot of the refresh turn reports a failure: each is skipped or
    /// ready.
    pub open spec fn turn_healthy(&self) -> bool {
        forall|i: int| 0 <= i < self.refresh_turn().len()
            ==> (#[trigger] self.probe(self.refresh_turn()[i]) is Skip || self.probe(self.refresh_turn()[i]) is Ready)
    }
}

/// Offsets before the first ready one contribute nothing.
proof fn lemma_ready_from_skips(rt: ClusterRuntime, cursor: int, from: int, k: int)
    requires
        0 <= from <= k < rt.refresh_turn().len(),
        forall|j: int| from <= j < k ==> #[trigger] rt.probe_at(cursor, j) == RefreshProbe::Skip,
    ensures
        rt.ready_from(cursor, from) == rt.ready_from(cursor, k),
    decreases k - from,
{
    if from < k {
        lemma_ready_from_skips(rt, cursor, from + 1, k);
    }
}

/// Probing from the cursor a selection at offset `k` leaves behind reads the
/// slots from offset `k + 1` on, around the ring.
proof fn lemma_probe_shift(rt: ClusterRuntime, cursor: int, k: int, j: int)
    requires
        0 <= cursor < rt.refresh_turn().len(),
        0 <= k < rt.refresh_turn().len(),
        0 <= j < rt.refresh_turn().len(),
    ensures
        ({
            let ring = rt.refresh_turn().len() as int;
            let moved = spec_advance_cursor(rt.turn_position(cursor, k), 1, ring);
            &&& 0 <= moved < ring
            &&& k + 1 + j < ring ==> rt.probe_at(moved, j) == rt.probe_at(cursor, k + 1 + j)
            &&& k + 1 + j >= ring ==> rt.probe_at(moved, j) == rt.probe_at(cursor, k + 1 + j - ring)
        }),
{
    let ring = rt.refresh_turn().len() as int;
    assert(cursor % ring == cursor) by (nonlinear_arith) requires 0 <= cursor < ring;
    let position = rt.turn_position(cursor, k);
    assert(0 <= position < ring);
    assert(position % ring == position) by (nonlinear_arith) requires 0 <= position < ring;
    let moved = spec_advance_cursor(position, 1, ring);
    assert(0 <= moved < ring);
    assert(moved % ring == moved) by (nonlinear_arith) requires 0 <= moved < ring;
}

/// After selecting the first ready slot, at offset `k`, the ready slots seen
/// from the cursor left behind are the remaining ones, then the one just
/// selected.
proof fn lemma_ready_rotates(rt: ClusterRuntime, cursor: int, k: int, owner: DirectRefreshOwner)
    requires
        0 <= cursor < rt.refresh_turn().len(),
        0 <= k < rt.refresh_turn().len(),
        forall|j: int| 0 <= j < k ==> #[trigger] rt.probe_at(cursor, j) == RefreshProbe::Skip,
        rt.probe_at(cursor, k) == RefreshProbe::Ready(owner),
    ensures
        rt.ready_from(cursor, 0) == seq![owner] + rt.ready_from(cursor, k + 1),
        rt.ready_from(spec_advance_cursor(rt.turn_position(cursor, k), 1, rt.refresh_turn().len() as int), 0)
            == rt.ready_from(cursor, k + 1) + seq![owner],
{
    let ring = rt.refresh_turn().len() as int;
    lemma_ready_from_skips(rt, cursor, 0, k);
    lemma_ready_unwrapped(rt, cursor, k, owner, 0);
    assert(rt.ready_from(cursor, k) == seq![owner] + rt.ready_from(cursor, k + 1));
}

/// From the cursor left behind, offsets `ring - k - 1` on read the offsets
/// up to `k` from `cursor`: nothing but the selected slot is ready there.
proof fn lemma_ready_wrapped(rt: ClusterRuntime, cursor: int, k: int, owner: DirectRefreshOwner, j: int)
    requires
        0 <= cursor < rt.refresh_turn().len(),
        0 <= k < rt.refresh_turn().len(),
        forall|i: int| 0 <= i < k ==> #[trigger] rt.probe_at(cursor, i) == RefreshProbe::Skip,
        rt.probe_at(cursor, k) == RefreshProbe::Ready(owner),
        rt.refresh_turn().len() - k - 1 <= j <= rt.refresh_turn().len() - 1,
    ensures
        rt.ready_from(spec_advance_cursor(rt.turn_position(cursor, k), 1, rt.refresh_turn().len() as int), j) == seq![owner],
    decreases rt.refresh_turn().len() - j,
{
    let ring = rt.refresh_turn().len() as int;
    let moved = spec_advance_cursor(rt.turn_position(cursor, k), 1, ring);
    lemma_probe_shift(rt, cursor, k, j);
    if j == ring - 1 {
        assert(rt.ready_from(moved, ring) == Seq::<DirectRefreshOwner>::empty());
        assert(seq![owner] + Seq::<DirectRefreshOwner>::empty() =~= seq![owner]);
    } else {
        lemma_ready_wrapped(rt, cursor, k, owner, j + 1);
        assert(rt.probe_at(cursor, k + 1 + j - ring) == RefreshProbe::Skip);
    }
}

/// From the cursor left behind, offsets `i` below `ring - k - 1` read the
/// offsets `k + 1 + i` from `cursor`, and the selected slot comes last.
proof fn lemma_ready_unwrapped(rt: ClusterRuntime, cursor: int, k: int, owner: DirectRefreshOwner, i: int)
    requires
        0 <= cursor < rt.refresh_turn().len(),
        0 <= k < rt.refresh_turn().len(),
        forall|j: int| 0 <= j < k ==> #[trigger] rt.probe_at(cursor, j) == RefreshProbe::Skip,
        rt.probe_at(cursor, k) == RefreshProbe::Ready(owner),
        0 <= i <= rt.refresh_turn().len() - k - 1,
    ensures
        rt.ready_from(spec_advance_cursor(rt.turn_position(cursor, k), 1, rt.refresh_turn().len() as int), i)
            == rt.ready_from(cursor, k + 1 + i) + seq![owner],
    decreases rt.refresh_turn().len() - k - 1 - i,
{
    let ring = rt.refresh_turn().len() as int;
    let moved = spec_advance_cursor(rt.turn_position(cursor, k), 1, ring);
    if i == ring - k - 1 {
        lemma_ready_wrapped(rt, cursor, k, owner, i);
        assert(rt.ready_from(cursor, ring) == Seq::<DirectRefreshOwner>::empty());
        assert(Seq::<DirectRefreshOwner>::empty() + seq![owner] =~= seq![owner]);
    } else {
        lemma_ready_unwrapped(rt, cursor, k, owner, i + 1);
        lemma_probe_shift(rt, cursor, k, i);
        let p = rt.probe_at(moved, i);
        assert(p == rt.probe_at(cursor, k + 1 + i));
        match p {
            RefreshProbe::Ready(o) => {
                assert(seq![o] + (rt.ready_from(cursor, k + 2 + i) + seq![owner])
                    =~= (seq![o] + rt.ready_from(cursor, k + 2 + i)) + seq![owner]);
            },
            _ => {},
        }
    }
}

/// The first selection on a runtime whose turn reports no failure picks the
/// first ready slot from the cursor; from the cursor it leaves, the ready
/// slots are the remaining ones, then the one just selected.
proof fn lemma_first_selection(rt: ClusterRuntime, cursor: int) -> (moved: int)
    requires
        rt.turn_healthy(),
        0 <= cursor < rt.refresh_turn().len(),
        rt.ready_from(cursor, 0).len() > 0,
    ensures
        ({
            let ready = rt.ready_from(cursor, 0);
            &&& rt.select_from(cursor, 0) == (Ok::<Option<DirectRefreshOwner>, RefreshFailure>(Some(ready[0])), moved)
            &&& 0 <= moved < rt.refresh_turn().len()
            &&& rt.ready_from(moved, 0) == ready.drop_first().push(ready[0])
        }),
{
    let ring = rt.refresh_turn().len() as int;
    let ready = rt.ready_from(cursor, 0);
    law_refresh_selection_first_due(rt, cursor, 0);
    reveal(ClusterRuntime::probe);
    let (selected, moved) = rt.select_from(cursor, 0);
    assert(selected != Ok::<Option<DirectRefreshOwner>, RefreshFailure>(None)) by {
        if selected == Ok::<Option<DirectRefreshOwner>, RefreshFailure>(None) {
            lemma_ready_from_skips(rt, cursor, 0, ring - 1);
            assert(rt.probe_at(cursor, ring - 1) == RefreshProbe::Skip);
            assert(rt.ready_from(cursor, ring - 1) == rt.ready_from(cursor, ring));
        }
    }
    assert(selected is Ok) by {
        if let Err(error) = selected {
            let k = choose|k: int| {
                &&& 0 <= k < ring
                &&& (forall|j: int| 0 <= j < k ==> #[trigger] rt.probe_at(cursor, j) == RefreshProbe::Skip)
                &&& (rt.probe_at(cursor, k) matches RefreshProbe::FenceDiverged(owner)
                        && error == (RefreshFailure { error: ClusterError::RefreshFenceDiverged, lane: Some(rt.slots()[owner.key()]) })
                    || rt.probe_at(cursor, k) is Vanished && error == (RefreshFailure { error: ClusterError::RefreshFamilyVanished, lane: None }))
            };
            let position = rt.turn_position(cursor, k);
            assert(0 <= position < ring) by {
                assert(cursor % ring == cursor) by (nonlinear_arith) requires 0 <= cursor < ring;
            }
            assert(rt.probe(rt.refresh_turn()[position]) is Skip || rt.probe(rt.refresh_turn()[position]) is Ready);
        }
    }
    let owner = selected->Ok_0->Some_0;
    let k = choose|k: int| {
        &&& 0 <= k < ring
        &&& (forall|j: int| 0 <= j < k ==> #[trigger] rt.probe_at(cursor, j) == RefreshProbe::Skip)
        &&& rt.probe_at(cursor, k) == RefreshProbe::Ready(owner)
        &&& moved == spec_advance_cursor(rt.turn_position(cursor, k), 1, ring)
    };
    lemma_ready_rotates(rt, cursor, k, owner);
    lemma_probe_shift(rt, cursor, k, 0);
    let rest = rt.ready_from(cursor, k + 1);
    assert(ready == seq![owner] + rest);
    assert(ready[0] == owner);
    assert(ready.drop_first() =~= rest);
    assert(rest + seq![owner] =~= rest.push(owner));
    moved
}

/// Successive selections on an unchanged runtime whose turn reports no
/// failure: each picks the next ready slot in ring order, starting from the
/// cursor.
proof fn lemma_selections_follow_the_ring(rt: ClusterRuntime, cursor: int, n: nat)
    requires
        rt.turn_healthy(),
        0 <= cursor < rt.refresh_turn().len(),
        n <= rt.ready_from(cursor, 0).len(),
    ensures
        rt.selections(cursor, n) == rt.ready_from(cursor, 0).take(n as int),
    decreases n,
{
    let ready = rt.ready_from(cursor, 0);
    if n == 0 {
        assert(ready.take(0) =~= Seq::<DirectRefreshOwner>::empty());
    } else {
        let moved = lemma_first_selection(rt, cursor);
        let rotated = rt.ready_from(moved, 0);
        lemma_selections_follow_the_ring(rt, moved, (n - 1) as nat);
        assert(rt.selections(cursor, n) == seq![ready[0]] + rt.selections(moved, (n - 1) as nat));
        assert(rotated.take(n - 1) =~= ready.subrange(1, n as int));
        assert(seq![ready[0]] + ready.subrange(1, n as int) =~= ready.take(n as int));
    }
}

/// Rebuilding the refresh turn is stable: two enumerations of the same
/// broker ids, each without repeats and in ascending order, are the same, so
/// successive scans over the same families rebuild the same refresh turn and
/// the round continues from where the previous scan left the cursor.
pub proof fn law_refresh_turn_is_rebuilt_alike(a: Seq<i32>, b: Seq<i32>)
    requires
        a.to_set() == b.to_set(),
        a.no_duplicates(),
        b.no_duplicates(),
        forall|i: int, j: int| 0 <= i < j < a.len() ==> a[i] < a[j],
        forall|i: int, j: int| 0 <= i < j < b.len() ==> b[i] < b[j],
    ensures
        a == b,
        turn_of(a) == turn_of(b),
    decreases a.len(),
{
    if a.len() > 0 {
        assert(a.to_set().contains(a[0]));
        assert(b.len() > 0);
        assert(b.to_set().contains(b[0]));
        let i = choose|i: int| 0 <= i < b.len() && b[i] == a[0];
        let j = choose|j: int| 0 <= j < a.len() && a[j] == b[0];
        assert(a[0] == b[0]) by {
            if i > 0 {
                assert(b[0] < b[i]);
            }
            if j > 0 {
                assert(a[0] < a[j]);
            }
        }
        let ta = a.drop_first();
        let tb = b.drop_first();
        assert(ta.to_set() =~= tb.to_set()) by {
            assert forall|x: i32| ta.to_set().contains(x) implies tb.to_set().contains(x) by {
                let p = choose|p: int| 0 <= p < ta.len() && ta[p] == x;
                assert(a[p + 1] == x);
                assert(b.to_set().contains(x));
                let q = choose|q: int| 0 <= q < b.len() && b[q] == x;
                assert(q != 0) by {
                    if q == 0 {
                        assert(a[0] < a[p + 1]);
                    }
                }
                assert(tb[q - 1] == x);
            }
            assert forall|x: i32| tb.to_set().contains(x) implies ta.to_set().contains(x) by {
                let p = choose|p: int| 0 <= p < tb.len() && tb[p] == x;
                assert(b[p + 1] == x);
                assert(a.to_set().contains(x));
                let q = choose|q: int| 0 <= q < a.len() && a[q] == x;
                assert(q != 0) by {
                    if q == 0 {
                        assert(b[0] < b[p + 1]);
                    }
                }
                assert(ta[q - 1] == x);
            }
        }
        law_refresh_turn_is_rebuilt_alike(ta, tb);
        assert(a =~= b) by {
            assert forall|k: int| 0 <= k < a.len() implies a[k] == b[k] by {
                if k > 0 {
                    assert(ta[k - 1] == tb[k - 1]);
                }
            }
        }
    } else {
        if b.len() > 0 {
            assert(b.to_set().contains(b[0]));
        }
        assert(a =~= b);
    }
}

/// Endpoint refresh is round-robin over the ready lanes: on a runtime whose
/// refresh turn reports no failure, as many successive selections as there
/// are ready slots pick each ready owner exactly once, in ring order from the
/// cursor, and the next selection starts the round again with the first.
pub proof fn law_refresh_is_round_robin(rt: ClusterRuntime, cursor: int)
    requires
        rt.turn_healthy(),
        0 <= cursor < rt.refresh_turn().len(),
    ensures
        ({
            let ready = rt.ready_from(cursor, 0);
            &&& rt.selections(cursor, ready.len()) == ready
            &&& ready.len() > 0 ==> rt.selections(cursor, ready.len() + 1) == ready.push(ready[0])
        }),
{
    let ready = rt.ready_from(cursor, 0);
    lemma_selections_follow_the_ring(rt, cursor, ready.len());
    assert(ready.take(ready.len() as int) =~= ready);
    if ready.len() > 0 {
        let moved = lemma_first_selection(rt, cursor);
        let rotated = rt.ready_from(moved, 0);
        lemma_selections_follow_the_ring(rt, moved, ready.len());
        assert(rt.selections(cursor, ready.len() + 1) == seq![ready[0]] + rt.selections(moved, ready.len()));
        assert(rotated.take(ready.len() as int) =~= rotated);
        assert(seq![ready[0]] + rotated =~= ready.push(ready[0]));
    }
}

/// Endpoint-refresh selection scans the refresh turn once, in ring order from
/// the cursor, and stops at the first slot that is not skipped: nothing is
/// selected (and the cursor stays) only when every slot is skipped; a selected
/// owner is the first ready one, with every earlier slot skipped, and the
/// cursor then points just past it; a failure is reported for the first slot
/// whose fence diverged or whose family vanished, with the cursor unchanged.
#[verifier::spinoff_prover]
#[verifier::rlimit(40)]
pub proof fn law_refresh_selection_first_due(rt: ClusterRuntime, cursor: int, offset: int)
    requires
        0 <= offset,
    ensures
        ({
            let ring = rt.refresh_turn().len() as int;
            let (selected, moved) = rt.select_from(cursor, offset);
            &&& selected == Ok::<Option<DirectRefreshOwner>, RefreshFailure>(None) <==> (forall|j: int| offset <= j < ring ==> #[trigger] rt.probe_at(cursor, j) == RefreshProbe::Skip)
            &&& selected == Ok::<Option<DirectRefreshOwner>, RefreshFailure>(None) ==> moved == cursor
            &&& selected matches Ok(Some(owner)) ==> exists|k: int| {
                &&& offset <= k < ring
                &&& (forall|j: int| offset <= j < k ==> #[trigger] rt.probe_at(cursor, j) == RefreshProbe::Skip)
                &&& rt.probe_at(cursor, k) == RefreshProbe::Ready(owner)
                &&& moved == spec_advance_cursor(rt.turn_position(cursor, k), 1, ring)
            }
            &&& selected matches Err(error) ==> moved == cursor && exists|k: int| {
                &&& offset <= k < ring
                &&& (forall|j: int| offset <= j < k ==> #[trigger] rt.probe_at(cursor, j) == RefreshProbe::Skip)
                &&& (rt.probe_at(cursor, k) matches RefreshProbe::FenceDiverged(owner)
                        && error == (RefreshFailure { error: ClusterError::RefreshFenceDiverged, lane: Some(rt.slots()[owner.key()]) })
                    || rt.probe_at(cursor, k) is Vanished && error == (RefreshFailure { error: ClusterError::RefreshFamilyVanished, lane: None }))
            }
        }),
    decreases rt.refresh_turn().len() - offset,
{
    let ring = rt.refresh_turn().len() as int;
    if offset < ring {
        law_refresh_selection_first_due(rt, cursor, offset + 1);
        let (selected, moved) = rt.select_from(cursor, offset);
        match rt.probe_at(cursor, offset) {
            RefreshProbe::Skip => {
                assert forall|j: int| offset <= j < ring && (forall|i: int| offset + 1 <= i < ring ==> #[trigger] rt.probe_at(cursor, i) == RefreshProbe::Skip)
                    implies #[trigger] rt.probe_at(cursor, j) == RefreshProbe::Skip by {
                    if j > offset {
                        assert(rt.probe_at(cursor, j) == RefreshProbe::Skip);
                    }
                }
                match selected {
                    Ok(Some(owner)) => {
                    let k = choose|k: int| {
                        &&& offset + 1 <= k < ring
                        &&& (forall|j: int| offset + 1 <= j < k ==> #[trigger] rt.probe_at(cursor, j) == RefreshProbe::Skip)
                        &&& rt.probe_at(cursor, k) == RefreshProbe::Ready(owner)
                        &&& moved == spec_advance_cursor(rt.turn_position(cursor, k), 1, ring)
                    };
                    assert(forall|j: int| offset <= j < k ==> #[trigger] rt.probe_at(cursor, j) == RefreshProbe::Skip);
                    },
                    Err(error) => {
                    let k = choose|k: int| {
                        &&& offset + 1 <= k < ring
                        &&& (forall|j: int| offset + 1 <= j < k ==> #[trigger] rt.probe_at(cursor, j) == RefreshProbe::Skip)
                        &&& (rt.probe_at(cursor, k) matches RefreshProbe::FenceDiverged(owner)
                                && error == (RefreshFailure { error: ClusterError::RefreshFenceDiverged, lane: Some(rt.slots()[owner.key()]) })
                            || rt.probe_at(cursor, k) is Vanished && error == (RefreshFailure { error: ClusterError::RefreshFamilyVanished, lane: None }))
                    };
                    assert(forall|j: int| offset <= j < k ==> #[trigger] rt.probe_at(cursor, j) == RefreshProbe::Skip);
                    },
                    _ => {},
                }
            },
            _ => {
                assert(rt.probe_at(cursor, offset) != RefreshProbe::Skip);
                assert(forall|j: int| offset <= j < offset ==> #[trigger] rt.probe_at(cursor, j) == RefreshProbe::Skip);
            },
        }
    }
}

/// Whether selecting from `cursor` on `scan` yields `action` and leaves the
/// cursor where `scan` holds it.
pub open spec fn scan_selects(scan: ClusterRuntime, cursor: int, action: Result<Option<ClusterEndpointRefreshAction>, RefreshFailure>) -> bool {
    let (selected, moved) = scan.select_from(cursor, 0);
    &&& scan.refresh_cursor() == moved
    &&& action == match selected {
        Ok(Some(owner)) => Ok(Some(ClusterEndpointRefreshAction::Broker(owner))),
        Ok(None) => Ok(None),
        Err(failure) => Err::<Option<ClusterEndpointRefreshAction>, RefreshFailure>(failure),
    }
}

/// What a refresh-turn endpoint selection yields.
#[derive(Clone, Copy, Debug, PartialEq, Eq, Structural)]
pub enum ClusterEndpointRefreshAction {
    /// The seed's bootstrap resolution must restart first.
    SeedBootstrap,
    /// This broker lane's endpoint refresh is due.
    Broker(DirectRefreshOwner),
}

impl ClusterRuntime {
    /// Whether every broker of the refresh turn still has a family.
    pub open spec fn turn_families_present(&self) -> bool {
        forall|i: int| 0 <= i < self.refresh_turn().len() ==> self.families().contains_key(#[trigger] self.refresh_turn()[i].broker_id)
    }

    /// The lanes the refresh turn and the seed account for.
    pub open spec fn expected_lanes(&self) -> int {
        (if self.seed() is Some { 1int } else { 0int }) + active_in_turn(self.families(), self.refresh_turn(), self.refresh_turn().len() as int)
    }

    /// Checks that the seed and the active lanes of the refresh turn account
    /// for exactly the physical lanes.
    pub fn validate_refresh_shape(&self) -> (checked: Result<(), ClusterError>)
        requires
            self.wf(),
        ensures
            !self.turn_families_present() ==> checked == Err::<(), ClusterError>(ClusterError::RefreshFamilyVanished),
            self.turn_families_present() && self.expected_lanes() == self.lanes().len() ==> checked == Ok::<(), ClusterError>(()),
            self.turn_families_present() && self.expected_lanes() != self.lanes().len()
                ==> checked == Err::<(), ClusterError>(ClusterError::RefreshShapeDiverged),
    {
        let mut expected: usize = if self.seed.is_some() { 1 } else { 0 };
        let mut index: usize = 0;
        while index < self.refresh_turn.len()
            invariant
                self.wf(),
                index <= self.refresh_turn().len(),
                forall|i: int| 0 <= i < index ==> self.families().contains_key(#[trigger] self.refresh_turn()[i].broker_id),
                expected == (if self.seed() is Some { 1int } else { 0int }) + active_in_turn(self.families(), self.refresh_turn(), index as int),
                expected <= 1 + index,
            decreases self.refresh_turn().len() - index,
        {
            let lane = self.refresh_turn[index];
            let family = match self.families.get(&lane.broker_id) {
                Some(family) => family,
                None => {
                    return Err(ClusterError::RefreshFamilyVanished);
                },
            };
            proof {
                crate::traffic::lemma_traffic_order_bijective();
            }
            let owner = family.owner(lane.traffic);
            if family.is_active(lane.traffic) {
                match self.slots.get(&owner.slot_key()) {
                    Some(slot) => {
                        if self.lanes[*slot].owner != owner {
                            return Err(ClusterError::RefreshShapeDiverged);
                        }
                    },
                    None => return Err(ClusterError::RefreshShapeDiverged),
                }
                expected = expected + 1;
            } else if self.slots.contains_key(&owner.slot_key()) {
                return Err(ClusterError::RefreshShapeDiverged);
            }
            index = index + 1;
        }
        if expected == self.lanes.len() && expected == self.slots.len() {
            return Ok(());
        }
        Err(ClusterError::RefreshShapeDiverged)
    }

    /// The first lane, in lane order, that is neither the seed nor held by a
    /// family.
    pub fn orphan_lane(&self) -> (orphan: Option<usize>)
        requires
            self.wf(),
        ensures
            orphan matches Some(i) ==> i < self.lanes().len() && self.is_orphan(i as int)
                && forall|j: int| 0 <= j < i ==> !self.is_orphan(j),
            orphan is None ==> forall|j: int| 0 <= j < self.lanes().len() ==> !self.is_orphan(j),
    {
        let mut index: usize = 0;
        while index < self.lanes.len()
            invariant
                self.wf(),
                index <= self.lanes().len(),
                forall|j: int| 0 <= j < index ==> !self.is_orphan(j),
            decreases self.lanes().len() - index,
        {
            let owner = self.lanes[index].owner;
            let is_seed = match self.seed {
                Some(seed) => seed.owner == owner,
                None => false,
            };
            if !is_seed && self.family_of(owner).is_none() {
                return Some(index);
            }
            index = index + 1;
        }
        None
    }

    /// The lane at `index` belongs neither to the seed nor to a family.
    pub open spec fn is_orphan(&self, index: int) -> bool {
        let owner = self.lanes()[index].owner;
        &&& !(self.seed() matches Some(seed) && seed.owner == owner)
        &&& !self.family_holds(owner)
    }

    /// Whether the lane at `index` is the first orphan in lane order.
    pub open spec fn is_first_orphan(&self, index: int) -> bool {
        &&& 0 <= index < self.lanes().len()
        &&& self.is_orphan(index)
        &&& forall|j: int| 0 <= j < index ==> !self.is_orphan(j)
    }

    /// Settles a refused endpoint-refresh step: the lane the failure names,
    /// if any, becomes terminal; the failure's error is handed back.
    pub fn fail_refresh_lane(&mut self, failure: RefreshFailure) -> (error: ClusterError)
        requires
            old(self).wf(),
        ensures
            final(self).wf(),
            error == failure.error,
            final(self).lanes() == fatalized(old(self).lanes(), failure.lane),
            final(self).same_view_but_lanes(*old(self)),
            final(self).slots() == old(self).slots(),
            final(self).families() == old(self).families(),
            final(self).seed() == old(self).seed(),
            final(self).next_lane() == old(self).next_lane(),
            final(self).next_endpoint() == old(self).next_endpoint(),
            final(self).bounds() == old(self).bounds(),
            final(self).max_brokers() == old(self).max_brokers(),
            final(self).directory() == old(self).directory(),
            final(self).directory_generation() == old(self).directory_generation(),
            final(self).pending_seed() == old(self).pending_seed(),
            final(self).refresh_turn() == old(self).refresh_turn(),
            final(self).refresh_cursor() == old(self).refresh_cursor(),
            final(self).draining() == old(self).draining(),
            final(self).scram_sender() == old(self).scram_sender(),
    {
        if let Some(index) = failure.lane {
            if index < self.lanes.len() {
                let ghost before = *self;
                self.lanes[index].facts.terminal = true;
                proof {
                    assert(self.lanes() =~= fatalized(before.lanes(), Some(index)));
                    lemma_wf_preserved_by_facts(before, *self);
                }
            }
        }
        failure.error
    }

    /// Whether `action` is what selecting from `cursor` yields on this
    /// runtime's refresh turn, families, slots and directory with the lanes
    /// `lanes` (those before a failure it reports made a lane terminal), the
    /// cursor ending where that selection leaves it.
    pub open spec fn scanned(&self, lanes: Seq<LaneRecord>, cursor: int,
        action: Result<Option<ClusterEndpointRefreshAction>, RefreshFailure>) -> bool
    {
        exists|scan: ClusterRuntime| {
            &&& scan.lanes() == lanes
            &&& scan.slots() == self.slots()
            &&& scan.families() == self.families()
            &&& scan.directory() == self.directory()
            &&& scan.refresh_turn() == self.refresh_turn()
            &&& scan.refresh_cursor() == self.refresh_cursor()
            &&& scan_selects(scan, cursor, action)
        }
    }

    /// Chooses the next endpoint-refresh action: a pending seed bootstrap
    /// restart comes first; otherwise the refresh turn is rebuilt, its shape
    /// validated, and the next due broker lane selected. A lane found corrupt
    /// (the first one that lost its broker family, or one whose refresh fence
    /// diverged) is named in the failure and made terminal.
    pub fn next_endpoint_refresh_action(&mut self, seed_restart_pending: bool)
        -> (action: Result<Option<ClusterEndpointRefreshAction>, RefreshFailure>)
        requires
            old(self).wf(),
        ensures
            final(self).wf(),
            seed_restart_pending ==> action == Ok::<Option<ClusterEndpointRefreshAction>, RefreshFailure>(Some(ClusterEndpointRefreshAction::SeedBootstrap))
                && final(self).same_view(*old(self)),
            !seed_restart_pending ==> {
                &&& exists|brokers: Seq<i32>| {
                    &&& brokers.to_set() == old(self).families().dom()
                    &&& brokers.no_duplicates()
                    &&& forall|i: int, j: int| 0 <= i < j < brokers.len() ==> brokers[i] < brokers[j]
                    &&& final(self).refresh_turn() == turn_of(brokers)
                }
                &&& final(self).lanes() == fatalized(old(self).lanes(), refused_lane(action))
                &&& final(self).slots() == old(self).slots()
                &&& final(self).families() == old(self).families()
                &&& final(self).seed() == old(self).seed()
                &&& final(self).next_lane() == old(self).next_lane()
                &&& final(self).expected_lanes() != old(self).lanes().len() && (exists|i: int| old(self).is_first_orphan(i)) ==> {
                    &&& action matches Err(failure)
                    &&& failure.error == ClusterError::RefreshLaneLostFamily
                    &&& failure.lane matches Some(i) && old(self).is_first_orphan(i as int)
                }
                &&& final(self).expected_lanes() != old(self).lanes().len() && !(exists|i: int| old(self).is_first_orphan(i)) ==> {
                    &&& action == Err::<Option<ClusterEndpointRefreshAction>, RefreshFailure>(
                        RefreshFailure { error: ClusterError::RefreshShapeDiverged, lane: None })
                }
                &&& final(self).expected_lanes() == old(self).lanes().len() ==> final(self).scanned(
                    old(self).lanes(),
                    spec_normalized_cursor(old(self).refresh_cursor() as int, old(self).families().dom().len() * TRAFFIC_COUNT),
                    action,
                )
            },
    {
        if seed_restart_pending {
            return Ok(Some(ClusterEndpointRefreshAction::SeedBootstrap));
        }
        self.prepare_refresh_turn();
        let ghost prepared = *self;
        proof {
            let brokers = choose|brokers: Seq<i32>| {
                &&& brokers.to_set() == old(self).families().dom()
                &&& brokers.no_duplicates()
                &&& forall|i: int, j: int| 0 <= i < j < brokers.len() ==> brokers[i] < brokers[j]
                &&& self.refresh_turn() == turn_of(brokers)
            };
            assert forall|i: int| 0 <= i < self.refresh_turn().len() implies self.families().contains_key(#[trigger] self.refresh_turn()[i].broker_id) by {
                assert(0 <= i / 4 < brokers.len()) by (nonlinear_arith) requires 0 <= i < brokers.len() * 4;
                assert(brokers.to_set().contains(brokers[i / 4]));
            }
        }
        match self.validate_refresh_shape() {
            Ok(()) => {},
            Err(error) => {
                proof {
                    assert(self.expected_lanes() != self.lanes().len());
                    assert(error == ClusterError::RefreshShapeDiverged);
                }
                match self.orphan_lane() {
                    Some(index) => {
                        proof {
                            assert(old(self).is_orphan(index as int));
                            assert forall|j: int| 0 <= j < index implies !old(self).is_orphan(j) by {
                                assert(!self.is_orphan(j));
                            }
                            assert(old(self).is_first_orphan(index as int));
                        }
                        let failure = RefreshFailure { error: ClusterError::RefreshLaneLostFamily, lane: Some(index) };
                        self.fail_refresh_lane(failure);
                        return Err(failure);
                    },
                    None => {
                        proof {
                            assert forall|i: int| !old(self).is_first_orphan(i) by {
                                if 0 <= i < old(self).lanes().len() {
                                    assert(!self.is_orphan(i));
                                }
                            }
                        }
                        return Err(RefreshFailure { error, lane: None });
                    },
                }
            },
        }
        let selected = self.next_broker_endpoint_refresh_owner();
        let ghost scan = *self;
        let ghost cursor = spec_normalized_cursor(old(self).refresh_cursor() as int, old(self).families().dom().len() * TRAFFIC_COUNT);
        proof {
            lemma_select_congruent(prepared, *self, cursor, 0);
        }
        let action = match selected {
            Ok(Some(owner)) => Ok(Some(ClusterEndpointRefreshAction::Broker(owner))),
            Ok(None) => Ok(None),
            Err(failure) => {
                self.fail_refresh_lane(failure);
                Err(failure)
            },
        };
        proof {
            assert(scan.lanes() == old(self).lanes());
            assert(self.refresh_cursor() == scan.refresh_cursor());
            assert(scan_selects(scan, cursor, action));
            assert(self.scanned(old(self).lanes(), cursor, action));
        }
        action
    }
}

} // verus!
