//! One broker's semantic connection family: a reserved owner per traffic
//! class, which of them hold a physical lane, the endpoint it was built for,
//! and whether it is retiring.

use vstd::prelude::*;
use crate::endpoint::BrokerEndpoint;
use crate::identity::DirectRefreshOwner;
use crate::traffic::{TrafficClass, TRAFFIC_COUNT};

verus! {

/// A broker's family of lanes, one per traffic class.
#[derive(Debug)]
pub struct BrokerFamily {
    owners: Vec<DirectRefreshOwner>,
    active: Vec<bool>,
    endpoint: BrokerEndpoint,
    retiring: bool,
}

/// Whether a family lane holds a physical lane, and where.
#[derive(Clone, Copy, Debug, PartialEq, Eq, Structural)]
pub enum FamilyLaneState {
    /// The lane is active under this owner at this physical index.
    Active(DirectRefreshOwner, usize),
    /// The owner is reserved but holds no physical lane.
    Dormant,
}

impl BrokerFamily {
    /// Owner reserved for each traffic class, in stable order.
    pub closed spec fn owners(&self) -> Seq<DirectRefreshOwner> {
        self.owners@
    }

    /// Which traffic classes hold a physical lane, in stable order.
    pub closed spec fn active(&self) -> Seq<bool> {
        self.active@
    }

    pub closed spec fn endpoint_value(&self) -> (Seq<u8>, u16) {
        self.endpoint.value()
    }

    pub closed spec fn retiring(&self) -> bool {
        self.retiring
    }

    pub open spec fn wf(&self) -> bool {
        &&& self.owners().len() == TRAFFIC_COUNT
        &&& self.active().len() == TRAFFIC_COUNT
    }

    /// Whether `owner` is one of the family's reserved owners.
    pub open spec fn holds(&self, owner: DirectRefreshOwner) -> bool {
        exists|i: int| 0 <= i < TRAFFIC_COUNT && #[trigger] self.owners()[i] == owner
    }

    /// A family with the given owners and activity, built for `endpoint`.
    pub fn new(owners: Vec<DirectRefreshOwner>, active: Vec<bool>, endpoint: BrokerEndpoint) -> (family: BrokerFamily)
        requires
            owners.len() == TRAFFIC_COUNT,
            active.len() == TRAFFIC_COUNT,
        ensures
            family.wf(),
            family.owners() == owners@,
            family.active() == active@,
            family.endpoint_value() == endpoint.value(),
            !family.retiring(),
    {
        BrokerFamily { owners, active, endpoint, retiring: false }
    }

    /// The owner reserved for `traffic`.
    pub fn owner(&self, traffic: TrafficClass) -> (owner: DirectRefreshOwner)
        requires
            self.wf(),
        ensures
            owner == self.owners()[traffic.order()],
    {
        self.owners[traffic.stable_order()]
    }

    /// Whether `traffic` holds a physical lane.
    pub fn is_active(&self, traffic: TrafficClass) -> (active: bool)
        requires
            self.wf(),
        ensures
            active == self.active()[traffic.order()],
    {
        self.active[traffic.stable_order()]
    }

    /// Whether `owner` is one of the family's reserved owners.
    pub fn contains(&self, owner: DirectRefreshOwner) -> (found: bool)
        requires
            self.wf(),
        ensures
            found == self.holds(owner),
    {
        let mut index: usize = 0;
        while index < TRAFFIC_COUNT
            invariant
                self.wf(),
                index <= TRAFFIC_COUNT,
                forall|i: int| 0 <= i < index ==> self.owners()[i] != owner,
            decreases TRAFFIC_COUNT - index,
        {
            if self.owners[index] == owner {
                return true;
            }
            index = index + 1;
        }
        false
    }

    pub fn endpoint(&self) -> (endpoint: &BrokerEndpoint)
        ensures
            endpoint.value() == self.endpoint_value(),
    {
        &self.endpoint
    }

    pub fn is_retiring(&self) -> (retiring: bool)
        ensures
            retiring == self.retiring(),
    {
        self.retiring
    }

    /// Marks the family retiring; reports whether that changed anything.
    pub fn begin_retirement(&mut self) -> (changed: bool)
        ensures
            changed == !old(self).retiring(),
            !changed ==> *final(self) == *old(self),
            final(self).retiring(),
            final(self).owners() == old(self).owners(),
            final(self).active() == old(self).active(),
            final(self).endpoint_value() == old(self).endpoint_value(),
    {
        let changed = !self.retiring;
        self.retiring = true;
        changed
    }

    /// Marks `traffic` as holding a physical lane.
    pub fn activate(&mut self, traffic: TrafficClass)
        requires
            old(self).wf(),
        ensures
            final(self).wf(),
            final(self).active() == old(self).active().update(traffic.order(), true),
            final(self).owners() == old(self).owners(),
            final(self).endpoint_value() == old(self).endpoint_value(),
            final(self).retiring() == old(self).retiring(),
    {
        let order = traffic.stable_order();
        self.active.set(order, true);
    }
}

} // verus!
