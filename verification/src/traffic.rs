//! Traffic classes and the stable order in which a broker family holds them.

use vstd::prelude::*;

verus! {

/// Number of traffic classes, and so of lanes in one broker family.
pub const TRAFFIC_COUNT: usize = 4;

/// The kind of work a broker lane carries.
#[derive(Clone, Copy, Debug, PartialEq, Eq, Structural)]
pub enum TrafficClass {
    Control,
    Interactive,
    Bulk,
    LongPoll,
}

impl TrafficClass {
    /// Position of this class inside a broker family.
    pub open spec fn order(self) -> int {
        match self {
            TrafficClass::Control => 0,
            TrafficClass::Interactive => 1,
            TrafficClass::Bulk => 2,
            TrafficClass::LongPoll => 3,
        }
    }

    /// Returns the class's stable position inside a broker family.
    pub fn stable_order(self) -> (order: usize)
        ensures
            order == self.order(),
            order < TRAFFIC_COUNT,
    {
        match self {
            TrafficClass::Control => 0,
            TrafficClass::Interactive => 1,
            TrafficClass::Bulk => 2,
            TrafficClass::LongPoll => 3,
        }
    }
}

/// The class at stable position `order`.
pub open spec fn traffic_of(order: int) -> TrafficClass {
    if order == 0 {
        TrafficClass::Control
    } else if order == 1 {
        TrafficClass::Interactive
    } else if order == 2 {
        TrafficClass::Bulk
    } else {
        TrafficClass::LongPoll
    }
}

/// Every class, one per stable position.
pub proof fn lemma_traffic_order_bijective()
    ensures
        forall|t: TrafficClass| #[trigger] traffic_of(t.order()) == t,
        forall|i: int| 0 <= i < 4 ==> (#[trigger] traffic_of(i)).order() == i,
        forall|t: TrafficClass| 0 <= #[trigger] t.order() < 4,
{
}

/// Returns the class at stable position `order` (the order of `TrafficClass::ALL`).
pub fn traffic_at(order: usize) -> (traffic: TrafficClass)
    requires
        order < TRAFFIC_COUNT,
    ensures
        traffic == traffic_of(order as int),
        traffic.order() == order,
{
    if order == 0 {
        TrafficClass::Control
    } else if order == 1 {
        TrafficClass::Interactive
    } else if order == 2 {
        TrafficClass::Bulk
    } else {
        TrafficClass::LongPoll
    }
}

/// One broker's lane for one traffic class.
#[derive(Clone, Copy, Debug, PartialEq, Eq, Structural)]
pub struct BrokerLane {
    pub broker_id: i32,
    pub traffic: TrafficClass,
}

impl BrokerLane {
    pub fn new(broker_id: i32, traffic: TrafficClass) -> (lane: BrokerLane)
        ensures
            lane.broker_id == broker_id,
            lane.traffic == traffic,
    {
        BrokerLane { broker_id, traffic }
    }
}

} // verus!
