//! How a broker route is reported to observers: whether it still owns the
//! current physical lane, and the phase it is shown in.

use vstd::prelude::*;
use crate::endpoint::BrokerEndpoint;
use crate::error::ClusterError;
use crate::identity::DirectRefreshOwner;

verus! {

/// The route a broker was advertised under, with its endpoint.
#[derive(Debug)]
pub struct AdvertisedRoute {
    pub route: u64,
    pub endpoint: BrokerEndpoint,
}

/// The route a broker lane was installed for, with the owner it installed.
#[derive(Debug)]
pub struct InstalledRoute {
    pub route: u64,
    pub endpoint: BrokerEndpoint,
    pub owner: DirectRefreshOwner,
}

/// The phase a broker lane is reported in.
#[derive(Clone, Copy, Debug, PartialEq, Eq, Structural)]
pub enum RoutePhase {
    /// The broker is no longer advertised, or its lane serves another route.
    Retired,
    /// The route owns the current physical lane, whose snapshot is reported.
    Owned,
    /// The broker's addresses are being resolved.
    Resolving,
    /// Nothing is installed yet and nothing is being resolved.
    Dormant,
}

pub open spec fn spec_owns_current(
    advertised: Option<(u64, (Seq<u8>, u16))>,
    installed: Option<(u64, (Seq<u8>, u16), DirectRefreshOwner)>,
    route_current: bool,
    physical_owner: Result<Option<DirectRefreshOwner>, ClusterError>,
) -> bool {
    match (advertised, installed) {
        (Some(advertised), Some(installed)) => {
            &&& installed.0 == advertised.0
            &&& installed.1 == advertised.1
            &&& route_current
            &&& physical_owner == Ok::<Option<DirectRefreshOwner>, ClusterError>(Some(installed.2))
        },
        _ => false,
    }
}

pub open spec fn advertised_view(advertised: &Option<AdvertisedRoute>) -> Option<(u64, (Seq<u8>, u16))> {
    match advertised {
        Some(route) => Some((route.route, route.endpoint.value())),
        None => None,
    }
}

pub open spec fn installed_view(installed: &Option<InstalledRoute>) -> Option<(u64, (Seq<u8>, u16), DirectRefreshOwner)> {
    match installed {
        Some(route) => Some((route.route, route.endpoint.value(), route.owner)),
        None => None,
    }
}

/// Whether a route owns the current physical lane: it is advertised and
/// installed for the same route and endpoint, that route is current
/// (`route_current`), and the lane currently filed for it
/// (`physical_owner`) is the installed owner.
pub fn route_owns_current_physical(
    advertised: &Option<AdvertisedRoute>,
    installed: &Option<InstalledRoute>,
    route_current: bool,
    physical_owner: Result<Option<DirectRefreshOwner>, ClusterError>,
) -> (owns: bool)
    ensures
        owns == spec_owns_current(advertised_view(advertised), installed_view(installed), route_current, physical_owner),
{
    let advertised = match advertised {
        Some(advertised) => advertised,
        None => return false,
    };
    let installed = match installed {
        Some(installed) => installed,
        None => return false,
    };
    let owner_matches = match physical_owner {
        Ok(Some(owner)) => owner == installed.owner,
        _ => false,
    };
    installed.route == advertised.route && installed.endpoint.same_as(&advertised.endpoint) && route_current && owner_matches
}

pub open spec fn spec_route_phase(advertised: bool, has_physical: bool, current: bool, resolving: bool) -> RoutePhase {
    if !advertised || (has_physical && !current) {
        RoutePhase::Retired
    } else if current && has_physical {
        RoutePhase::Owned
    } else if resolving {
        RoutePhase::Resolving
    } else {
        RoutePhase::Dormant
    }
}

/// The phase a route is reported in: retired when no longer advertised or
/// when a physical lane exists that it does not currently own; owned when it
/// owns the current physical lane; otherwise resolving or dormant by its
/// resolution.
pub fn route_phase(advertised: bool, has_physical: bool, current: bool, resolving: bool) -> (phase: RoutePhase)
    ensures
        phase == spec_route_phase(advertised, has_physical, current, resolving),
{
    if !advertised || (has_physical && !current) {
        return RoutePhase::Retired;
    }
    if current && has_physical {
        return RoutePhase::Owned;
    }
    if resolving {
        RoutePhase::Resolving
    } else {
        RoutePhase::Dormant
    }
}

} // verus!
