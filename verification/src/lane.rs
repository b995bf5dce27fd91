//! What the cluster runtime reads of one physical lane, and the predicates it
//! decides on: reclaimability, public admission, and the endpoint-refresh fence.

use vstd::prelude::*;
use crate::authentication::AuthenticationFailure;
use crate::endpoint::BrokerEndpoint;
use crate::identity::DirectRefreshOwner;

verus! {

/// Semantic operation contexts a lane still holds.
#[derive(Clone, Copy, Debug, PartialEq, Eq, Structural)]
pub struct ContextCounts {
    pub reserved: usize,
    pub published: usize,
    pub retained_bytes: u64,
    pub poisoned: bool,
}

/// The broker lifecycle phase of a lane.
#[derive(Clone, Copy, Debug, PartialEq, Eq, Structural)]
pub enum LifecyclePhase {
    Dormant,
    Connecting,
    Available,
    Backoff,
    /// Every known address failed; a resolver result is awaited for the
    /// generation that failed. `resolving` holds while a resolver request is
    /// outstanding.
    Refreshing { failed_epoch: u64, resolving: bool },
    Draining,
    Closed,
}

/// An endpoint refresh owned by a lane: who asked, for which endpoint, and
/// after which failed generation.
#[derive(Debug)]
pub struct EndpointRefresh {
    pub owner: DirectRefreshOwner,
    pub endpoint: BrokerEndpoint,
    pub failed_epoch: u64,
}

/// Why a lane's last connection closed, as far as admission cares.
#[derive(Clone, Copy, Debug, PartialEq, Eq, Structural)]
pub enum CloseCause {
    AuthenticationFailed(AuthenticationFailure),
    Other,
}

/// The state of one started lane, as the runtime reads it.
#[derive(Debug)]
pub struct LaneFacts {
    pub terminal: bool,
    /// Token of the live connection, if any.
    pub connection: Option<u64>,
    pub lifecycle: LifecyclePhase,
    /// Whether the lifecycle holds a live connection generation.
    pub live_generation: bool,
    /// Whether the Kafka session is ready for calls.
    pub session_ready: bool,
    pub endpoint_refresh: Option<EndpointRefresh>,
    /// Whether the lane waits for an endpoint refresh to be taken.
    pub refresh_needed: bool,
    pub pending_recovery: bool,
    pub pending_scram_proof: bool,
    pub authentication_session: bool,
    pub session_deadline: bool,
    pub pending_requests: usize,
    pub admission_open: bool,
    pub runnable: bool,
    pub contexts: ContextCounts,
    pub last_close_reason: Option<CloseCause>,
    /// Whether the lane holds the cluster's SCRAM proof sender.
    pub scram_proof_sender: bool,
}

/// One physical lane of a cluster runtime: its stable owner and its state.
#[derive(Debug)]
pub struct LaneRecord {
    pub owner: DirectRefreshOwner,
    pub facts: LaneFacts,
}

impl LaneFacts {
    /// Terminal and holding nothing: no connection, refresh, recovery, proof,
    /// session, deadline, queued request, admission, runnable mark or context.
    pub open spec fn is_reclaimable(&self) -> bool {
        &&& self.terminal
        &&& self.connection is None
        &&& self.endpoint_refresh is None
        &&& !self.pending_recovery
        &&& !self.pending_scram_proof
        &&& !self.authentication_session
        &&& !self.session_deadline
        &&& self.pending_requests == 0
        &&& !self.admission_open
        &&& !self.runnable
        &&& self.contexts.reserved == 0
        &&& self.contexts.published == 0
        &&& self.contexts.retained_bytes == 0
        &&& !self.contexts.poisoned
    }

    /// A ready, open, live session with no recovery pending.
    pub open spec fn admits_public(&self) -> bool {
        &&& !self.pending_recovery
        &&& self.connection is Some
        &&& self.live_generation
        &&& self.session_ready
        &&& self.admission_open
    }
}

/// Whether the lane may be dropped from its set.
pub fn reclaimable(lane: &LaneFacts) -> (result: bool)
    ensures
        result == lane.is_reclaimable(),
{
    lane.terminal
        && lane.connection.is_none()
        && lane.endpoint_refresh.is_none()
        && !lane.pending_recovery
        && !lane.pending_scram_proof
        && !lane.authentication_session
        && !lane.session_deadline
        && lane.pending_requests == 0
        && !lane.admission_open
        && !lane.runnable
        && lane.contexts.reserved == 0
        && lane.contexts.published == 0
        && lane.contexts.retained_bytes == 0
        && !lane.contexts.poisoned
}

/// A reclaimable lane holds nothing that dropping it would lose: it is
/// terminal, has no connection, endpoint refresh, pending recovery or SCRAM
/// proof, authentication session or session deadline, no queued request, no
/// open admission and no runnable mark, and holds no operation context,
/// neither reserved, nor published, nor retained bytes, nor a poisoned owner.
pub proof fn law_reclaimable_lane_holds_no_context(lane: LaneFacts)
    requires
        lane.is_reclaimable(),
    ensures
        lane.terminal,
        lane.connection is None,
        lane.endpoint_refresh is None,
        !lane.pending_recovery,
        !lane.pending_scram_proof,
        !lane.authentication_session,
        !lane.session_deadline,
        lane.pending_requests == 0,
        !lane.admission_open,
        !lane.runnable,
        lane.contexts.reserved == 0,
        lane.contexts.published == 0,
        lane.contexts.retained_bytes == 0,
        !lane.contexts.poisoned,
{
}

/// Whether a public request can be admitted right now.
pub fn can_admit_public(lane: &LaneFacts) -> (result: bool)
    ensures
        result == lane.admits_public(),
{
    !lane.pending_recovery
        && lane.connection.is_some()
        && lane.live_generation
        && lane.session_ready
        && lane.admission_open
}

/// How a request is refused by a terminal lane.
#[derive(Clone, Copy, Debug, PartialEq, Eq, Structural)]
pub enum AdmissionFailure {
    /// The lane closed because authentication failed; the request was not sent.
    AuthenticationFailed(AuthenticationFailure),
    /// The lane is closed; the request was not sent.
    Closed,
}

pub open spec fn spec_terminal_admission_failure(lane: &LaneFacts) -> Option<AdmissionFailure> {
    if !lane.terminal {
        None
    } else {
        match lane.last_close_reason {
            Some(CloseCause::AuthenticationFailed(failure)) => Some(AdmissionFailure::AuthenticationFailed(failure)),
            _ => Some(AdmissionFailure::Closed),
        }
    }
}

/// The failure a terminal lane answers every request with.
pub fn terminal_admission_failure(lane: &LaneFacts) -> (failure: Option<AdmissionFailure>)
    ensures
        failure == spec_terminal_admission_failure(lane),
{
    if !lane.terminal {
        return None;
    }
    match lane.last_close_reason {
        Some(CloseCause::AuthenticationFailed(failure)) => Some(AdmissionFailure::AuthenticationFailed(failure)),
        _ => Some(AdmissionFailure::Closed),
    }
}

/// A lane's endpoint refresh is consistent with its lifecycle: a refreshing
/// lane owns exactly the refresh of this owner, endpoint and failed
/// generation, and any other lane owns none.
pub open spec fn spec_refresh_fence_valid(lane: &LaneFacts, owner: DirectRefreshOwner, endpoint: (Seq<u8>, u16)) -> bool {
    match (lane.endpoint_refresh, lane.lifecycle) {
        (None, LifecyclePhase::Refreshing { .. }) => false,
        (None, _) => true,
        (Some(refresh), LifecyclePhase::Refreshing { failed_epoch, .. }) =>
            refresh.owner == owner && refresh.endpoint.value() == endpoint && refresh.failed_epoch == failed_epoch,
        (Some(_), _) => false,
    }
}

/// Checks the endpoint-refresh fence of a family lane.
pub fn family_refresh_fence_valid(lane: &LaneFacts, owner: DirectRefreshOwner, endpoint: &BrokerEndpoint) -> (valid: bool)
    ensures
        valid == spec_refresh_fence_valid(lane, owner, endpoint.value()),
{
    match (&lane.endpoint_refresh, lane.lifecycle) {
        (None, LifecyclePhase::Refreshing { .. }) => false,
        (None, _) => true,
        (Some(refresh), LifecyclePhase::Refreshing { failed_epoch, .. }) =>
            refresh.owner == owner && refresh.endpoint.same_as(endpoint) && refresh.failed_epoch == failed_epoch,
        (Some(_), _) => false,
    }
}

} // verus!
