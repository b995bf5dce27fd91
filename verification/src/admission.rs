//! Request admission into one ready lane: what becomes of a submitted request,
//! how far one pass over queued requests goes, and the measured commit of a
//! public request taken one outside step at a time.

use vstd::prelude::*;
use crate::authentication::AuthenticationFailure;
use crate::authentication::AuthenticationReserveDisposition;
use crate::authentication::ConnectionReserveFailure;
use crate::authentication::reserve_disposition;
use crate::authentication::spec_reserve_disposition;
use crate::authentication::ReserveRejection;
use crate::lane::AdmissionFailure;
use crate::lane::CloseCause;
use crate::lane::LaneFacts;
use crate::lane::can_admit_public;
use crate::lane::spec_terminal_admission_failure;
use crate::lane::terminal_admission_failure;

verus! {

/// What becomes of a request submitted to a lane.
#[derive(Clone, Copy, Debug, PartialEq, Eq, Structural)]
pub enum SubmitDecision {
    /// The lane is terminal: answer the request with this failure.
    Fail(AdmissionFailure),
    /// The lane cannot admit right now: queue the request.
    Queue,
    /// Admit the request at once.
    Admit,
}

pub open spec fn spec_submit_decision(lane: &LaneFacts) -> SubmitDecision {
    match spec_terminal_admission_failure(lane) {
        Some(failure) => SubmitDecision::Fail(failure),
        None => if lane.admits_public() { SubmitDecision::Admit } else { SubmitDecision::Queue },
    }
}

/// Decides a submitted request: a terminal lane fails it, a lane that cannot
/// admit queues it, any other lane admits it.
pub fn submit_request(lane: &LaneFacts) -> (decision: SubmitDecision)
    ensures
        decision == spec_submit_decision(lane),
{
    if let Some(failure) = terminal_admission_failure(lane) {
        return SubmitDecision::Fail(failure);
    }
    if !can_admit_public(lane) {
        return SubmitDecision::Queue;
    }
    SubmitDecision::Admit
}

/// A submitted request is failed exactly when its lane is terminal, and then
/// with the authentication failure that closed the lane when that was the
/// cause, as closed otherwise; a live lane admits it at once exactly when its
/// session is ready, open and live with no recovery pending, and otherwise
/// keeps it queued.
pub proof fn law_submitted_request_is_failed_only_by_a_terminal_lane(lane: LaneFacts)
    ensures
        ({
            let decision = spec_submit_decision(&lane);
            &&& (decision is Fail <==> lane.terminal)
            &&& lane.terminal ==> decision == SubmitDecision::Fail(match lane.last_close_reason {
                Some(CloseCause::AuthenticationFailed(failure)) => AdmissionFailure::AuthenticationFailed(failure),
                _ => AdmissionFailure::Closed,
            })
            &&& !lane.terminal ==> (decision == SubmitDecision::Admit <==> {
                &&& !lane.pending_recovery
                &&& lane.connection is Some
                &&& lane.live_generation
                &&& lane.session_ready
                &&& lane.admission_open
            })
        }),
{
}

/// One pass that admits queued requests: at most `budget` of them, none when
/// the lane cannot admit, and none after an admission left the lane terminal
/// or waiting for recovery.
#[derive(Debug)]
pub struct PendingAdmission {
    budget: usize,
    admitted: usize,
    stopped: bool,
}

impl PendingAdmission {
    pub closed spec fn spec_budget(&self) -> nat {
        self.budget as nat
    }

    pub closed spec fn spec_admitted(&self) -> nat {
        self.admitted as nat
    }

    pub closed spec fn spec_stopped(&self) -> bool {
        self.stopped
    }

    pub open spec fn wf(&self) -> bool {
        self.spec_admitted() <= self.spec_budget()
    }

    /// Starts a pass over queued requests with `budget` admissions at most.
    pub fn admit_pending(lane: &LaneFacts, budget: usize) -> (pass: Self)
        ensures
            pass.wf(),
            pass.spec_admitted() == 0,
            pass.spec_budget() == budget,
            pass.spec_stopped() == !lane.admits_public(),
    {
        PendingAdmission { budget, admitted: 0, stopped: !can_admit_public(lane) }
    }

    /// Whether the next queued request should be taken, with `queued`
    /// requests still waiting.
    pub fn wants_next(&self, queued: usize) -> (next: bool)
        ensures
            next == (!self.spec_stopped() && self.spec_admitted() < self.spec_budget() && queued > 0),
    {
        !self.stopped && self.admitted < self.budget && queued > 0
    }

    /// Records one admission; `lane` is the lane after it.
    pub fn record_admission(&mut self, lane: &LaneFacts)
        requires
            old(self).wf(),
            !old(self).spec_stopped(),
            old(self).spec_admitted() < old(self).spec_budget(),
        ensures
            final(self).wf(),
            final(self).spec_budget() == old(self).spec_budget(),
            final(self).spec_admitted() == old(self).spec_admitted() + 1,
            final(self).spec_stopped() == (lane.pending_recovery || lane.terminal),
    {
        self.admitted = self.admitted + 1;
        self.stopped = lane.pending_recovery || lane.terminal;
    }

    /// The number of requests admitted so far.
    pub fn admitted(&self) -> (count: usize)
        ensures
            count == self.spec_admitted(),
    {
        self.admitted
    }
}

/// Why a context reservation was refused.
#[derive(Clone, Copy, Debug, PartialEq, Eq, Structural)]
pub enum ContextReserveFailure {
    /// The context owner is poisoned.
    OwnerPoisoned,
    /// Any other refusal; the request is failed with the refusal itself.
    Other,
}

/// The failure a public request is answered with.
#[derive(Clone, Copy, Debug, PartialEq, Eq, Structural)]
pub enum PublicFailure {
    /// The request's API was not negotiated on this session.
    ApiUnavailable(i16),
    /// The request's own step failed with its own failure.
    Request,
    /// The request's deadline is not after the admission instant.
    DeadlineExceeded,
    /// Refused locally; the request was not sent.
    LocallyRejected,
    /// The context reservation was refused.
    ContextReserve(ContextReserveFailure),
    /// The connection is closed; the request was not sent.
    Closed,
    /// The operation reservation was refused.
    OperationReserve(ConnectionReserveFailure),
    /// No correlation could be bound to the request.
    IdentityConflict,
}

/// What the lane does after failing a request.
#[derive(Clone, Copy, Debug, PartialEq, Eq, Structural)]
pub enum FollowUp {
    Nothing,
    /// Capture the divergence of the lane's operation contexts.
    CaptureContextDivergence,
    /// The connection generation went stale: fail the lane fatally.
    StaleGenerationFatal,
    /// Recover the failed connection generation.
    RecoverGeneration,
}

/// What a failed admission step gives back.
#[derive(Clone, Copy, Debug, PartialEq, Eq, Structural)]
pub struct Release {
    /// Abort the context reservation.
    pub abort_reservation: bool,
    /// Drop the operation permit.
    pub drop_permit: bool,
}

/// The steps of admitting one public request, in order.
#[derive(Clone, Copy, Debug, PartialEq, Eq, Structural)]
pub enum PublicStage {
    /// Look up the negotiated range of the request's API.
    Negotiate,
    SelectVersion,
    EstablishDeadline,
    /// Prepare the request's encoder and context.
    Prepare { deadline: u64 },
    ReserveContext { deadline: u64, wire_bytes: usize },
    /// Reserve the operation on the live connection.
    ReservePermit { deadline: u64, write_retained: u64 },
    /// Derive the correlation from the permit's match key.
    Correlate,
    /// Bind the correlation and encode the frame.
    Bind,
}

/// The outcome of a stage's outside work.
#[derive(Clone, Copy, Debug, PartialEq, Eq, Structural)]
pub enum PublicEvent {
    /// Whether the session negotiated the request's API.
    ApiNegotiated(bool),
    /// Whether a version was selected (the request fails itself otherwise).
    VersionSelected(bool),
    /// The request's deadline, or `None` if it failed itself.
    DeadlineEstablished(Option<u64>),
    /// The measured wire size, or `None` if preparation gave up.
    Prepared(Option<usize>),
    /// `None` once the context is reserved, the refusal otherwise.
    ContextReserved(Option<ContextReserveFailure>),
    /// `None` once the operation is reserved, the refusal otherwise.
    PermitReserved(Option<ConnectionReserveFailure>),
    /// Whether the match key gave a correlation.
    Correlated(bool),
    /// Whether binding and encoding succeeded (the request's own failure otherwise).
    Bound(bool),
}

/// What the lane does next.
#[derive(Clone, Copy, Debug, PartialEq, Eq, Structural)]
pub enum PublicStep {
    /// Perform this stage's outside work.
    Continue(PublicStage),
    /// Fail the request, release what is held, then follow up.
    Fail { failure: PublicFailure, release: Release, observe_rejection: bool, follow_up: FollowUp },
    /// Preparation gave up; nothing is held.
    Abandon,
    /// Commit the bound frame with its permit and reservation.
    Commit,
}

/// The event each stage expects.
pub open spec fn public_event_fits(stage: PublicStage, event: PublicEvent) -> bool {
    match (stage, event) {
        (PublicStage::Negotiate, PublicEvent::ApiNegotiated(_)) => true,
        (PublicStage::SelectVersion, PublicEvent::VersionSelected(_)) => true,
        (PublicStage::EstablishDeadline, PublicEvent::DeadlineEstablished(_)) => true,
        (PublicStage::Prepare { .. }, PublicEvent::Prepared(_)) => true,
        (PublicStage::ReserveContext { .. }, PublicEvent::ContextReserved(_)) => true,
        (PublicStage::ReservePermit { .. }, PublicEvent::PermitReserved(_)) => true,
        (PublicStage::Correlate, PublicEvent::Correlated(_)) => true,
        (PublicStage::Bind, PublicEvent::Bound(_)) => true,
        _ => false,
    }
}

/// Whether `event` is the outcome `stage`'s outside work reports.
pub fn public_event_matches(stage: PublicStage, event: PublicEvent) -> (fits: bool)
    ensures
        fits == public_event_fits(stage, event),
{
    match (stage, event) {
        (PublicStage::Negotiate, PublicEvent::ApiNegotiated(_)) => true,
        (PublicStage::SelectVersion, PublicEvent::VersionSelected(_)) => true,
        (PublicStage::EstablishDeadline, PublicEvent::DeadlineEstablished(_)) => true,
        (PublicStage::Prepare { .. }, PublicEvent::Prepared(_)) => true,
        (PublicStage::ReserveContext { .. }, PublicEvent::ContextReserved(_)) => true,
        (PublicStage::ReservePermit { .. }, PublicEvent::PermitReserved(_)) => true,
        (PublicStage::Correlate, PublicEvent::Correlated(_)) => true,
        (PublicStage::Bind, PublicEvent::Bound(_)) => true,
        _ => false,
    }
}

/// Position of a stage in the admission order.
pub open spec fn public_rank(stage: PublicStage) -> int {
    match stage {
        PublicStage::Negotiate => 0,
        PublicStage::SelectVersion => 1,
        PublicStage::EstablishDeadline => 2,
        PublicStage::Prepare { .. } => 3,
        PublicStage::ReserveContext { .. } => 4,
        PublicStage::ReservePermit { .. } => 5,
        PublicStage::Correlate => 6,
        PublicStage::Bind => 7,
    }
}

/// Whether the context reservation is held on entering `stage`.
pub open spec fn public_holds_reservation(stage: PublicStage) -> bool {
    public_rank(stage) >= 5
}

/// Whether the operation permit is held on entering `stage`.
pub open spec fn public_holds_permit(stage: PublicStage) -> bool {
    public_rank(stage) >= 6
}

/// What is held once `stage`'s outside work reported `event`: the context
/// reservation from a successful context reservation on, the permit from a
/// successful operation reservation on.
pub open spec fn holds_after(stage: PublicStage, event: PublicEvent) -> Release {
    Release {
        abort_reservation: public_holds_reservation(stage)
            || (stage is ReserveContext && event matches PublicEvent::ContextReserved(None)),
        drop_permit: public_holds_permit(stage),
    }
}

pub open spec fn held(stage: PublicStage) -> Release {
    Release { abort_reservation: public_holds_reservation(stage), drop_permit: public_holds_permit(stage) }
}

pub open spec fn fail_with(stage: PublicStage, failure: PublicFailure, observe: bool, follow_up: FollowUp) -> PublicStep {
    PublicStep::Fail { failure, release: held(stage), observe_rejection: observe, follow_up }
}

pub open spec fn spec_public_step(api_key: i16, now: u64, stage: PublicStage, event: PublicEvent) -> PublicStep {
    match (stage, event) {
        (PublicStage::Negotiate, PublicEvent::ApiNegotiated(negotiated)) =>
            if negotiated { PublicStep::Continue(PublicStage::SelectVersion) }
            else { fail_with(stage, PublicFailure::ApiUnavailable(api_key), false, FollowUp::Nothing) },
        (PublicStage::SelectVersion, PublicEvent::VersionSelected(selected)) =>
            if selected { PublicStep::Continue(PublicStage::EstablishDeadline) }
            else { fail_with(stage, PublicFailure::Request, false, FollowUp::Nothing) },
        (PublicStage::EstablishDeadline, PublicEvent::DeadlineEstablished(deadline)) =>
            match deadline {
                Some(deadline) => if deadline > now { PublicStep::Continue(PublicStage::Prepare { deadline }) }
                    else { fail_with(stage, PublicFailure::DeadlineExceeded, false, FollowUp::Nothing) },
                None => fail_with(stage, PublicFailure::Request, false, FollowUp::Nothing),
            },
        (PublicStage::Prepare { deadline }, PublicEvent::Prepared(measured)) =>
            match measured {
                Some(wire_bytes) => PublicStep::Continue(PublicStage::ReserveContext { deadline, wire_bytes }),
                None => PublicStep::Abandon,
            },
        (PublicStage::ReserveContext { deadline, wire_bytes }, PublicEvent::ContextReserved(reserved)) =>
            match reserved {
                Some(ContextReserveFailure::OwnerPoisoned) =>
                    fail_with(stage, PublicFailure::LocallyRejected, false, FollowUp::CaptureContextDivergence),
                Some(failure) => fail_with(stage, PublicFailure::ContextReserve(failure), false, FollowUp::Nothing),
                None => if wire_bytes <= u64::MAX {
                    PublicStep::Continue(PublicStage::ReservePermit { deadline, write_retained: wire_bytes as u64 })
                } else {
                    PublicStep::Fail {
                        failure: PublicFailure::LocallyRejected,
                        release: Release { abort_reservation: true, drop_permit: false },
                        observe_rejection: false,
                        follow_up: FollowUp::Nothing,
                    }
                },
            },
        (PublicStage::ReservePermit { .. }, PublicEvent::PermitReserved(permit)) =>
            match permit {
                None => PublicStep::Continue(PublicStage::Correlate),
                Some(ConnectionReserveFailure::StaleConnection) =>
                    fail_with(stage, PublicFailure::Closed, false, FollowUp::StaleGenerationFatal),
                Some(ConnectionReserveFailure::Rejected(ReserveRejection::OwnerPoisoned)) =>
                    fail_with(stage, PublicFailure::LocallyRejected, true, FollowUp::RecoverGeneration),
                Some(error) => fail_with(stage, PublicFailure::OperationReserve(error), true, FollowUp::Nothing),
            },
        (PublicStage::Correlate, PublicEvent::Correlated(correlated)) =>
            if correlated { PublicStep::Continue(PublicStage::Bind) }
            else { fail_with(stage, PublicFailure::IdentityConflict, false, FollowUp::Nothing) },
        (PublicStage::Bind, PublicEvent::Bound(bound)) =>
            if bound { PublicStep::Commit }
            else { fail_with(stage, PublicFailure::Request, false, FollowUp::Nothing) },
        _ => PublicStep::Abandon,
    }
}

/// Converts a wire size into retained write bytes with
/// `calandria::RetainedBytes::try_from`, which succeeds exactly when the size
/// fits in a `u64` and then keeps the value.
#[verifier::external_body]
fn write_retained_bytes(wire_bytes: usize) -> (retained: Option<u64>)
    ensures
        wire_bytes <= u64::MAX ==> retained == Some(wire_bytes as u64),
        wire_bytes > u64::MAX ==> retained is None,
{
    match calandria::RetainedBytes::try_from(wire_bytes) {
        Ok(bytes) => Some(bytes.get()),
        Err(_) => None,
    }
}

/// Takes one step of admitting a public request with `api_key` at instant
/// `now`: the outcome of `stage`'s outside work decides whether admission
/// goes on, fails the request (and with what, releasing what, followed by
/// what), gives up, or commits.
pub fn public_admission_step(api_key: i16, now: u64, stage: PublicStage, event: PublicEvent) -> (step: PublicStep)
    requires
        public_event_fits(stage, event),
    ensures
        step == spec_public_step(api_key, now, stage, event),
{
    let nothing = Release { abort_reservation: false, drop_permit: false };
    let reservation = Release { abort_reservation: true, drop_permit: false };
    let both = Release { abort_reservation: true, drop_permit: true };
    match (stage, event) {
        (PublicStage::Negotiate, PublicEvent::ApiNegotiated(negotiated)) => {
            if negotiated {
                PublicStep::Continue(PublicStage::SelectVersion)
            } else {
                PublicStep::Fail {
                    failure: PublicFailure::ApiUnavailable(api_key),
                    release: nothing,
                    observe_rejection: false,
                    follow_up: FollowUp::Nothing,
                }
            }
        },
        (PublicStage::SelectVersion, PublicEvent::VersionSelected(selected)) => {
            if selected {
                PublicStep::Continue(PublicStage::EstablishDeadline)
            } else {
                PublicStep::Fail { failure: PublicFailure::Request, release: nothing, observe_rejection: false, follow_up: FollowUp::Nothing }
            }
        },
        (PublicStage::EstablishDeadline, PublicEvent::DeadlineEstablished(deadline)) => {
            match deadline {
                Some(deadline) => {
                    if deadline > now {
                        PublicStep::Continue(PublicStage::Prepare { deadline })
                    } else {
                        PublicStep::Fail {
                            failure: PublicFailure::DeadlineExceeded,
                            release: nothing,
                            observe_rejection: false,
                            follow_up: FollowUp::Nothing,
                        }
                    }
                },
                None => PublicStep::Fail { failure: PublicFailure::Request, release: nothing, observe_rejection: false, follow_up: FollowUp::Nothing },
            }
        },
        (PublicStage::Prepare { deadline }, PublicEvent::Prepared(measured)) => {
            match measured {
                Some(wire_bytes) => PublicStep::Continue(PublicStage::ReserveContext { deadline, wire_bytes }),
                None => PublicStep::Abandon,
            }
        },
        (PublicStage::ReserveContext { deadline, wire_bytes }, PublicEvent::ContextReserved(reserved)) => {
            match reserved {
                Some(ContextReserveFailure::OwnerPoisoned) => PublicStep::Fail {
                    failure: PublicFailure::LocallyRejected,
                    release: nothing,
                    observe_rejection: false,
                    follow_up: FollowUp::CaptureContextDivergence,
                },
                Some(failure) => PublicStep::Fail {
                    failure: PublicFailure::ContextReserve(failure),
                    release: nothing,
                    observe_rejection: false,
                    follow_up: FollowUp::Nothing,
                },
                None => match write_retained_bytes(wire_bytes) {
                    Some(write_retained) => PublicStep::Continue(PublicStage::ReservePermit { deadline, write_retained }),
                    None => PublicStep::Fail {
                        failure: PublicFailure::LocallyRejected,
                        release: reservation,
                        observe_rejection: false,
                        follow_up: FollowUp::Nothing,
                    },
                },
            }
        },
        (PublicStage::ReservePermit { .. }, PublicEvent::PermitReserved(permit)) => {
            match permit {
                None => PublicStep::Continue(PublicStage::Correlate),
                Some(ConnectionReserveFailure::StaleConnection) => PublicStep::Fail {
                    failure: PublicFailure::Closed,
                    release: reservation,
                    observe_rejection: false,
                    follow_up: FollowUp::StaleGenerationFatal,
                },
                Some(ConnectionReserveFailure::Rejected(ReserveRejection::OwnerPoisoned)) => PublicStep::Fail {
                    failure: PublicFailure::LocallyRejected,
                    release: reservation,
                    observe_rejection: true,
                    follow_up: FollowUp::RecoverGeneration,
                },
                Some(error) => PublicStep::Fail {
                    failure: PublicFailure::OperationReserve(error),
                    release: reservation,
                    observe_rejection: true,
                    follow_up: FollowUp::Nothing,
                },
            }
        },
        (PublicStage::Correlate, PublicEvent::Correlated(correlated)) => {
            if correlated {
                PublicStep::Continue(PublicStage::Bind)
            } else {
                PublicStep::Fail { failure: PublicFailure::IdentityConflict, release: both, observe_rejection: false, follow_up: FollowUp::Nothing }
            }
        },
        (PublicStage::Bind, PublicEvent::Bound(bound)) => {
            if bound {
                PublicStep::Commit
            } else {
                PublicStep::Fail { failure: PublicFailure::Request, release: both, observe_rejection: false, follow_up: FollowUp::Nothing }
            }
        },
        _ => PublicStep::Abandon,
    }
}

/// Admission never leaks nor double-releases: every failing step gives back
/// exactly the context reservation and permit held when it began (the
/// reservation only once taken, the permit only once reserved), preparation
/// gives up only before anything is held, and each continuing step moves
/// strictly forward, so one request takes at most one pass through the stages.
pub proof fn law_public_admission_releases_what_it_holds(api_key: i16, now: u64, stage: PublicStage, event: PublicEvent)
    requires
        public_event_fits(stage, event),
    ensures
        ({
            let step = spec_public_step(api_key, now, stage, event);
            &&& step matches PublicStep::Fail { release, .. } ==> release == holds_after(stage, event)
            &&& step is Abandon ==> !public_holds_reservation(stage)
            &&& step matches PublicStep::Continue(next) ==> public_rank(next) == public_rank(stage) + 1
            &&& step is Commit ==> stage is Bind
        }),
{
}

/// Every refused public request is answered: admission drops a request
/// without failing it only when preparation gave up, and each refusal fails
/// the request with its own cause: the unnegotiated API by its key, the
/// request's own failure to select a version, establish a deadline or bind,
/// a deadline not after `now`, and a match key that gave no correlation.
pub proof fn law_public_admission_answers_every_refusal(api_key: i16, now: u64, stage: PublicStage, event: PublicEvent)
    requires
        public_event_fits(stage, event),
    ensures
        ({
            let step = spec_public_step(api_key, now, stage, event);
            &&& (step is Abandon <==> event == PublicEvent::Prepared(None))
            &&& step is Abandon ==> stage is Prepare
            &&& event == PublicEvent::ApiNegotiated(false)
                ==> (step matches PublicStep::Fail { failure, .. } && failure == PublicFailure::ApiUnavailable(api_key))
            &&& (event == PublicEvent::VersionSelected(false) || event == PublicEvent::DeadlineEstablished(None)
                || event == PublicEvent::Bound(false))
                ==> (step matches PublicStep::Fail { failure, .. } && failure == PublicFailure::Request)
            &&& event matches PublicEvent::DeadlineEstablished(Some(deadline)) ==> {
                &&& deadline <= now
                    ==> (step matches PublicStep::Fail { failure, .. } && failure == PublicFailure::DeadlineExceeded)
                &&& deadline > now ==> step == PublicStep::Continue(PublicStage::Prepare { deadline })
            }
            &&& event == PublicEvent::Correlated(false)
                ==> (step matches PublicStep::Fail { failure, .. } && failure == PublicFailure::IdentityConflict)
            &&& event == PublicEvent::ContextReserved(Some(ContextReserveFailure::OwnerPoisoned)) ==> (step matches
                PublicStep::Fail { failure, follow_up, .. }
                && failure == PublicFailure::LocallyRejected && follow_up == FollowUp::CaptureContextDivergence)
            &&& event == PublicEvent::ContextReserved(Some(ContextReserveFailure::Other)) ==> (step matches
                PublicStep::Fail { failure, .. } && failure == PublicFailure::ContextReserve(ContextReserveFailure::Other))
            &&& event == PublicEvent::PermitReserved(Some(ConnectionReserveFailure::StaleConnection)) ==> (step matches
                PublicStep::Fail { failure, follow_up, .. }
                && failure == PublicFailure::Closed && follow_up == FollowUp::StaleGenerationFatal)
            &&& event == PublicEvent::PermitReserved(Some(ConnectionReserveFailure::Rejected(ReserveRejection::OwnerPoisoned)))
                ==> (step matches PublicStep::Fail { failure, observe_rejection, follow_up, .. }
                && failure == PublicFailure::LocallyRejected && observe_rejection
                && follow_up == FollowUp::RecoverGeneration)
            &&& event matches PublicEvent::PermitReserved(Some(error)) ==> {
                error != ConnectionReserveFailure::StaleConnection
                    && error != ConnectionReserveFailure::Rejected(ReserveRejection::OwnerPoisoned)
                ==> (step matches PublicStep::Fail { failure, observe_rejection, follow_up, .. }
                    && failure == PublicFailure::OperationReserve(error) && observe_rejection
                    && follow_up == FollowUp::Nothing)
            }
            &&& step matches PublicStep::Fail { follow_up, .. }
                ==> (follow_up == FollowUp::Nothing || event is ContextReserved || event is PermitReserved)
            &&& (step is Commit <==> event == PublicEvent::Bound(true))
        }),
{
}

/// The steps of admitting one SASL stage (a handshake starts at `Measure`, an
/// authenticate exchange at `NextMessage`), in order.
#[derive(Clone, Copy, Debug, PartialEq, Eq, Structural)]
pub enum SaslStage {
    /// Take the next client message from the authentication session.
    NextMessage,
    /// Measure the request on the wire.
    Measure,
    ReserveContext { wire_bytes: usize },
    ReservePermit { wire_bytes: usize },
    Correlate { wire_bytes: usize },
    /// Start the exchange and encode its frame.
    Start { wire_bytes: usize },
    /// Bind the exchange to the reserved context.
    Bind,
}

/// What the authentication session gave for the next message.
#[derive(Clone, Copy, Debug, PartialEq, Eq, Structural)]
pub enum SaslMessage {
    /// No authentication session exists.
    NoSession,
    Failed(AuthenticationFailure),
    Ready,
}

/// The outcome of measuring a request, or of starting an exchange: a byte
/// count or a failure.
#[derive(Clone, Copy, Debug, PartialEq, Eq, Structural)]
pub enum SaslSized {
    Bytes(usize),
    Failed(AuthenticationFailure),
}

/// The outcome of a SASL stage's outside work.
#[derive(Clone, Copy, Debug, PartialEq, Eq, Structural)]
pub enum SaslEvent {
    Message(SaslMessage),
    Measured(SaslSized),
    ContextReserved(bool),
    /// `None` once the operation is reserved, the refusal otherwise.
    PermitReserved(Option<ConnectionReserveFailure>),
    Correlated(bool),
    /// The encoded frame's length, or why the exchange did not start.
    Started(SaslSized),
    Bound(bool),
}

/// What the authentication owner does next.
#[derive(Clone, Copy, Debug, PartialEq, Eq, Structural)]
pub enum SaslStep {
    Continue(SaslStage),
    /// Release what is held (after observing a refused reservation, when
    /// `observe_rejection`), then fail the stage.
    FailStage { failure: AuthenticationFailure, release: Release, observe_rejection: bool },
    /// The reservation was refused for a reason the connection lifecycle
    /// handles: observe it and abort the context reservation.
    LeaveToLifecycle,
    /// The owner is poisoned: observe, abort the context reservation, and
    /// start recovering the connection generation unless one is pending.
    Recover { start_recovery: bool },
    /// Commit the frame with its permit and reservation.
    Commit,
}

pub open spec fn sasl_event_fits(stage: SaslStage, event: SaslEvent) -> bool {
    match (stage, event) {
        (SaslStage::NextMessage, SaslEvent::Message(_)) => true,
        (SaslStage::Measure, SaslEvent::Measured(_)) => true,
        (SaslStage::ReserveContext { .. }, SaslEvent::ContextReserved(_)) => true,
        (SaslStage::ReservePermit { .. }, SaslEvent::PermitReserved(_)) => true,
        (SaslStage::Correlate { .. }, SaslEvent::Correlated(_)) => true,
        (SaslStage::Start { .. }, SaslEvent::Started(_)) => true,
        (SaslStage::Bind, SaslEvent::Bound(_)) => true,
        _ => false,
    }
}

/// Whether `event` is the outcome `stage`'s outside work reports.
pub fn sasl_event_matches(stage: SaslStage, event: SaslEvent) -> (fits: bool)
    ensures
        fits == sasl_event_fits(stage, event),
{
    match (stage, event) {
        (SaslStage::NextMessage, SaslEvent::Message(_)) => true,
        (SaslStage::Measure, SaslEvent::Measured(_)) => true,
        (SaslStage::ReserveContext { .. }, SaslEvent::ContextReserved(_)) => true,
        (SaslStage::ReservePermit { .. }, SaslEvent::PermitReserved(_)) => true,
        (SaslStage::Correlate { .. }, SaslEvent::Correlated(_)) => true,
        (SaslStage::Start { .. }, SaslEvent::Started(_)) => true,
        (SaslStage::Bind, SaslEvent::Bound(_)) => true,
        _ => false,
    }
}

pub open spec fn sasl_rank(stage: SaslStage) -> int {
    match stage {
        SaslStage::NextMessage => 0,
        SaslStage::Measure => 1,
        SaslStage::ReserveContext { .. } => 2,
        SaslStage::ReservePermit { .. } => 3,
        SaslStage::Correlate { .. } => 4,
        SaslStage::Start { .. } => 5,
        SaslStage::Bind => 6,
    }
}

/// What is held once `stage`'s outside work reported `event`.
pub open spec fn sasl_holds_after(stage: SaslStage, event: SaslEvent) -> Release {
    Release {
        abort_reservation: sasl_rank(stage) >= 3 || (stage is ReserveContext && event == SaslEvent::ContextReserved(true)),
        drop_permit: sasl_rank(stage) >= 4,
    }
}

pub open spec fn sasl_fail(stage: SaslStage, event: SaslEvent, failure: AuthenticationFailure) -> SaslStep {
    SaslStep::FailStage { failure, release: sasl_holds_after(stage, event), observe_rejection: false }
}

pub open spec fn spec_sasl_step(pending_recovery: bool, stage: SaslStage, event: SaslEvent) -> SaslStep {
    match (stage, event) {
        (SaslStage::NextMessage, SaslEvent::Message(message)) => match message {
            SaslMessage::NoSession => sasl_fail(stage, event, AuthenticationFailure::Protocol),
            SaslMessage::Failed(failure) => sasl_fail(stage, event, failure),
            SaslMessage::Ready => SaslStep::Continue(SaslStage::Measure),
        },
        (SaslStage::Measure, SaslEvent::Measured(measured)) => match measured {
            SaslSized::Bytes(wire_bytes) => SaslStep::Continue(SaslStage::ReserveContext { wire_bytes }),
            SaslSized::Failed(failure) => sasl_fail(stage, event, failure),
        },
        (SaslStage::ReserveContext { wire_bytes }, SaslEvent::ContextReserved(reserved)) =>
            if !reserved || wire_bytes > u64::MAX {
                sasl_fail(stage, event, AuthenticationFailure::LocalCapacity)
            } else {
                SaslStep::Continue(SaslStage::ReservePermit { wire_bytes })
            },
        (SaslStage::ReservePermit { wire_bytes }, SaslEvent::PermitReserved(refused)) => match refused {
            None => SaslStep::Continue(SaslStage::Correlate { wire_bytes }),
            Some(error) => match spec_reserve_disposition(error) {
                AuthenticationReserveDisposition::Fail(failure) => SaslStep::FailStage {
                    failure,
                    release: sasl_holds_after(stage, event),
                    observe_rejection: true,
                },
                AuthenticationReserveDisposition::Lifecycle => SaslStep::LeaveToLifecycle,
                AuthenticationReserveDisposition::Recover => SaslStep::Recover { start_recovery: !pending_recovery },
            },
        },
        (SaslStage::Correlate { wire_bytes }, SaslEvent::Correlated(correlated)) =>
            if correlated { SaslStep::Continue(SaslStage::Start { wire_bytes }) }
            else { sasl_fail(stage, event, AuthenticationFailure::Malformed) },
        (SaslStage::Start { wire_bytes }, SaslEvent::Started(started)) => match started {
            SaslSized::Failed(failure) => sasl_fail(stage, event, failure),
            SaslSized::Bytes(encoded) =>
                if encoded == wire_bytes { SaslStep::Continue(SaslStage::Bind) }
                else { sasl_fail(stage, event, AuthenticationFailure::Malformed) },
        },
        (SaslStage::Bind, SaslEvent::Bound(bound)) =>
            if bound { SaslStep::Commit } else { sasl_fail(stage, event, AuthenticationFailure::Malformed) },
        _ => SaslStep::LeaveToLifecycle,
    }
}

/// Takes one step of admitting a SASL stage: the outcome of `stage`'s outside
/// work decides whether admission goes on, fails the stage (releasing what is
/// held), leaves a refused reservation to the lifecycle or to recovery, or
/// commits. `pending_recovery` tells whether a recovery is already pending.
pub fn sasl_admission_step(pending_recovery: bool, stage: SaslStage, event: SaslEvent) -> (step: SaslStep)
    requires
        sasl_event_fits(stage, event),
    ensures
        step == spec_sasl_step(pending_recovery, stage, event),
{
    let nothing = Release { abort_reservation: false, drop_permit: false };
    let reservation = Release { abort_reservation: true, drop_permit: false };
    let both = Release { abort_reservation: true, drop_permit: true };
    match (stage, event) {
        (SaslStage::NextMessage, SaslEvent::Message(message)) => match message {
            SaslMessage::NoSession => SaslStep::FailStage {
                failure: AuthenticationFailure::Protocol,
                release: nothing,
                observe_rejection: false,
            },
            SaslMessage::Failed(failure) => SaslStep::FailStage { failure, release: nothing, observe_rejection: false },
            SaslMessage::Ready => SaslStep::Continue(SaslStage::Measure),
        },
        (SaslStage::Measure, SaslEvent::Measured(measured)) => match measured {
            SaslSized::Bytes(wire_bytes) => SaslStep::Continue(SaslStage::ReserveContext { wire_bytes }),
            SaslSized::Failed(failure) => SaslStep::FailStage { failure, release: nothing, observe_rejection: false },
        },
        (SaslStage::ReserveContext { wire_bytes }, SaslEvent::ContextReserved(reserved)) => {
            if !reserved {
                return SaslStep::FailStage {
                    failure: AuthenticationFailure::LocalCapacity,
                    release: nothing,
                    observe_rejection: false,
                };
            }
            match write_retained_bytes(wire_bytes) {
                Some(_) => SaslStep::Continue(SaslStage::ReservePermit { wire_bytes }),
                None => SaslStep::FailStage {
                    failure: AuthenticationFailure::LocalCapacity,
                    release: reservation,
                    observe_rejection: false,
                },
            }
        },
        (SaslStage::ReservePermit { wire_bytes }, SaslEvent::PermitReserved(refused)) => match refused {
            None => SaslStep::Continue(SaslStage::Correlate { wire_bytes }),
            Some(error) => match reserve_disposition(error) {
                AuthenticationReserveDisposition::Fail(failure) => SaslStep::FailStage {
                    failure,
                    release: reservation,
                    observe_rejection: true,
                },
                AuthenticationReserveDisposition::Lifecycle => SaslStep::LeaveToLifecycle,
                AuthenticationReserveDisposition::Recover => SaslStep::Recover { start_recovery: !pending_recovery },
            },
        },
        (SaslStage::Correlate { wire_bytes }, SaslEvent::Correlated(correlated)) => {
            if correlated {
                SaslStep::Continue(SaslStage::Start { wire_bytes })
            } else {
                SaslStep::FailStage { failure: AuthenticationFailure::Malformed, release: both, observe_rejection: false }
            }
        },
        (SaslStage::Start { wire_bytes }, SaslEvent::Started(started)) => match started {
            SaslSized::Failed(failure) => SaslStep::FailStage { failure, release: both, observe_rejection: false },
            SaslSized::Bytes(encoded) => {
                if encoded == wire_bytes {
                    SaslStep::Continue(SaslStage::Bind)
                } else {
                    SaslStep::FailStage { failure: AuthenticationFailure::Malformed, release: both, observe_rejection: false }
                }
            },
        },
        (SaslStage::Bind, SaslEvent::Bound(bound)) => {
            if bound {
                SaslStep::Commit
            } else {
                SaslStep::FailStage { failure: AuthenticationFailure::Malformed, release: both, observe_rejection: false }
            }
        },
        _ => SaslStep::LeaveToLifecycle,
    }
}

/// SASL stage admission releases exactly what it holds: a failed stage gives
/// back the context reservation once it was taken and the permit once it was
/// reserved; a refused reservation is always observed, and recovery starts
/// only when none is pending; each continuing step moves strictly forward.
pub proof fn law_sasl_admission_releases_what_it_holds(pending_recovery: bool, stage: SaslStage, event: SaslEvent)
    requires
        sasl_event_fits(stage, event),
    ensures
        ({
            let step = spec_sasl_step(pending_recovery, stage, event);
            &&& step matches SaslStep::FailStage { release, observe_rejection, .. } ==> {
                &&& release == sasl_holds_after(stage, event)
                &&& observe_rejection == (stage is ReservePermit)
            }
            &&& (step is LeaveToLifecycle || step is Recover) ==> stage is ReservePermit
            &&& step matches SaslStep::Recover { start_recovery } ==> start_recovery == !pending_recovery
            &&& step matches SaslStep::Continue(next) ==> sasl_rank(next) == sasl_rank(stage) + 1
            &&& step is Commit ==> stage is Bind
        }),
{
}

/// A SASL stage fails with the failure its own outside work reported: the
/// authentication session's failure for the next message, the measuring
/// failure, and the failure that kept the exchange from starting are each
/// the failure of the stage, unchanged; a missing session is a protocol
/// failure; nothing is released before the context reservation is taken.
pub proof fn law_sasl_stage_fails_with_the_reported_failure(pending_recovery: bool, stage: SaslStage, event: SaslEvent)
    requires
        sasl_event_fits(stage, event),
    ensures
        ({
            let step = spec_sasl_step(pending_recovery, stage, event);
            &&& event matches SaslEvent::Message(SaslMessage::Failed(failure)) ==> step == (SaslStep::FailStage {
                failure,
                release: Release { abort_reservation: false, drop_permit: false },
                observe_rejection: false,
            })
            &&& event == SaslEvent::Message(SaslMessage::NoSession)
                ==> (step matches SaslStep::FailStage { failure, .. } && failure == AuthenticationFailure::Protocol)
            &&& event == SaslEvent::Message(SaslMessage::Ready) ==> step == SaslStep::Continue(SaslStage::Measure)
            &&& event matches SaslEvent::Measured(SaslSized::Failed(failure)) ==> step == (SaslStep::FailStage {
                failure,
                release: Release { abort_reservation: false, drop_permit: false },
                observe_rejection: false,
            })
            &&& event matches SaslEvent::Started(SaslSized::Failed(failure)) ==> step == (SaslStep::FailStage {
                failure,
                release: Release { abort_reservation: true, drop_permit: true },
                observe_rejection: false,
            })
            &&& event == SaslEvent::ContextReserved(false)
                ==> (step matches SaslStep::FailStage { failure, .. } && failure == AuthenticationFailure::LocalCapacity)
            &&& (event == SaslEvent::Correlated(false) || event == SaslEvent::Bound(false))
                ==> (step matches SaslStep::FailStage { failure, .. } && failure == AuthenticationFailure::Malformed)
            &&& event matches SaslEvent::Started(SaslSized::Bytes(encoded)) ==> (stage matches SaslStage::Start { wire_bytes }
                && (encoded == wire_bytes <==> step == SaslStep::Continue(SaslStage::Bind)))
            &&& (step is Commit <==> event == SaslEvent::Bound(true))
        }),
{
}

} // verus!
