use direct_reactor::admission::public_admission_step;
use direct_reactor::admission::public_event_matches;
use direct_reactor::admission::sasl_event_matches;
use direct_reactor::admission::sasl_admission_step;
use direct_reactor::admission::submit_request;
use direct_reactor::admission::ContextReserveFailure;
use direct_reactor::admission::FollowUp;
use direct_reactor::admission::PendingAdmission;
use direct_reactor::admission::PublicEvent;
use direct_reactor::admission::PublicFailure;
use direct_reactor::admission::PublicStage;
use direct_reactor::admission::PublicStep;
use direct_reactor::admission::Release;
use direct_reactor::admission::SaslEvent;
use direct_reactor::admission::SaslMessage;
use direct_reactor::admission::SaslSized;
use direct_reactor::admission::SaslStage;
use direct_reactor::admission::SaslStep;
use direct_reactor::admission::SubmitDecision;
use direct_reactor::authentication::AuthenticationFailure;
use direct_reactor::authentication::ConnectionReserveFailure;
use direct_reactor::authentication::ReserveRejection;
use direct_reactor::lane::can_admit_public;
use direct_reactor::lane::reclaimable;
use direct_reactor::lane::terminal_admission_failure;
use direct_reactor::lane::AdmissionFailure;
use direct_reactor::lane::CloseCause;
use direct_reactor::lane::ContextCounts;
use direct_reactor::lane::LaneFacts;
use direct_reactor::lane::LifecyclePhase;

const NOTHING: Release = Release { abort_reservation: false, drop_permit: false };
const RESERVATION: Release = Release { abort_reservation: true, drop_permit: false };
const BOTH: Release = Release { abort_reservation: true, drop_permit: true };

fn ready_lane() -> LaneFacts {
    LaneFacts {
        terminal: false,
        connection: Some(9),
        lifecycle: LifecyclePhase::Available,
        live_generation: true,
        session_ready: true,
        endpoint_refresh: None,
        refresh_needed: false,
        pending_recovery: false,
        pending_scram_proof: false,
        authentication_session: false,
        session_deadline: false,
        pending_requests: 0,
        admission_open: true,
        runnable: false,
        contexts: ContextCounts { reserved: 0, published: 0, retained_bytes: 0, poisoned: false },
        last_close_reason: None,
        scram_proof_sender: false,
    }
}

#[test]
fn ready_lane_admits_while_any_missing_condition_queues() {
    assert_eq!(submit_request(&ready_lane()), SubmitDecision::Admit);
    assert!(can_admit_public(&ready_lane()));
    let lanes = [
        LaneFacts { pending_recovery: true, ..ready_lane() },
        LaneFacts { connection: None, ..ready_lane() },
        LaneFacts { live_generation: false, ..ready_lane() },
        LaneFacts { session_ready: false, ..ready_lane() },
        LaneFacts { admission_open: false, ..ready_lane() },
    ];
    for lane in &lanes {
        assert!(!can_admit_public(lane));
        assert_eq!(submit_request(lane), SubmitDecision::Queue);
    }
}

#[test]
fn terminal_lane_fails_requests_with_its_close_reason() {
    let closed = LaneFacts { terminal: true, ..ready_lane() };
    assert_eq!(terminal_admission_failure(&closed), Some(AdmissionFailure::Closed));
    assert_eq!(submit_request(&closed), SubmitDecision::Fail(AdmissionFailure::Closed));
    let rejected = LaneFacts {
        terminal: true,
        last_close_reason: Some(CloseCause::AuthenticationFailed(AuthenticationFailure::Rejected)),
        ..ready_lane()
    };
    assert_eq!(
        submit_request(&rejected),
        SubmitDecision::Fail(AdmissionFailure::AuthenticationFailed(AuthenticationFailure::Rejected))
    );
    assert_eq!(terminal_admission_failure(&ready_lane()), None);
}

#[test]
fn reclaimable_lane_is_terminal_and_holds_nothing() {
    let empty = LaneFacts { terminal: true, connection: None, admission_open: false, ..ready_lane() };
    assert!(reclaimable(&empty));
    assert!(!reclaimable(&ready_lane()));
    assert!(!reclaimable(&LaneFacts { pending_requests: 1, ..empty }));
    let held = LaneFacts {
        terminal: true,
        connection: None,
        admission_open: false,
        contexts: ContextCounts { reserved: 0, published: 1, retained_bytes: 0, poisoned: false },
        ..ready_lane()
    };
    assert!(!reclaimable(&held));
}

#[test]
fn pending_admission_stops_at_budget_queue_recovery_or_terminal() {
    let lane = ready_lane();
    let mut pass = PendingAdmission::admit_pending(&lane, 2);
    let mut queued = 5;
    while pass.wants_next(queued) {
        queued -= 1;
        pass.record_admission(&lane);
    }
    assert_eq!(pass.admitted(), 2);
    assert_eq!(queued, 3);

    let mut pass = PendingAdmission::admit_pending(&lane, 8);
    let mut queued = 5;
    let recovering = LaneFacts { pending_recovery: true, ..ready_lane() };
    while pass.wants_next(queued) {
        queued -= 1;
        pass.record_admission(&recovering);
    }
    assert_eq!(pass.admitted(), 1);

    let closed = LaneFacts { admission_open: false, ..ready_lane() };
    let pass = PendingAdmission::admit_pending(&closed, 8);
    assert!(!pass.wants_next(5));
    assert_eq!(pass.admitted(), 0);

    let pass = PendingAdmission::admit_pending(&lane, 8);
    assert!(!pass.wants_next(0));
}

fn fail(failure: PublicFailure, release: Release, observe_rejection: bool, follow_up: FollowUp) -> PublicStep {
    PublicStep::Fail { failure, release, observe_rejection, follow_up }
}

#[test]
fn public_admission_walks_every_stage_to_commit() {
    let mut stage = PublicStage::Negotiate;
    let events = [
        PublicEvent::ApiNegotiated(true),
        PublicEvent::VersionSelected(true),
        PublicEvent::DeadlineEstablished(Some(20)),
        PublicEvent::Prepared(Some(64)),
        PublicEvent::ContextReserved(None),
        PublicEvent::PermitReserved(None),
        PublicEvent::Correlated(true),
    ];
    let expected = [
        PublicStage::SelectVersion,
        PublicStage::EstablishDeadline,
        PublicStage::Prepare { deadline: 20 },
        PublicStage::ReserveContext { deadline: 20, wire_bytes: 64 },
        PublicStage::ReservePermit { deadline: 20, write_retained: 64 },
        PublicStage::Correlate,
        PublicStage::Bind,
    ];
    for (event, next) in events.into_iter().zip(expected) {
        assert_eq!(public_admission_step(3, 10, stage, event), PublicStep::Continue(next));
        stage = next;
    }
    assert_eq!(public_admission_step(3, 10, stage, PublicEvent::Bound(true)), PublicStep::Commit);
}

#[test]
fn public_admission_failures_release_exactly_what_is_held() {
    assert_eq!(
        public_admission_step(18, 10, PublicStage::Negotiate, PublicEvent::ApiNegotiated(false)),
        fail(PublicFailure::ApiUnavailable(18), NOTHING, false, FollowUp::Nothing)
    );
    assert_eq!(
        public_admission_step(3, 10, PublicStage::EstablishDeadline, PublicEvent::DeadlineEstablished(Some(10))),
        fail(PublicFailure::DeadlineExceeded, NOTHING, false, FollowUp::Nothing)
    );
    assert_eq!(
        public_admission_step(3, 10, PublicStage::Prepare { deadline: 20 }, PublicEvent::Prepared(None)),
        PublicStep::Abandon
    );
    let reserve_context = PublicStage::ReserveContext { deadline: 20, wire_bytes: 64 };
    assert_eq!(
        public_admission_step(3, 10, reserve_context, PublicEvent::ContextReserved(Some(ContextReserveFailure::OwnerPoisoned))),
        fail(PublicFailure::LocallyRejected, NOTHING, false, FollowUp::CaptureContextDivergence)
    );
    assert_eq!(
        public_admission_step(3, 10, reserve_context, PublicEvent::ContextReserved(Some(ContextReserveFailure::Other))),
        fail(PublicFailure::ContextReserve(ContextReserveFailure::Other), NOTHING, false, FollowUp::Nothing)
    );
    let reserve_permit = PublicStage::ReservePermit { deadline: 20, write_retained: 64 };
    assert_eq!(
        public_admission_step(3, 10, reserve_permit, PublicEvent::PermitReserved(Some(ConnectionReserveFailure::StaleConnection))),
        fail(PublicFailure::Closed, RESERVATION, false, FollowUp::StaleGenerationFatal)
    );
    assert_eq!(
        public_admission_step(
            3,
            10,
            reserve_permit,
            PublicEvent::PermitReserved(Some(ConnectionReserveFailure::Rejected(ReserveRejection::OwnerPoisoned))),
        ),
        fail(PublicFailure::LocallyRejected, RESERVATION, true, FollowUp::RecoverGeneration)
    );
    let capacity = ConnectionReserveFailure::Rejected(ReserveRejection::OperationCapacity);
    assert_eq!(
        public_admission_step(3, 10, reserve_permit, PublicEvent::PermitReserved(Some(capacity))),
        fail(PublicFailure::OperationReserve(capacity), RESERVATION, true, FollowUp::Nothing)
    );
    assert_eq!(
        public_admission_step(3, 10, PublicStage::Correlate, PublicEvent::Correlated(false)),
        fail(PublicFailure::IdentityConflict, BOTH, false, FollowUp::Nothing)
    );
    assert_eq!(
        public_admission_step(3, 10, PublicStage::Bind, PublicEvent::Bound(false)),
        fail(PublicFailure::Request, BOTH, false, FollowUp::Nothing)
    );
}

fn stage_failure(failure: AuthenticationFailure, release: Release, observe_rejection: bool) -> SaslStep {
    SaslStep::FailStage { failure, release, observe_rejection }
}

#[test]
fn sasl_exchange_walks_every_stage_to_commit() {
    let mut stage = SaslStage::NextMessage;
    let events = [
        SaslEvent::Message(SaslMessage::Ready),
        SaslEvent::Measured(SaslSized::Bytes(40)),
        SaslEvent::ContextReserved(true),
        SaslEvent::PermitReserved(None),
        SaslEvent::Correlated(true),
        SaslEvent::Started(SaslSized::Bytes(40)),
    ];
    let expected = [
        SaslStage::Measure,
        SaslStage::ReserveContext { wire_bytes: 40 },
        SaslStage::ReservePermit { wire_bytes: 40 },
        SaslStage::Correlate { wire_bytes: 40 },
        SaslStage::Start { wire_bytes: 40 },
        SaslStage::Bind,
    ];
    for (event, next) in events.into_iter().zip(expected) {
        assert_eq!(sasl_admission_step(false, stage, event), SaslStep::Continue(next));
        stage = next;
    }
    assert_eq!(sasl_admission_step(false, stage, SaslEvent::Bound(true)), SaslStep::Commit);
}

#[test]
fn sasl_failures_release_exactly_what_is_held() {
    assert_eq!(
        sasl_admission_step(false, SaslStage::NextMessage, SaslEvent::Message(SaslMessage::NoSession)),
        stage_failure(AuthenticationFailure::Protocol, NOTHING, false)
    );
    assert_eq!(
        sasl_admission_step(false, SaslStage::Measure, SaslEvent::Measured(SaslSized::Failed(AuthenticationFailure::PolicyLimitExceeded))),
        stage_failure(AuthenticationFailure::PolicyLimitExceeded, NOTHING, false)
    );
    assert_eq!(
        sasl_admission_step(false, SaslStage::ReserveContext { wire_bytes: 40 }, SaslEvent::ContextReserved(false)),
        stage_failure(AuthenticationFailure::LocalCapacity, NOTHING, false)
    );
    let permit = SaslStage::ReservePermit { wire_bytes: 40 };
    assert_eq!(
        sasl_admission_step(
            false,
            permit,
            SaslEvent::PermitReserved(Some(ConnectionReserveFailure::Rejected(ReserveRejection::DeadlineElapsed))),
        ),
        stage_failure(AuthenticationFailure::Timeout, RESERVATION, true)
    );
    assert_eq!(
        sasl_admission_step(false, permit, SaslEvent::PermitReserved(Some(ConnectionReserveFailure::StaleConnection))),
        SaslStep::LeaveToLifecycle
    );
    let poisoned = SaslEvent::PermitReserved(Some(ConnectionReserveFailure::Rejected(ReserveRejection::OwnerPoisoned)));
    assert_eq!(sasl_admission_step(false, permit, poisoned), SaslStep::Recover { start_recovery: true });
    assert_eq!(sasl_admission_step(true, permit, poisoned), SaslStep::Recover { start_recovery: false });
    assert_eq!(
        sasl_admission_step(false, SaslStage::Correlate { wire_bytes: 40 }, SaslEvent::Correlated(false)),
        stage_failure(AuthenticationFailure::Malformed, BOTH, false)
    );
    assert_eq!(
        sasl_admission_step(false, SaslStage::Start { wire_bytes: 40 }, SaslEvent::Started(SaslSized::Bytes(41))),
        stage_failure(AuthenticationFailure::Malformed, BOTH, false)
    );
    assert_eq!(
        sasl_admission_step(false, SaslStage::Bind, SaslEvent::Bound(false)),
        stage_failure(AuthenticationFailure::Malformed, BOTH, false)
    );
}

#[test]
fn each_stage_expects_its_own_outcome() {
    assert!(public_event_matches(PublicStage::Negotiate, PublicEvent::ApiNegotiated(true)));
    assert!(!public_event_matches(PublicStage::Negotiate, PublicEvent::Bound(true)));
    assert!(public_event_matches(PublicStage::Prepare { deadline: 3 }, PublicEvent::Prepared(None)));
    assert!(sasl_event_matches(SaslStage::Bind, SaslEvent::Bound(false)));
    assert!(!sasl_event_matches(SaslStage::Measure, SaslEvent::Correlated(true)));
}
