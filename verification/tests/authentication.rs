use direct_reactor::authentication::authentication_commit_disposition;
use direct_reactor::authentication::authentication_stage;
use direct_reactor::authentication::commit_authentication;
use direct_reactor::authentication::exchange_effect;
use direct_reactor::authentication::fail_active_authentication;
use direct_reactor::authentication::publish_authentication;
use direct_reactor::authentication::reserve_disposition;
use direct_reactor::authentication::settle_authentication_failure;
use direct_reactor::authentication::settle_authentication_reply;
use direct_reactor::authentication::stale_commit_message;
use direct_reactor::authentication::AuthenticationCommitDisposition;
use direct_reactor::authentication::AuthenticationCommitOutcome;
use direct_reactor::authentication::AuthenticationExchangeKind;
use direct_reactor::authentication::AuthenticationFailure;
use direct_reactor::authentication::AuthenticationReply;
use direct_reactor::authentication::AuthenticationReserveDisposition;
use direct_reactor::authentication::AuthenticationSessionInput;
use direct_reactor::authentication::AuthenticationStageOwner;
use direct_reactor::authentication::CommitErrorKind;
use direct_reactor::authentication::ConnectionReserveFailure;
use direct_reactor::authentication::FrameCommitFailure;
use direct_reactor::authentication::OperationFailureKind;
use direct_reactor::authentication::ReplyStep;
use direct_reactor::authentication::ReserveRejection;
use direct_reactor::authentication::SessionAuthenticationState;
use direct_reactor::authentication::WriteAdmissionFailure;
use direct_reactor::authentication::WriteIdentityKind;

#[test]
fn commit_failure_classification_separates_capacity_policy_lifecycle_and_invariants() {
    let cases = [
        (FrameCommitFailure::Policy(CommitErrorKind::AdmissionClosed), AuthenticationCommitDisposition::Lifecycle),
        (
            FrameCommitFailure::Policy(CommitErrorKind::FrameTooLarge),
            AuthenticationCommitDisposition::Fail(AuthenticationFailure::PolicyLimitExceeded),
        ),
        (FrameCommitFailure::Policy(CommitErrorKind::OwnerPoisoned), AuthenticationCommitDisposition::Recover),
        (FrameCommitFailure::Policy(CommitErrorKind::ForeignPermit), AuthenticationCommitDisposition::Abandon),
        (
            FrameCommitFailure::Writer(WriteAdmissionFailure::FrameCapacityReached { limit: 1 }),
            AuthenticationCommitDisposition::Fail(AuthenticationFailure::LocalCapacity),
        ),
        (
            FrameCommitFailure::Writer(WriteAdmissionFailure::RetainedByteCapacity { retained: 1, incoming: 1, limit: 1 }),
            AuthenticationCommitDisposition::Fail(AuthenticationFailure::LocalCapacity),
        ),
        (
            FrameCommitFailure::Writer(WriteAdmissionFailure::StaleEpoch { expected: 1, received: 2 }),
            AuthenticationCommitDisposition::Abandon,
        ),
        (
            FrameCommitFailure::Writer(WriteAdmissionFailure::IdentityInUse(WriteIdentityKind::Operation)),
            AuthenticationCommitDisposition::Abandon,
        ),
    ];

    for (failure, expected) in cases {
        assert_eq!(authentication_commit_disposition(failure), expected);
    }
}

#[test]
fn reserve_failures_separate_capacity_timeout_lifecycle_and_recovery() {
    let capacity = AuthenticationReserveDisposition::Fail(AuthenticationFailure::LocalCapacity);
    let cases = [
        (ConnectionReserveFailure::StaleConnection, AuthenticationReserveDisposition::Lifecycle),
        (ConnectionReserveFailure::Rejected(ReserveRejection::AdmissionClosed), AuthenticationReserveDisposition::Lifecycle),
        (ConnectionReserveFailure::Rejected(ReserveRejection::OwnerPoisoned), AuthenticationReserveDisposition::Recover),
        (
            ConnectionReserveFailure::Rejected(ReserveRejection::DeadlineElapsed),
            AuthenticationReserveDisposition::Fail(AuthenticationFailure::Timeout),
        ),
        (ConnectionReserveFailure::Rejected(ReserveRejection::OperationCapacity), capacity),
        (ConnectionReserveFailure::Rejected(ReserveRejection::RetainedByteCapacity), capacity),
        (ConnectionReserveFailure::Rejected(ReserveRejection::WriteCapacity), capacity),
        (ConnectionReserveFailure::Rejected(ReserveRejection::MatchKeyExhausted), capacity),
        (ConnectionReserveFailure::Rejected(ReserveRejection::IdentityExhausted), capacity),
        (
            ConnectionReserveFailure::Rejected(ReserveRejection::Unclassified),
            AuthenticationReserveDisposition::Fail(AuthenticationFailure::Protocol),
        ),
        (
            ConnectionReserveFailure::Unclassified,
            AuthenticationReserveDisposition::Fail(AuthenticationFailure::Protocol),
        ),
    ];
    for (failure, expected) in cases {
        assert_eq!(reserve_disposition(failure), expected);
    }
}

#[test]
fn exchange_effects_follow_the_handshake_effect() {
    assert_eq!(exchange_effect(1), 3);
    assert_eq!(exchange_effect(7), 9);
    assert_eq!(
        authentication_stage(AuthenticationExchangeKind::Authenticate(4)),
        AuthenticationStageOwner::Exchange(4)
    );
    assert_eq!(authentication_stage(AuthenticationExchangeKind::Handshake), AuthenticationStageOwner::Handshake);
}

#[test]
fn operation_failures_settle_the_exchange_stage_or_the_active_one() {
    assert_eq!(
        settle_authentication_failure(
            Some(AuthenticationExchangeKind::Handshake),
            OperationFailureKind::DeadlineElapsed,
            SessionAuthenticationState::Idle,
        ),
        Some(AuthenticationSessionInput::HandshakeFailed(AuthenticationFailure::Timeout))
    );
    assert_eq!(
        settle_authentication_failure(
            Some(AuthenticationExchangeKind::Authenticate(2)),
            OperationFailureKind::MatchKeyMismatch,
            SessionAuthenticationState::Handshaking,
        ),
        Some(AuthenticationSessionInput::ExchangeFailed(2, AuthenticationFailure::Malformed))
    );
    assert_eq!(
        settle_authentication_failure(None, OperationFailureKind::Other, SessionAuthenticationState::Exchanging(3)),
        Some(AuthenticationSessionInput::ExchangeFailed(3, AuthenticationFailure::Protocol))
    );
    assert_eq!(
        settle_authentication_failure(None, OperationFailureKind::Other, SessionAuthenticationState::Idle),
        None
    );
    assert_eq!(
        settle_authentication_failure(
            Some(AuthenticationExchangeKind::Handshake),
            OperationFailureKind::ConnectionClosed,
            SessionAuthenticationState::Handshaking,
        ),
        None
    );
    assert_eq!(fail_active_authentication(SessionAuthenticationState::Idle, AuthenticationFailure::Rejected), None);
}

#[test]
fn replies_settle_handshakes_and_route_accepted_rounds_to_the_session() {
    assert_eq!(
        settle_authentication_reply(AuthenticationReply::HandshakeAccepted, false),
        ReplyStep::Apply(AuthenticationSessionInput::HandshakeSucceeded)
    );
    assert_eq!(
        settle_authentication_reply(AuthenticationReply::HandshakeUnsupported, true),
        ReplyStep::Apply(AuthenticationSessionInput::HandshakeFailed(AuthenticationFailure::UnsupportedMechanism))
    );
    assert_eq!(
        settle_authentication_reply(AuthenticationReply::AuthenticateAnswered(1, 58), true),
        ReplyStep::Apply(AuthenticationSessionInput::ExchangeFailed(1, AuthenticationFailure::Rejected))
    );
    assert_eq!(
        settle_authentication_reply(AuthenticationReply::AuthenticateAnswered(1, 0), false),
        ReplyStep::Apply(AuthenticationSessionInput::ExchangeFailed(1, AuthenticationFailure::Protocol))
    );
    assert_eq!(settle_authentication_reply(AuthenticationReply::AuthenticateAnswered(2, 0), true), ReplyStep::Receive(2));
    assert_eq!(
        settle_authentication_reply(
            AuthenticationReply::AuthenticateUndecodable(2, AuthenticationFailure::Malformed),
            true,
        ),
        ReplyStep::Apply(AuthenticationSessionInput::ExchangeFailed(2, AuthenticationFailure::Malformed))
    );
}

#[test]
fn commit_outcomes_publish_accepted_work_and_recover_once() {
    let committed = commit_authentication(AuthenticationCommitOutcome::Committed, false);
    assert!(committed.publish && committed.runnable && !committed.start_recovery && committed.fail.is_none());
    assert!(!committed.abort_reservation && !committed.host_fatal);
    let accepted = commit_authentication(AuthenticationCommitOutcome::AcceptedOwnerFailure, false);
    assert!(accepted.publish && !accepted.runnable && accepted.start_recovery);
    let pending = commit_authentication(AuthenticationCommitOutcome::AcceptedOwnerFailure, true);
    assert!(pending.publish && !pending.start_recovery);
    let owner_failed = commit_authentication(AuthenticationCommitOutcome::OwnerFailed, false);
    assert!(owner_failed.abort_reservation && owner_failed.start_recovery && owner_failed.fail.is_none());
    let other = commit_authentication(AuthenticationCommitOutcome::Other, false);
    assert_eq!(other.fail, Some(AuthenticationFailure::LocalCapacity));
}

// The four commit scenarios below keep the original's names. They check the
// decision the authentication owner acts on (fail the stage, leave it to the
// lifecycle, abandon, or fail the host, and whether the reservation is
// released); the session, permit and context bookkeeping that acts on it is
// the owner's, outside this library.

#[test]
fn frame_too_large_is_plain_policy_failure_and_releases_both_affine_owners() {
    let actions = commit_authentication(
        AuthenticationCommitOutcome::Rejected(FrameCommitFailure::Policy(CommitErrorKind::FrameTooLarge)),
        false,
    );
    assert_eq!(actions.fail, Some(AuthenticationFailure::PolicyLimitExceeded));
    assert!(actions.abort_reservation && !actions.start_recovery && !actions.abandon && !actions.host_fatal);
}

#[test]
fn admission_closed_defers_to_lifecycle_and_releases_both_affine_owners() {
    let actions = commit_authentication(
        AuthenticationCommitOutcome::Rejected(FrameCommitFailure::Policy(CommitErrorKind::AdmissionClosed)),
        false,
    );
    assert_eq!(actions.fail, None);
    assert!(actions.abort_reservation && !actions.start_recovery && !actions.abandon && !actions.host_fatal);
}

#[test]
fn foreign_permit_abandons_the_owner_instead_of_reporting_capacity() {
    let actions = commit_authentication(
        AuthenticationCommitOutcome::Rejected(FrameCommitFailure::Policy(CommitErrorKind::ForeignPermit)),
        false,
    );
    assert!(actions.abandon && actions.abort_reservation && !actions.start_recovery);
    assert_eq!(actions.fail, None);
}

#[test]
fn stale_connection_is_host_fatal_after_releasing_both_affine_owners() {
    let actions = commit_authentication(AuthenticationCommitOutcome::StaleConnection, false);
    assert!(actions.host_fatal && actions.abort_reservation && !actions.start_recovery && !actions.publish);
    assert_eq!(stale_commit_message(), "stale Bornera connection violated direct ownership");
    let poisoned = commit_authentication(
        AuthenticationCommitOutcome::Rejected(FrameCommitFailure::Policy(CommitErrorKind::OwnerPoisoned)),
        true,
    );
    assert!(!poisoned.start_recovery && poisoned.abort_reservation && !poisoned.host_fatal);
    let capacity = commit_authentication(
        AuthenticationCommitOutcome::Rejected(FrameCommitFailure::Writer(WriteAdmissionFailure::FrameCapacityReached { limit: 1 })),
        false,
    );
    assert_eq!(capacity.fail, Some(AuthenticationFailure::LocalCapacity));
}

#[test]
fn refused_publication_abandons_instead_of_recovering() {
    let accepted = commit_authentication(AuthenticationCommitOutcome::AcceptedOwnerFailure, false);
    let refused = publish_authentication(accepted, false);
    assert!(refused.abandon && !refused.start_recovery && refused.publish);
    assert_eq!(publish_authentication(accepted, true), accepted);
    let committed = commit_authentication(AuthenticationCommitOutcome::Committed, false);
    let refused = publish_authentication(committed, false);
    assert!(refused.abandon && refused.runnable);
    let stale = commit_authentication(AuthenticationCommitOutcome::StaleConnection, true);
    assert_eq!(publish_authentication(stale, false), stale);
}
