//! SASL stage bookkeeping: how reservation, commit and reply outcomes turn into
//! session-machine inputs.

use vstd::prelude::*;

verus! {

/// A sanitized authentication failure.
#[derive(Clone, Copy, Debug, PartialEq, Eq, Structural)]
pub enum AuthenticationFailure {
    UnsupportedMechanism,
    Rejected,
    Malformed,
    PolicyLimitExceeded,
    LocalCapacity,
    InvalidServerProof,
    TooManyRounds,
    Timeout,
    Protocol,
}

/// Why a slot refused an operation reservation.
#[derive(Clone, Copy, Debug, PartialEq, Eq, Structural)]
pub enum ReserveRejection {
    AdmissionClosed,
    DeadlineElapsed,
    OperationCapacity,
    RetainedByteCapacity,
    WriteCapacity,
    MatchKeyExhausted,
    IdentityExhausted,
    OwnerPoisoned,
    /// A rejection this library does not classify further.
    Unclassified,
}

/// Why a set-level reservation failed.
#[derive(Clone, Copy, Debug, PartialEq, Eq, Structural)]
pub enum ConnectionReserveFailure {
    StaleConnection,
    Rejected(ReserveRejection),
    /// A failure this library does not classify further.
    Unclassified,
}

/// What an authentication stage does after its reservation failed.
#[derive(Clone, Copy, Debug, PartialEq, Eq, Structural)]
pub enum AuthenticationReserveDisposition {
    /// Fail the stage with this failure.
    Fail(AuthenticationFailure),
    /// Leave it to the connection lifecycle.
    Lifecycle,
    /// Recover the connection generation.
    Recover,
}

pub open spec fn spec_reserve_disposition(error: ConnectionReserveFailure) -> AuthenticationReserveDisposition {
    match error {
        ConnectionReserveFailure::StaleConnection => AuthenticationReserveDisposition::Lifecycle,
        ConnectionReserveFailure::Rejected(ReserveRejection::AdmissionClosed) => AuthenticationReserveDisposition::Lifecycle,
        ConnectionReserveFailure::Rejected(ReserveRejection::OwnerPoisoned) => AuthenticationReserveDisposition::Recover,
        ConnectionReserveFailure::Rejected(ReserveRejection::DeadlineElapsed) =>
            AuthenticationReserveDisposition::Fail(AuthenticationFailure::Timeout),
        ConnectionReserveFailure::Rejected(ReserveRejection::OperationCapacity)
        | ConnectionReserveFailure::Rejected(ReserveRejection::RetainedByteCapacity)
        | ConnectionReserveFailure::Rejected(ReserveRejection::WriteCapacity)
        | ConnectionReserveFailure::Rejected(ReserveRejection::MatchKeyExhausted)
        | ConnectionReserveFailure::Rejected(ReserveRejection::IdentityExhausted) =>
            AuthenticationReserveDisposition::Fail(AuthenticationFailure::LocalCapacity),
        _ => AuthenticationReserveDisposition::Fail(AuthenticationFailure::Protocol),
    }
}

/// Separates semantic capacity failures from mechanical closure.
pub fn reserve_disposition(error: ConnectionReserveFailure) -> (disposition: AuthenticationReserveDisposition)
    ensures
        disposition == spec_reserve_disposition(error),
{
    match error {
        ConnectionReserveFailure::StaleConnection
        | ConnectionReserveFailure::Rejected(ReserveRejection::AdmissionClosed) => AuthenticationReserveDisposition::Lifecycle,
        ConnectionReserveFailure::Rejected(ReserveRejection::OwnerPoisoned) => AuthenticationReserveDisposition::Recover,
        ConnectionReserveFailure::Rejected(ReserveRejection::DeadlineElapsed) =>
            AuthenticationReserveDisposition::Fail(AuthenticationFailure::Timeout),
        ConnectionReserveFailure::Rejected(
            ReserveRejection::OperationCapacity
            | ReserveRejection::RetainedByteCapacity
            | ReserveRejection::WriteCapacity
            | ReserveRejection::MatchKeyExhausted
            | ReserveRejection::IdentityExhausted,
        ) => AuthenticationReserveDisposition::Fail(AuthenticationFailure::LocalCapacity),
        _ => AuthenticationReserveDisposition::Fail(AuthenticationFailure::Protocol),
    }
}

/// A refused reservation is classified by what refused it: only mechanical
/// closure (a stale connection, closed admission) is left to the connection
/// lifecycle, only a poisoned owner recovers the generation, an elapsed
/// deadline and only that fails the stage as a timeout, exhausted capacity
/// and only that as local capacity; anything else is a protocol failure.
pub proof fn law_reserve_disposition_follows_the_refusal(error: ConnectionReserveFailure)
    ensures
        ({
            let disposition = spec_reserve_disposition(error);
            &&& (disposition is Lifecycle <==> (error == ConnectionReserveFailure::StaleConnection
                || error == ConnectionReserveFailure::Rejected(ReserveRejection::AdmissionClosed)))
            &&& (disposition is Recover <==> error == ConnectionReserveFailure::Rejected(ReserveRejection::OwnerPoisoned))
            &&& (disposition == AuthenticationReserveDisposition::Fail(AuthenticationFailure::Timeout)
                <==> error == ConnectionReserveFailure::Rejected(ReserveRejection::DeadlineElapsed))
            &&& (disposition == AuthenticationReserveDisposition::Fail(AuthenticationFailure::LocalCapacity)
                <==> (error matches ConnectionReserveFailure::Rejected(rejection) && (rejection is OperationCapacity
                    || rejection is RetainedByteCapacity || rejection is WriteCapacity
                    || rejection is MatchKeyExhausted || rejection is IdentityExhausted)))
            &&& disposition is Fail ==> (disposition == AuthenticationReserveDisposition::Fail(AuthenticationFailure::Timeout)
                || disposition == AuthenticationReserveDisposition::Fail(AuthenticationFailure::LocalCapacity)
                || disposition == AuthenticationReserveDisposition::Fail(AuthenticationFailure::Protocol))
        }),
{
}

/// The SASL stage an operation belongs to.
#[derive(Clone, Copy, Debug, PartialEq, Eq, Structural)]
pub enum AuthenticationStageOwner {
    Handshake,
    /// One challenge-response round (one-based).
    Exchange(u8),
}

/// An in-flight SASL exchange, by kind.
#[derive(Clone, Copy, Debug, PartialEq, Eq, Structural)]
pub enum AuthenticationExchangeKind {
    Handshake,
    /// An authenticate exchange of the given one-based round.
    Authenticate(u8),
}

/// The stage an exchange settles.
pub fn authentication_stage(exchange: AuthenticationExchangeKind) -> (stage: AuthenticationStageOwner)
    ensures
        stage == (match exchange {
            AuthenticationExchangeKind::Handshake => AuthenticationStageOwner::Handshake,
            AuthenticationExchangeKind::Authenticate(round) => AuthenticationStageOwner::Exchange(round),
        }),
{
    match exchange {
        AuthenticationExchangeKind::Handshake => AuthenticationStageOwner::Handshake,
        AuthenticationExchangeKind::Authenticate(round) => AuthenticationStageOwner::Exchange(round),
    }
}

/// A session-machine input delivered by the authentication owner.
#[derive(Clone, Copy, Debug, PartialEq, Eq, Structural)]
pub enum AuthenticationSessionInput {
    HandshakeSucceeded,
    HandshakeFailed(AuthenticationFailure),
    /// The exchange of the given round completed with a failure.
    ExchangeFailed(u8, AuthenticationFailure),
}

pub open spec fn spec_stage_failure(stage: AuthenticationStageOwner, failure: AuthenticationFailure) -> AuthenticationSessionInput {
    match stage {
        AuthenticationStageOwner::Handshake => AuthenticationSessionInput::HandshakeFailed(failure),
        AuthenticationStageOwner::Exchange(round) => AuthenticationSessionInput::ExchangeFailed(round, failure),
    }
}

/// The input that fails `stage` with `failure`.
pub fn fail_authentication_stage(stage: AuthenticationStageOwner, failure: AuthenticationFailure) -> (input: AuthenticationSessionInput)
    ensures
        input == spec_stage_failure(stage, failure),
{
    match stage {
        AuthenticationStageOwner::Handshake => AuthenticationSessionInput::HandshakeFailed(failure),
        AuthenticationStageOwner::Exchange(round) => AuthenticationSessionInput::ExchangeFailed(round, failure),
    }
}

/// Where the session machine stands in authentication.
#[derive(Clone, Copy, Debug, PartialEq, Eq, Structural)]
pub enum SessionAuthenticationState {
    Handshaking,
    /// Exchanging the given round.
    Exchanging(u8),
    /// Not authenticating.
    Idle,
}

pub open spec fn spec_active_stage(state: SessionAuthenticationState) -> Option<AuthenticationStageOwner> {
    match state {
        SessionAuthenticationState::Handshaking => Some(AuthenticationStageOwner::Handshake),
        SessionAuthenticationState::Exchanging(round) => Some(AuthenticationStageOwner::Exchange(round)),
        SessionAuthenticationState::Idle => None,
    }
}

/// The input that fails whichever stage the session is in, if any.
pub fn fail_active_authentication(state: SessionAuthenticationState, failure: AuthenticationFailure) -> (input: Option<AuthenticationSessionInput>)
    ensures
        input == (match spec_active_stage(state) {
            Some(stage) => Some(spec_stage_failure(stage, failure)),
            None => None,
        }),
{
    let stage = match state {
        SessionAuthenticationState::Handshaking => AuthenticationStageOwner::Handshake,
        SessionAuthenticationState::Exchanging(round) => AuthenticationStageOwner::Exchange(round),
        SessionAuthenticationState::Idle => return None,
    };
    Some(fail_authentication_stage(stage, failure))
}

/// How an admitted operation failed, as far as authentication cares.
#[derive(Clone, Copy, Debug, PartialEq, Eq, Structural)]
pub enum OperationFailureKind {
    ConnectionClosed,
    DeadlineElapsed,
    MatchKeyMismatch,
    /// Any other failure.
    Other,
}

pub open spec fn spec_operation_authentication_failure(failure: OperationFailureKind) -> AuthenticationFailure {
    match failure {
        OperationFailureKind::DeadlineElapsed => AuthenticationFailure::Timeout,
        OperationFailureKind::MatchKeyMismatch => AuthenticationFailure::Malformed,
        _ => AuthenticationFailure::Protocol,
    }
}

/// The input that settles a failed authentication operation: none when the
/// connection closed (the lifecycle owns that), otherwise the sanitized
/// failure of the exchange's stage, or of the session's active stage when the
/// exchange is unknown.
pub fn settle_authentication_failure(
    exchange: Option<AuthenticationExchangeKind>,
    failure: OperationFailureKind,
    session: SessionAuthenticationState,
) -> (input: Option<AuthenticationSessionInput>)
    ensures
        failure == OperationFailureKind::ConnectionClosed ==> input is None,
        failure != OperationFailureKind::ConnectionClosed ==> input == (match exchange {
            Some(AuthenticationExchangeKind::Handshake) =>
                Some(spec_stage_failure(AuthenticationStageOwner::Handshake, spec_operation_authentication_failure(failure))),
            Some(AuthenticationExchangeKind::Authenticate(round)) =>
                Some(spec_stage_failure(AuthenticationStageOwner::Exchange(round), spec_operation_authentication_failure(failure))),
            None => match spec_active_stage(session) {
                Some(stage) => Some(spec_stage_failure(stage, spec_operation_authentication_failure(failure))),
                None => None,
            },
        }),
{
    if failure == OperationFailureKind::ConnectionClosed {
        return None;
    }
    let sanitized = match failure {
        OperationFailureKind::DeadlineElapsed => AuthenticationFailure::Timeout,
        OperationFailureKind::MatchKeyMismatch => AuthenticationFailure::Malformed,
        _ => AuthenticationFailure::Protocol,
    };
    match exchange {
        Some(exchange) => Some(fail_authentication_stage(authentication_stage(exchange), sanitized)),
        None => fail_active_authentication(session, sanitized),
    }
}

/// Settling a failure fails exactly the stage it names, with the failure
/// given: the handshake stage yields a failed handshake, an exchange stage a
/// failed exchange of its own round. A failed operation's cause survives
/// sanitizing: an elapsed deadline is a timeout, a mismatched match key a
/// malformed reply, and only other failures become protocol failures.
pub proof fn law_failure_settlement_keeps_stage_and_cause(
    stage: AuthenticationStageOwner,
    failure: AuthenticationFailure,
    operation: OperationFailureKind,
)
    ensures
        (spec_stage_failure(stage, failure) == AuthenticationSessionInput::HandshakeFailed(failure))
            <==> stage == AuthenticationStageOwner::Handshake,
        stage matches AuthenticationStageOwner::Exchange(round)
            ==> spec_stage_failure(stage, failure) == AuthenticationSessionInput::ExchangeFailed(round, failure),
        (spec_operation_authentication_failure(operation) == AuthenticationFailure::Timeout)
            <==> operation == OperationFailureKind::DeadlineElapsed,
        (spec_operation_authentication_failure(operation) == AuthenticationFailure::Malformed)
            <==> operation == OperationFailureKind::MatchKeyMismatch,
        (operation == OperationFailureKind::ConnectionClosed || operation == OperationFailureKind::Other)
            ==> spec_operation_authentication_failure(operation) == AuthenticationFailure::Protocol,
{
}

/// A decoded SASL reply, by outcome.
#[derive(Clone, Copy, Debug, PartialEq, Eq, Structural)]
pub enum AuthenticationReply {
    HandshakeAccepted,
    HandshakeUnsupported,
    /// The handshake reply could not be finished.
    HandshakeUndecodable(AuthenticationFailure),
    /// The authenticate reply of the given round could not be finished.
    AuthenticateUndecodable(u8, AuthenticationFailure),
    /// The authenticate reply of the given round carried this error code.
    AuthenticateAnswered(u8, i16),
}

/// What settling a SASL reply does.
#[derive(Clone, Copy, Debug, PartialEq, Eq, Structural)]
pub enum ReplyStep {
    /// Apply this session input.
    Apply(AuthenticationSessionInput),
    /// Hand the reply bytes of the given round to the authentication session.
    Receive(u8),
}

pub open spec fn spec_reply_step(reply: AuthenticationReply, session_present: bool) -> ReplyStep {
    match reply {
        AuthenticationReply::HandshakeAccepted => ReplyStep::Apply(AuthenticationSessionInput::HandshakeSucceeded),
        AuthenticationReply::HandshakeUnsupported =>
            ReplyStep::Apply(AuthenticationSessionInput::HandshakeFailed(AuthenticationFailure::UnsupportedMechanism)),
        AuthenticationReply::HandshakeUndecodable(failure) =>
            ReplyStep::Apply(AuthenticationSessionInput::HandshakeFailed(failure)),
        AuthenticationReply::AuthenticateUndecodable(round, failure) =>
            ReplyStep::Apply(AuthenticationSessionInput::ExchangeFailed(round, failure)),
        AuthenticationReply::AuthenticateAnswered(round, code) =>
            if code != 0 {
                ReplyStep::Apply(AuthenticationSessionInput::ExchangeFailed(round, AuthenticationFailure::Rejected))
            } else if !session_present {
                ReplyStep::Apply(AuthenticationSessionInput::ExchangeFailed(round, AuthenticationFailure::Protocol))
            } else {
                ReplyStep::Receive(round)
            },
    }
}

/// Settles one SASL reply: a handshake is accepted or failed; an
/// authenticate reply with a nonzero error code is rejected, one without a
/// live session is a protocol failure, and any other goes to the session.
pub fn settle_authentication_reply(reply: AuthenticationReply, session_present: bool) -> (step: ReplyStep)
    ensures
        step == spec_reply_step(reply, session_present),
{
    match reply {
        AuthenticationReply::HandshakeAccepted => ReplyStep::Apply(AuthenticationSessionInput::HandshakeSucceeded),
        AuthenticationReply::HandshakeUnsupported => ReplyStep::Apply(
            fail_authentication_stage(AuthenticationStageOwner::Handshake, AuthenticationFailure::UnsupportedMechanism),
        ),
        AuthenticationReply::HandshakeUndecodable(failure) => ReplyStep::Apply(
            fail_authentication_stage(AuthenticationStageOwner::Handshake, failure),
        ),
        AuthenticationReply::AuthenticateUndecodable(round, failure) => ReplyStep::Apply(
            fail_authentication_stage(AuthenticationStageOwner::Exchange(round), failure),
        ),
        AuthenticationReply::AuthenticateAnswered(round, code) => {
            if code != 0 {
                return ReplyStep::Apply(
                    fail_authentication_stage(AuthenticationStageOwner::Exchange(round), AuthenticationFailure::Rejected),
                );
            }
            if !session_present {
                return ReplyStep::Apply(
                    fail_authentication_stage(AuthenticationStageOwner::Exchange(round), AuthenticationFailure::Protocol),
                );
            }
            ReplyStep::Receive(round)
        },
    }
}

/// A reply settles only its own stage, with the failure it carries: a
/// handshake succeeds exactly when the handshake reply accepted it; an
/// undecodable reply fails its stage (the handshake, or the exchange of its
/// round) with the very failure that stopped decoding; an authenticate reply
/// answers only its own round, and reaches the session only with a zero error
/// code and a live session.
pub proof fn law_reply_settles_its_own_stage(reply: AuthenticationReply, session_present: bool)
    ensures
        ({
            let step = spec_reply_step(reply, session_present);
            &&& (step == ReplyStep::Apply(AuthenticationSessionInput::HandshakeSucceeded)
                <==> reply == AuthenticationReply::HandshakeAccepted)
            &&& reply matches AuthenticationReply::HandshakeUndecodable(failure)
                ==> step == ReplyStep::Apply(AuthenticationSessionInput::HandshakeFailed(failure))
            &&& reply matches AuthenticationReply::AuthenticateUndecodable(round, failure)
                ==> step == ReplyStep::Apply(AuthenticationSessionInput::ExchangeFailed(round, failure))
            &&& reply matches AuthenticationReply::AuthenticateAnswered(round, _) ==> {
                ||| step == ReplyStep::Receive(round)
                ||| step matches ReplyStep::Apply(AuthenticationSessionInput::ExchangeFailed(failed_round, _)) && failed_round == round
            }
            &&& step matches ReplyStep::Receive(round)
                ==> reply == AuthenticationReply::AuthenticateAnswered(round, 0) && session_present
            &&& reply == AuthenticationReply::HandshakeUnsupported ==> step
                == ReplyStep::Apply(AuthenticationSessionInput::HandshakeFailed(AuthenticationFailure::UnsupportedMechanism))
            &&& reply matches AuthenticationReply::AuthenticateAnswered(round, code) ==> {
                &&& code != 0 ==> step
                    == ReplyStep::Apply(AuthenticationSessionInput::ExchangeFailed(round, AuthenticationFailure::Rejected))
                &&& code == 0 && !session_present ==> step
                    == ReplyStep::Apply(AuthenticationSessionInput::ExchangeFailed(round, AuthenticationFailure::Protocol))
            }
            &&& (reply is HandshakeAccepted || reply is HandshakeUnsupported || reply is HandshakeUndecodable)
                ==> (step matches ReplyStep::Apply(input) && !(input is ExchangeFailed))
        }),
{
}

/// Effect identity of the authenticate exchange of `round`; the handshake
/// uses identity 2.
pub fn exchange_effect(round: u8) -> (effect: u64)
    ensures
        effect == 2 + round,
{
    2 + round as u64
}

/// Why connection policy refused a still-affine permit at commit.
#[derive(Clone, Copy, Debug, PartialEq, Eq, Structural)]
pub enum CommitErrorKind {
    /// The permit belongs to another machine or epoch.
    ForeignPermit,
    /// Admission closed after reservation and before commit.
    AdmissionClosed,
    /// The frame exceeds its reserved write-memory capacity.
    FrameTooLarge,
    /// A prior invariant failure poisoned the owner.
    OwnerPoisoned,
}

/// Which identity the writer already retains.
#[derive(Clone, Copy, Debug, PartialEq, Eq, Structural)]
pub enum WriteIdentityKind {
    Operation,
    Effect,
}

/// Why the bounded writer refused a complete frame.
#[derive(Clone, Copy, Debug, PartialEq, Eq, Structural)]
pub enum WriteAdmissionFailure {
    /// The frame names another epoch than the writer's.
    StaleEpoch { expected: u64, received: u64 },
    /// An operation or effect identity is already retained.
    IdentityInUse(WriteIdentityKind),
    /// The frame-count capacity was reached.
    FrameCapacityReached { limit: usize },
    /// Retaining the frame would exceed the byte bound.
    RetainedByteCapacity { retained: u64, incoming: u64, limit: u64 },
}

/// Why an atomic frame commit failed.
#[derive(Clone, Copy, Debug, PartialEq, Eq, Structural)]
pub enum FrameCommitFailure {
    Policy(CommitErrorKind),
    Writer(WriteAdmissionFailure),
}

/// What the authentication owner does after a failed frame commit.
#[derive(Clone, Copy, Debug, PartialEq, Eq, Structural)]
pub enum AuthenticationCommitDisposition {
    /// Fail the stage with this failure.
    Fail(AuthenticationFailure),
    /// Leave it to the connection lifecycle.
    Lifecycle,
    /// Recover the connection generation.
    Recover,
    /// An ownership invariant broke: abandon the owner.
    Abandon,
}

pub open spec fn spec_commit_disposition(failure: FrameCommitFailure) -> AuthenticationCommitDisposition {
    match failure {
        FrameCommitFailure::Policy(CommitErrorKind::AdmissionClosed) => AuthenticationCommitDisposition::Lifecycle,
        FrameCommitFailure::Policy(CommitErrorKind::FrameTooLarge) =>
            AuthenticationCommitDisposition::Fail(AuthenticationFailure::PolicyLimitExceeded),
        FrameCommitFailure::Policy(CommitErrorKind::OwnerPoisoned) => AuthenticationCommitDisposition::Recover,
        FrameCommitFailure::Policy(CommitErrorKind::ForeignPermit) => AuthenticationCommitDisposition::Abandon,
        FrameCommitFailure::Writer(WriteAdmissionFailure::FrameCapacityReached { .. })
        | FrameCommitFailure::Writer(WriteAdmissionFailure::RetainedByteCapacity { .. }) =>
            AuthenticationCommitDisposition::Fail(AuthenticationFailure::LocalCapacity),
        FrameCommitFailure::Writer(WriteAdmissionFailure::StaleEpoch { .. })
        | FrameCommitFailure::Writer(WriteAdmissionFailure::IdentityInUse(_)) => AuthenticationCommitDisposition::Abandon,
    }
}

/// Separates a failed authentication commit into capacity and policy
/// failures of the stage, mechanical closure left to the lifecycle, a
/// poisoned owner to recover, and broken ownership invariants.
pub fn authentication_commit_disposition(failure: FrameCommitFailure) -> (disposition: AuthenticationCommitDisposition)
    ensures
        disposition == spec_commit_disposition(failure),
{
    match failure {
        FrameCommitFailure::Policy(kind) => match kind {
            CommitErrorKind::AdmissionClosed => AuthenticationCommitDisposition::Lifecycle,
            CommitErrorKind::FrameTooLarge => AuthenticationCommitDisposition::Fail(AuthenticationFailure::PolicyLimitExceeded),
            CommitErrorKind::OwnerPoisoned => AuthenticationCommitDisposition::Recover,
            CommitErrorKind::ForeignPermit => AuthenticationCommitDisposition::Abandon,
        },
        FrameCommitFailure::Writer(writer) => match writer {
            WriteAdmissionFailure::FrameCapacityReached { .. } | WriteAdmissionFailure::RetainedByteCapacity { .. } =>
                AuthenticationCommitDisposition::Fail(AuthenticationFailure::LocalCapacity),
            WriteAdmissionFailure::StaleEpoch { .. } | WriteAdmissionFailure::IdentityInUse(_) =>
                AuthenticationCommitDisposition::Abandon,
        },
    }
}

/// How committing an authentication frame turned out.
#[derive(Clone, Copy, Debug, PartialEq, Eq, Structural)]
pub enum AuthenticationCommitOutcome {
    Committed,
    /// The operation was accepted but its owner failed afterwards.
    AcceptedOwnerFailure,
    /// The frame commit was refused, for this reason.
    Rejected(FrameCommitFailure),
    /// The owner failed before accepting the operation.
    OwnerFailed,
    /// The connection generation is stale.
    StaleConnection,
    /// Any other commit failure.
    Other,
}

/// What the authentication owner does after a commit.
#[derive(Clone, Copy, Debug, PartialEq, Eq, Structural)]
pub struct CommitActions {
    /// Publish the reserved context under the accepted operation.
    pub publish: bool,
    /// Abort the context reservation (the permit went back with the refusal).
    pub abort_reservation: bool,
    /// Mark the lane runnable.
    pub runnable: bool,
    /// Start recovering the generation.
    pub start_recovery: bool,
    /// Fail the stage with this failure.
    pub fail: Option<AuthenticationFailure>,
    /// Abandon the owner; the abandonment becomes its pending recovery.
    pub abandon: bool,
    /// The connection broke direct ownership: the host fails fatally.
    pub host_fatal: bool,
}

/// No action at all; each outcome sets what it needs.
pub open spec fn no_actions() -> CommitActions {
    CommitActions {
        publish: false,
        abort_reservation: false,
        runnable: false,
        start_recovery: false,
        fail: None,
        abandon: false,
        host_fatal: false,
    }
}

pub open spec fn spec_commit_actions(outcome: AuthenticationCommitOutcome, recovery_pending: bool) -> CommitActions {
    match outcome {
        AuthenticationCommitOutcome::Committed => CommitActions { publish: true, runnable: true, ..no_actions() },
        AuthenticationCommitOutcome::AcceptedOwnerFailure =>
            CommitActions { publish: true, start_recovery: !recovery_pending, ..no_actions() },
        AuthenticationCommitOutcome::Rejected(failure) => match spec_commit_disposition(failure) {
            AuthenticationCommitDisposition::Fail(failure) =>
                CommitActions { abort_reservation: true, fail: Some(failure), ..no_actions() },
            AuthenticationCommitDisposition::Lifecycle => CommitActions { abort_reservation: true, ..no_actions() },
            AuthenticationCommitDisposition::Recover =>
                CommitActions { abort_reservation: true, start_recovery: !recovery_pending, ..no_actions() },
            AuthenticationCommitDisposition::Abandon => CommitActions { abort_reservation: true, abandon: true, ..no_actions() },
        },
        AuthenticationCommitOutcome::OwnerFailed =>
            CommitActions { abort_reservation: true, start_recovery: !recovery_pending, ..no_actions() },
        AuthenticationCommitOutcome::StaleConnection => CommitActions { abort_reservation: true, host_fatal: true, ..no_actions() },
        AuthenticationCommitOutcome::Other => CommitActions {
            abort_reservation: true,
            fail: Some(AuthenticationFailure::LocalCapacity),
            ..no_actions()
        },
    }
}

/// The message of the host failure a stale commit target raises.
pub fn stale_commit_message() -> (text: &'static str)
    ensures
        text@ == "stale Bornera connection violated direct ownership"@,
{
    proof {
        reveal_strlit("stale Bornera connection violated direct ownership");
    }
    "stale Bornera connection violated direct ownership"
}

/// Decides the follow-up of one authentication commit: accepted work is
/// published; a refused frame is classified (a capacity or policy failure of
/// the stage, closure left to the lifecycle, a poisoned owner to recover, a
/// broken ownership invariant to abandon); a stale commit target is fatal to
/// the host; recovery starts only when none is pending yet.
pub fn commit_authentication(outcome: AuthenticationCommitOutcome, recovery_pending: bool) -> (actions: CommitActions)
    ensures
        actions == spec_commit_actions(outcome, recovery_pending),
{
    let none = CommitActions {
        publish: false,
        abort_reservation: false,
        runnable: false,
        start_recovery: false,
        fail: None,
        abandon: false,
        host_fatal: false,
    };
    match outcome {
        AuthenticationCommitOutcome::Committed => CommitActions { publish: true, runnable: true, ..none },
        AuthenticationCommitOutcome::AcceptedOwnerFailure => CommitActions { publish: true, start_recovery: !recovery_pending, ..none },
        AuthenticationCommitOutcome::Rejected(failure) => match authentication_commit_disposition(failure) {
            AuthenticationCommitDisposition::Fail(failure) => CommitActions { abort_reservation: true, fail: Some(failure), ..none },
            AuthenticationCommitDisposition::Lifecycle => CommitActions { abort_reservation: true, ..none },
            AuthenticationCommitDisposition::Recover =>
                CommitActions { abort_reservation: true, start_recovery: !recovery_pending, ..none },
            AuthenticationCommitDisposition::Abandon => CommitActions { abort_reservation: true, abandon: true, ..none },
        },
        AuthenticationCommitOutcome::OwnerFailed => CommitActions { abort_reservation: true, start_recovery: !recovery_pending, ..none },
        AuthenticationCommitOutcome::StaleConnection => CommitActions { abort_reservation: true, host_fatal: true, ..none },
        AuthenticationCommitOutcome::Other => CommitActions {
            abort_reservation: true,
            fail: Some(AuthenticationFailure::LocalCapacity),
            ..none
        },
    }
}

/// Settles the publication of an accepted authentication operation: a
/// refused publication abandons the owner, whose abandonment is then the
/// pending recovery, so no other recovery starts.
pub fn publish_authentication(actions: CommitActions, published: bool) -> (settled: CommitActions)
    ensures
        actions.publish && !published ==> settled == (CommitActions { abandon: true, start_recovery: false, ..actions }),
        !(actions.publish && !published) ==> settled == actions,
{
    if actions.publish && !published {
        CommitActions { abandon: true, start_recovery: false, ..actions }
    } else {
        actions
    }
}

/// A commit releases the context reservation exactly when nothing was
/// accepted, and never both recovers and abandons or fails fatally.
pub proof fn law_commit_settles_the_reservation_once(outcome: AuthenticationCommitOutcome, recovery_pending: bool)
    ensures
        ({
            let actions = spec_commit_actions(outcome, recovery_pending);
            &&& actions.publish != actions.abort_reservation
            &&& !(actions.start_recovery && (actions.abandon || actions.host_fatal))
            &&& actions.start_recovery ==> !recovery_pending
            &&& actions.host_fatal ==> outcome == AuthenticationCommitOutcome::StaleConnection
        }),
{
}

} // verus!
