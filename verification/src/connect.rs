//! Configuring one connection attempt of a lane: its deadline on the driver's
//! clock, its identity, and how a failed TLS attempt is classified.

use vstd::prelude::*;
use crate::identity::BorneraLaneOwner;
use crate::simulated::SimulatedTransportHandle;

verus! {

/// Nanoseconds in one second.
pub const NANOS_PER_SECOND: u64 = 1_000_000_000;

/// A connect timeout, as whole seconds and the nanoseconds beyond them.
#[derive(Clone, Copy, Debug, PartialEq, Eq, Structural)]
pub struct ConnectTimeout {
    pub secs: u64,
    pub subsec_nanos: u32,
}

impl ConnectTimeout {
    pub open spec fn wf(&self) -> bool {
        self.subsec_nanos < NANOS_PER_SECOND
    }

    /// The timeout in nanoseconds.
    pub open spec fn nanos(&self) -> int {
        self.secs * NANOS_PER_SECOND + self.subsec_nanos
    }
}

/// The instant `timeout` after `now` on the driver's clock, computed by
/// `kafka_driver_core::Moment::checked_add`: the sum of the nanoseconds when
/// it fits in a `u64`, and `None` otherwise.
#[verifier::external_body]
fn moment_checked_add(now: u64, timeout: ConnectTimeout) -> (deadline: Option<u64>)
    requires
        timeout.wf(),
    ensures
        now + timeout.nanos() <= u64::MAX ==> deadline == Some((now + timeout.nanos()) as u64),
        now + timeout.nanos() > u64::MAX ==> deadline is None,
{
    kafka_driver_core::Moment::from_nanos(now)
        .checked_add(std::time::Duration::new(timeout.secs, timeout.subsec_nanos))
        .map(kafka_driver_core::Moment::as_nanos)
}

/// What a connection attempt is configured with.
#[derive(Clone, Copy, Debug, PartialEq, Eq, Structural)]
pub struct ConnectionPlan {
    /// The lane identity the connection belongs to.
    pub owner: BorneraLaneOwner,
    /// The connection epoch being acquired.
    pub epoch: u64,
    /// The connect deadline on the driver's clock.
    pub deadline: u64,
}

/// Why a connection attempt cannot be configured.
#[derive(Clone, Copy, Debug, PartialEq, Eq, Structural)]
pub enum ConnectConfigError {
    /// The connect deadline does not fit on the driver's clock.
    DeadlineOverflow,
}

impl ConnectConfigError {
    /// The error's message.
    pub fn message(&self) -> (text: &'static str)
        ensures
            text@ == "direct connect deadline overflowed"@,
    {
        match self {
            ConnectConfigError::DeadlineOverflow => "direct connect deadline overflowed",
        }
    }
}

/// Configures an attempt of `owner`'s lane for `epoch` at `now`: its
/// deadline is `timeout` later, and the attempt fails when that instant
/// overflows the driver's clock.
pub fn connection_config(owner: BorneraLaneOwner, epoch: u64, now: u64, timeout: ConnectTimeout)
    -> (plan: Result<ConnectionPlan, ConnectConfigError>)
    requires
        timeout.wf(),
    ensures
        now + timeout.nanos() <= u64::MAX ==> plan == Ok::<ConnectionPlan, ConnectConfigError>(
            ConnectionPlan { owner, epoch, deadline: (now + timeout.nanos()) as u64 },
        ),
        now + timeout.nanos() > u64::MAX ==> plan == Err::<ConnectionPlan, ConnectConfigError>(ConnectConfigError::DeadlineOverflow),
{
    match moment_checked_add(now, timeout) {
        Some(deadline) => Ok(ConnectionPlan { owner, epoch, deadline }),
        None => Err(ConnectConfigError::DeadlineOverflow),
    }
}

/// How a failed connection attempt counts.
#[derive(Clone, Copy, Debug, PartialEq, Eq, Structural)]
pub enum ConnectFailureClass {
    /// The endpoint could not be reached: the lane may try other addresses.
    Endpoint,
    /// The attempt cannot succeed as configured.
    Fatal,
}

/// Classifies a failed TLS connection attempt: an I/O failure that is not a
/// TLS connector failure is the endpoint's; anything else is fatal.
pub fn rustls_connect_error(io_failure: bool, tls_connector_failure: bool) -> (class: ConnectFailureClass)
    ensures
        class == (if io_failure && !tls_connector_failure { ConnectFailureClass::Endpoint } else { ConnectFailureClass::Fatal }),
{
    if io_failure && !tls_connector_failure {
        ConnectFailureClass::Endpoint
    } else {
        ConnectFailureClass::Fatal
    }
}

/// The limits a broker's connection attempts are made with.
#[derive(Clone, Copy, Debug, PartialEq, Eq, Structural)]
pub struct BrokerLimits {
    pub connect_timeout: ConnectTimeout,
}

/// TLS connection attempts to one broker: every attempt is configured from
/// the same limits and verifies the same server name.
#[derive(Debug)]
pub struct RustlsAttempt {
    broker: BrokerLimits,
    server_name: Vec<u8>,
}

impl RustlsAttempt {
    pub closed spec fn broker(&self) -> BrokerLimits {
        self.broker
    }

    pub closed spec fn server_name(&self) -> Seq<u8> {
        self.server_name@
    }

    pub fn new(broker: BrokerLimits, server_name: Vec<u8>) -> (attempt: Self)
        ensures
            attempt.broker() == broker,
            attempt.server_name() == server_name@,
    {
        RustlsAttempt { broker, server_name }
    }

    /// The server name the attempts verify.
    pub fn server_name_for_test(&self) -> (name: &Vec<u8>)
        ensures
            name@ == self.server_name(),
    {
        &self.server_name
    }

    /// Configures the attempt of `owner`'s lane for `epoch` at `now`.
    pub fn configure(&self, owner: BorneraLaneOwner, epoch: u64, now: u64) -> (plan: Result<ConnectionPlan, ConnectConfigError>)
        requires
            self.broker().connect_timeout.wf(),
        ensures
            now + self.broker().connect_timeout.nanos() <= u64::MAX ==> plan == Ok::<ConnectionPlan, ConnectConfigError>(
                ConnectionPlan { owner, epoch, deadline: (now + self.broker().connect_timeout.nanos()) as u64 },
            ),
            now + self.broker().connect_timeout.nanos() > u64::MAX
                ==> plan == Err::<ConnectionPlan, ConnectConfigError>(ConnectConfigError::DeadlineOverflow),
    {
        connection_config(owner, epoch, now, self.broker.connect_timeout)
    }
}

/// Connection attempts to one broker through a modeled transport.
#[derive(Debug)]
pub struct SimulatedAttempt {
    broker: BrokerLimits,
    handle: SimulatedTransportHandle,
}

impl SimulatedAttempt {
    pub closed spec fn broker(&self) -> BrokerLimits {
        self.broker
    }

    pub fn new(broker: BrokerLimits, handle: SimulatedTransportHandle) -> (attempt: Self)
        ensures
            attempt.broker() == broker,
    {
        SimulatedAttempt { broker, handle }
    }

    pub closed spec fn transport(&self) -> SimulatedTransportHandle {
        self.handle
    }

    /// The modeled transport the attempts connect through.
    pub fn handle(&mut self) -> (handle: &mut SimulatedTransportHandle)
        ensures
            *handle == old(self).transport(),
            final(self).transport() == *final(handle),
            final(self).broker() == old(self).broker(),
    {
        &mut self.handle
    }

    /// Configures the attempt of `owner`'s lane for `epoch` at `now`.
    pub fn configure(&self, owner: BorneraLaneOwner, epoch: u64, now: u64) -> (plan: Result<ConnectionPlan, ConnectConfigError>)
        requires
            self.broker().connect_timeout.wf(),
        ensures
            now + self.broker().connect_timeout.nanos() <= u64::MAX ==> plan == Ok::<ConnectionPlan, ConnectConfigError>(
                ConnectionPlan { owner, epoch, deadline: (now + self.broker().connect_timeout.nanos()) as u64 },
            ),
            now + self.broker().connect_timeout.nanos() > u64::MAX
                ==> plan == Err::<ConnectionPlan, ConnectConfigError>(ConnectConfigError::DeadlineOverflow),
    {
        connection_config(owner, epoch, now, self.broker.connect_timeout)
    }
}

} // verus!
