use direct_reactor::connect::connection_config;
use direct_reactor::connect::rustls_connect_error;
use direct_reactor::connect::BrokerLimits;
use direct_reactor::connect::ConnectConfigError;
use direct_reactor::connect::ConnectFailureClass;
use direct_reactor::connect::ConnectTimeout;
use direct_reactor::connect::ConnectionPlan;
use direct_reactor::connect::RustlsAttempt;
use direct_reactor::connect::SimulatedAttempt;
use direct_reactor::endpoint::BrokerEndpoint;
use direct_reactor::error::ClusterError;
use direct_reactor::identity::BorneraLaneOwner;
use direct_reactor::identity::DirectRefreshOwner;
use direct_reactor::nonzero::nonzero;
use direct_reactor::nonzero::nonzero_port;
use direct_reactor::nonzero::port_nonzero;
use direct_reactor::observation::route_owns_current_physical;
use direct_reactor::observation::route_phase;
use direct_reactor::observation::AdvertisedRoute;
use direct_reactor::observation::InstalledRoute;
use direct_reactor::observation::RoutePhase;
use direct_reactor::simulated::SimulatedTransportHandle;
use direct_reactor::simulated::RETAINED_LIMIT;

const OWNER: BorneraLaneOwner = BorneraLaneOwner { endpoint: 3, lane: 9 };

fn limits(secs: u64) -> BrokerLimits {
    BrokerLimits { connect_timeout: ConnectTimeout { secs, subsec_nanos: 250 } }
}

#[test]
fn connect_deadline_is_the_timeout_after_now() {
    let timeout = ConnectTimeout { secs: 2, subsec_nanos: 5 };
    assert_eq!(
        connection_config(OWNER, 7, 100, timeout),
        Ok(ConnectionPlan { owner: OWNER, epoch: 7, deadline: 2_000_000_105 })
    );
}

#[test]
fn connect_deadline_overflow_is_refused() {
    let timeout = ConnectTimeout { secs: 1, subsec_nanos: 0 };
    let error = connection_config(OWNER, 7, u64::MAX - 10, timeout).err().unwrap_or_else(|| panic!("must overflow"));
    assert_eq!(error, ConnectConfigError::DeadlineOverflow);
    assert_eq!(error.message(), "direct connect deadline overflowed");
    let huge = ConnectTimeout { secs: u64::MAX, subsec_nanos: 0 };
    assert_eq!(connection_config(OWNER, 7, 0, huge), Err(ConnectConfigError::DeadlineOverflow));
    let exact = ConnectTimeout { secs: 0, subsec_nanos: 10 };
    assert_eq!(
        connection_config(OWNER, 7, u64::MAX - 10, exact),
        Ok(ConnectionPlan { owner: OWNER, epoch: 7, deadline: u64::MAX })
    );
}

#[test]
fn tls_attempt_keeps_its_server_name_and_limits() {
    let attempt = RustlsAttempt::new(limits(1), b"broker.test".to_vec());
    assert_eq!(attempt.server_name_for_test(), &b"broker.test".to_vec());
    assert_eq!(
        attempt.configure(OWNER, 2, 10),
        Ok(ConnectionPlan { owner: OWNER, epoch: 2, deadline: 1_000_000_260 })
    );
}

#[test]
fn tls_io_failures_are_the_endpoints_and_connector_failures_fatal() {
    assert_eq!(rustls_connect_error(true, false), ConnectFailureClass::Endpoint);
    assert_eq!(rustls_connect_error(true, true), ConnectFailureClass::Fatal);
    assert_eq!(rustls_connect_error(false, false), ConnectFailureClass::Fatal);
}

#[test]
fn simulated_transport_accepts_bytes_only_once_connected_and_within_the_limit() {
    let mut handle = SimulatedTransportHandle::new();
    assert!(!handle.receive(b"early"));
    assert!(handle.connect());
    assert!(!handle.connect());
    assert!(handle.receive(b"hello"));
    assert_eq!(handle.read(false, 8), None);
    assert_eq!(handle.read(true, 2), Some(b"he".to_vec()));
    assert_eq!(handle.read(true, 8), Some(b"llo".to_vec()));
    assert_eq!(handle.read(true, 8), None);
    let large = vec![0u8; RETAINED_LIMIT];
    assert!(handle.receive(&large));
    assert!(!handle.receive(b"x"));
    assert!(!handle.write(true, b"x"));
}

#[test]
fn simulated_transport_hands_back_complete_frames_in_order() {
    let mut handle = SimulatedTransportHandle::new();
    assert!(!handle.write(false, b"closed"));
    assert!(handle.write(true, &[0, 0, 0, 2, 7, 8, 0, 0, 0, 0, 0, 0, 0, 3, 1]));
    assert_eq!(handle.take_frames(), vec![vec![0, 0, 0, 2, 7, 8], vec![0, 0, 0, 0]]);
    assert!(handle.write(true, &[2, 3]));
    assert_eq!(handle.take_frames(), vec![vec![0, 0, 0, 3, 1, 2, 3]]);
    assert_eq!(handle.take_frames(), Vec::<Vec<u8>>::new());
}

#[test]
fn simulated_transport_stops_at_a_negative_frame_length() {
    let mut handle = SimulatedTransportHandle::new();
    assert!(handle.write(true, &[0x80, 0, 0, 0, 1, 0, 0, 0, 0]));
    assert_eq!(handle.take_frames(), Vec::<Vec<u8>>::new());
    assert!(handle.write(true, &[1]));
    assert_eq!(handle.take_frames(), Vec::<Vec<u8>>::new());
}

#[test]
fn simulated_attempt_configures_from_its_limits() {
    let mut attempt = SimulatedAttempt::new(limits(3), SimulatedTransportHandle::new());
    assert!(attempt.handle().connect());
    assert_eq!(
        attempt.configure(OWNER, 1, 0),
        Ok(ConnectionPlan { owner: OWNER, epoch: 1, deadline: 3_000_000_250 })
    );
}

#[test]
fn nonzero_values_keep_their_value() {
    assert_eq!(nonzero(7).get(), 7);
    assert_eq!(port_nonzero(9092).get(), 9092);
    assert_eq!(nonzero_port(1).get(), 1);
    let endpoint = BrokerEndpoint::new(b"b.test".to_vec(), nonzero_port(9093));
    assert_eq!(endpoint.port, 9093);
    assert!(endpoint.same_as(&BrokerEndpoint::new(b"b.test".to_vec(), port_nonzero(9093))));
    assert!(!endpoint.same_as(&BrokerEndpoint::new(b"b.test".to_vec(), port_nonzero(9094))));
    assert!(!endpoint.same_as(&BrokerEndpoint::new(b"c.test".to_vec(), port_nonzero(9093))));
}

fn endpoint(host: &str) -> BrokerEndpoint {
    BrokerEndpoint::new(host.as_bytes().to_vec(), port_nonzero(9092))
}

#[test]
fn route_owns_its_physical_lane_only_when_everything_matches() {
    let owner = DirectRefreshOwner { endpoint: 1, lane: 2 };
    let advertised = Some(AdvertisedRoute { route: 4, endpoint: endpoint("a.test") });
    let installed = Some(InstalledRoute { route: 4, endpoint: endpoint("a.test"), owner });
    assert!(route_owns_current_physical(&advertised, &installed, true, Ok(Some(owner))));
    assert!(!route_owns_current_physical(&advertised, &installed, false, Ok(Some(owner))));
    assert!(!route_owns_current_physical(&advertised, &installed, true, Ok(None)));
    assert!(!route_owns_current_physical(&advertised, &installed, true, Err(ClusterError::FamilyStale)));
    let moved = Some(InstalledRoute { route: 4, endpoint: endpoint("b.test"), owner });
    assert!(!route_owns_current_physical(&advertised, &moved, true, Ok(Some(owner))));
    let rerouted = Some(InstalledRoute { route: 5, endpoint: endpoint("a.test"), owner });
    assert!(!route_owns_current_physical(&advertised, &rerouted, true, Ok(Some(owner))));
    assert!(!route_owns_current_physical(&None, &installed, true, Ok(Some(owner))));
    assert!(!route_owns_current_physical(&advertised, &None, true, Ok(Some(owner))));
}

#[test]
fn route_phases_follow_advertisement_ownership_and_resolution() {
    assert_eq!(route_phase(false, false, false, true), RoutePhase::Retired);
    assert_eq!(route_phase(true, true, false, true), RoutePhase::Retired);
    assert_eq!(route_phase(true, true, true, false), RoutePhase::Owned);
    assert_eq!(route_phase(true, false, false, true), RoutePhase::Resolving);
    assert_eq!(route_phase(true, false, false, false), RoutePhase::Dormant);
    assert_eq!(route_phase(true, false, true, false), RoutePhase::Dormant);
}
