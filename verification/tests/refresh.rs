use direct_reactor::endpoint::BrokerEndpoint;
use direct_reactor::identity::DirectRefreshOwner;
use direct_reactor::lane::ContextCounts;
use direct_reactor::lane::EndpointRefresh;
use direct_reactor::lane::LaneFacts;
use direct_reactor::lane::LifecyclePhase;
use direct_reactor::nonzero::nonzero;
use direct_reactor::nonzero::port_nonzero;
use direct_reactor::runtime::ActivationPlan;
use direct_reactor::runtime::ClusterEndpointRefreshAction;
use direct_reactor::runtime::ClusterRuntime;
use direct_reactor::runtime::RefreshCompletion;
use direct_reactor::traffic::TrafficClass;

// Scenarios that keep the original's names drive the runtime's refresh
// decisions; the lane's own take, defer and completion of its refresh record
// are written into the lane's facts with `update_lane`, as the lane owner
// would after each decision.

fn runtime(max_brokers: usize) -> ClusterRuntime {
    ClusterRuntime::new(nonzero(max_brokers), nonzero(16))
        .unwrap_or_else(|error| panic!("cluster runtime: {}", error.message()))
}

fn endpoint(host: &str, port: u16) -> BrokerEndpoint {
    BrokerEndpoint::new(host.as_bytes().to_vec(), port_nonzero(port))
}

/// A lane whose connection to `endpoint` failed at generation 1 and which now
/// waits for its endpoint to be resolved again.
fn refreshing_lane(owner: DirectRefreshOwner, endpoint: BrokerEndpoint) -> LaneFacts {
    LaneFacts {
        terminal: false,
        connection: None,
        lifecycle: LifecyclePhase::Refreshing { failed_epoch: 1, resolving: false },
        live_generation: false,
        session_ready: false,
        endpoint_refresh: Some(EndpointRefresh { owner, endpoint, failed_epoch: 1 }),
        refresh_needed: true,
        pending_recovery: false,
        pending_scram_proof: false,
        authentication_session: false,
        session_deadline: false,
        pending_requests: 0,
        admission_open: false,
        runnable: false,
        contexts: ContextCounts { reserved: 0, published: 0, retained_bytes: 0, poisoned: false },
        last_close_reason: None,
        scram_proof_sender: false,
    }
}

fn activate(runtime: &mut ClusterRuntime, broker: i32, traffic: TrafficClass, host: &str, port: u16) -> DirectRefreshOwner {
    match runtime.preflight_activation(broker, traffic) {
        Ok(ActivationPlan::NewFamily) => {},
        _ => panic!("new refresh family expected"),
    }
    let (_, owners) = runtime
        .reserve_endpoint_lanes(4)
        .unwrap_or_else(|error| panic!("reserve family: {}", error.message()));
    let owner = DirectRefreshOwner { endpoint: owners[traffic.stable_order()].endpoint, lane: owners[traffic.stable_order()].lane };
    let facts = refreshing_lane(owner, endpoint(host, port));
    let published = runtime
        .publish_sparse_family(broker, owners, endpoint(host, port), traffic, facts)
        .unwrap_or_else(|error| panic!("activate refresh lane: {}", error.message()));
    assert_eq!(published, owner);
    assert!(
        runtime
            .lane(owner)
            .unwrap_or_else(|| panic!("active refresh lane"))
            .facts
            .refresh_needed
    );
    owner
}

fn next(runtime: &mut ClusterRuntime) -> Option<DirectRefreshOwner> {
    match runtime
        .next_endpoint_refresh_action(false)
        .unwrap_or_else(|failure| panic!("select broker refresh: {}", failure.error.message()))
    {
        Some(ClusterEndpointRefreshAction::Broker(owner)) => Some(owner),
        Some(ClusterEndpointRefreshAction::SeedBootstrap) => panic!("test has no seed refresh"),
        None => None,
    }
}

#[test]
fn full_family_bound_is_scanned_once_in_stable_cursor_order() {
    let mut runtime = runtime(4);
    let brokers = [11, 12, 13, 14];
    let hosts = ["one.test", "two.test", "three.test", "four.test"];
    let ports = [9111, 9112, 9113, 9114];
    runtime.install_directory(
        1,
        (0..4).map(|index| (brokers[index], endpoint(hosts[index], ports[index]))).collect(),
    );
    let owners: Vec<DirectRefreshOwner> = (0..4)
        .map(|index| activate(&mut runtime, brokers[index], TrafficClass::Control, hosts[index], ports[index]))
        .collect();

    assert_eq!(next(&mut runtime), Some(owners[0]));
    for owner in &owners[1..] {
        assert_eq!(next(&mut runtime), Some(*owner));
    }
    assert_eq!(next(&mut runtime), Some(owners[0]));
}

#[test]
fn restart_pending_seed_blocks_brokers_until_bootstrap_owns_resolution() {
    let mut runtime = runtime(2);
    runtime.install_directory(1, vec![(1, endpoint("broker-a.test", 9092))]);
    let owner = activate(&mut runtime, 1, TrafficClass::Control, "broker-a.test", 9092);
    let mut seed_lane = refreshing_lane(owner, endpoint("seed.test", 9093));
    seed_lane.endpoint_refresh = None;
    runtime
        .install_resolved_seed(1, endpoint("seed.test", 9093), |_endpoint| Ok::<(), String>(()), |_plan, _owner| Ok(seed_lane))
        .unwrap_or_else(|failure| panic!("install seed: {failure:?}"));
    for _ in 0..2 {
        assert_eq!(
            runtime.next_endpoint_refresh_action(true),
            Ok(Some(ClusterEndpointRefreshAction::SeedBootstrap))
        );
    }
    assert!(runtime.lane(owner).map(|lane| lane.facts.refresh_needed) == Some(true));
    assert_eq!(next(&mut runtime), Some(owner));
}

/// The lane's side of taking its refresh: the resolver now owns it.
fn taken(owner: DirectRefreshOwner, host: &str, port: u16) -> LaneFacts {
    let mut facts = refreshing_lane(owner, endpoint(host, port));
    facts.lifecycle = LifecyclePhase::Refreshing { failed_epoch: 1, resolving: true };
    facts.refresh_needed = false;
    facts
}

#[test]
fn deferred_owner_rotates_behind_peer_and_resolving_lanes_report_no_action() {
    let mut runtime = runtime(1);
    runtime.install_directory(1, vec![(2, endpoint("broker-b.test", 9094))]);
    let control = activate(&mut runtime, 2, TrafficClass::Control, "broker-b.test", 9094);
    let interactive = match runtime.preflight_activation(2, TrafficClass::Interactive) {
        Ok(ActivationPlan::Dormant(owner)) => owner,
        _ => panic!("dormant interactive lane expected"),
    };
    runtime
        .publish_dormant_lane(2, TrafficClass::Interactive, refreshing_lane(interactive, endpoint("broker-b.test", 9094)))
        .unwrap_or_else(|error| panic!("activate interactive: {}", error.message()));

    assert_eq!(next(&mut runtime), Some(control));
    let index = runtime.take_broker_endpoint_refresh(control).unwrap_or_else(|failure| panic!("take: {}", failure.error.message()));
    assert_eq!(index, Some(0));
    runtime.update_lane(control, taken(control, "broker-b.test", 9094)).unwrap_or_else(|error| panic!("{}", error.message()));
    assert_eq!(runtime.take_broker_endpoint_refresh(control), Ok(None));
    assert_eq!(runtime.defer_broker_endpoint_refresh(control, &endpoint("broker-b.test", 9094)), Ok(Some(0)));
    assert_eq!(
        runtime.defer_broker_endpoint_refresh(control, &endpoint("elsewhere.test", 9094)).err().map(|failure| (failure.error.message(), failure.lane)),
        Some(("Bornera broker endpoint-refresh family diverged", Some(0)))
    );
    assert!(runtime.lane(control).unwrap_or_else(|| panic!("diverged lane")).facts.terminal);
    runtime
        .update_lane(control, refreshing_lane(control, endpoint("broker-b.test", 9094)))
        .unwrap_or_else(|error| panic!("{}", error.message()));

    assert_eq!(next(&mut runtime), Some(interactive));
    runtime.update_lane(interactive, taken(interactive, "broker-b.test", 9094)).unwrap_or_else(|error| panic!("{}", error.message()));
    assert_eq!(next(&mut runtime), Some(control));
    runtime.update_lane(control, taken(control, "broker-b.test", 9094)).unwrap_or_else(|error| panic!("{}", error.message()));
    assert_eq!(next(&mut runtime), None);
    assert_eq!(runtime.complete_broker_endpoint_refresh(control), Ok(RefreshCompletion::Complete(0)));
    assert_eq!(runtime.restore_superseded_refresh(0, 1), Ok(()));
    runtime.install_directory(2, vec![(2, endpoint("moved.test", 9094))]);
    assert_eq!(runtime.complete_broker_endpoint_refresh(control), Ok(RefreshCompletion::RestoreSuperseded(0)));
    let unknown = DirectRefreshOwner { endpoint: 99, lane: 99 };
    assert_eq!(runtime.complete_broker_endpoint_refresh(unknown), Ok(RefreshCompletion::Ignore));
    assert_eq!(
        runtime.restore_superseded_refresh(0, 2).err().map(|failure| (failure.error.message(), failure.lane)),
        Some(("Bornera endpoint-refresh outcome epoch diverged", Some(0)))
    );
    assert!(runtime.lane(control).unwrap_or_else(|| panic!("failed restore lane")).facts.terminal);
}

#[test]
fn a_family_whose_endpoint_is_no_longer_advertised_is_not_refreshed() {
    let mut runtime = runtime(2);
    runtime.install_directory(1, vec![(11, endpoint("one.test", 9111))]);
    let owner = activate(&mut runtime, 11, TrafficClass::Control, "one.test", 9111);
    assert_eq!(next(&mut runtime), Some(owner));
    runtime.install_directory(2, vec![(11, endpoint("moved.test", 9111))]);
    assert_eq!(next(&mut runtime), None);
}

#[test]
fn pending_scan_totalizes_missing_foreign_owner_and_epoch_diverged_fences() {
    for corruption in 0..3 {
        let mut runtime = runtime(1);
        runtime.install_directory(1, vec![(51, endpoint("current.test", 9151))]);
        let owner = activate(&mut runtime, 51, TrafficClass::Control, "current.test", 9151);
        let mut facts = refreshing_lane(owner, endpoint("current.test", 9151));
        facts.endpoint_refresh = match corruption {
            0 => None,
            1 => Some(EndpointRefresh {
                owner: DirectRefreshOwner { endpoint: owner.endpoint + 1, lane: owner.lane },
                endpoint: endpoint("current.test", 9151),
                failed_epoch: 1,
            }),
            _ => Some(EndpointRefresh { owner, endpoint: endpoint("current.test", 9151), failed_epoch: 2 }),
        };
        runtime
            .update_lane(owner, facts)
            .unwrap_or_else(|error| panic!("corrupt refresh fence: {}", error.message()));

        let failure = runtime
            .next_endpoint_refresh_action(false)
            .err()
            .unwrap_or_else(|| panic!("corrupt refresh fence must fail"));
        assert_eq!(failure.lane, Some(0));
        assert_eq!(failure.error.message(), "Bornera broker endpoint-refresh lifecycle fence diverged");
        assert!(runtime.lane(owner).unwrap_or_else(|| panic!("corrupt refresh lane")).facts.terminal);
    }
}

#[test]
fn present_nonseed_orphan_is_corruption_for_every_entrypoint() {
    for entry in 0..4 {
        let mut runtime = runtime(1);
        runtime.install_directory(1, vec![(61, endpoint("current.test", 9161))]);
        let (_, owners) = runtime
            .reserve_endpoint_lanes(1)
            .unwrap_or_else(|error| panic!("reserve orphan lane: {}", error.message()));
        let owner = DirectRefreshOwner { endpoint: owners[0].endpoint, lane: owners[0].lane };
        runtime
            .insert_reserved(owners[0], refreshing_lane(owner, endpoint("current.test", 9161)))
            .unwrap_or_else(|error| panic!("file orphan lane: {}", error.message()));
        let failure = match entry {
            0 => runtime.next_endpoint_refresh_action(false).map(drop).err(),
            1 => runtime.take_broker_endpoint_refresh(owner).map(drop).err(),
            2 => runtime.defer_broker_endpoint_refresh(owner, &endpoint("current.test", 9161)).map(drop).err(),
            _ => runtime.complete_broker_endpoint_refresh(owner).map(drop).err(),
        }
        .unwrap_or_else(|| panic!("orphan refresh lane must fail"));
        assert_eq!(failure.lane, Some(0));
        assert_eq!(failure.error.message(), "Bornera endpoint-refresh lane lost its broker family");
        assert!(runtime.lane(owner).unwrap_or_else(|| panic!("orphan lane")).facts.terminal);
    }
}

#[test]
fn retiring_and_removed_owner_is_inert_while_current_peer_progresses() {
    let mut runtime = runtime(2);
    runtime.install_directory(1, vec![(21, endpoint("first.test", 9121)), (22, endpoint("second.test", 9122))]);
    let first = activate(&mut runtime, 21, TrafficClass::Control, "first.test", 9121);
    let second = activate(&mut runtime, 22, TrafficClass::Control, "second.test", 9122);
    let index = runtime
        .take_broker_endpoint_refresh(first)
        .unwrap_or_else(|failure| panic!("take retiring refresh: {}", failure.error.message()))
        .unwrap_or_else(|| panic!("retiring refresh fence"));
    runtime.update_lane(first, taken(first, "first.test", 9121)).unwrap_or_else(|error| panic!("{}", error.message()));
    assert!(runtime
        .begin_family_retirement(21)
        .unwrap_or_else(|error| panic!("begin refresh-family retirement: {}", error.message()))
        .is_some());

    assert_eq!(runtime.complete_broker_endpoint_refresh(first), Ok(RefreshCompletion::Ignore));
    assert_eq!(runtime.take_broker_endpoint_refresh(first), Ok(None));
    assert_eq!(next(&mut runtime), Some(second));

    let mut retired = taken(first, "first.test", 9121);
    retired.terminal = true;
    retired.lifecycle = LifecyclePhase::Closed;
    retired.endpoint_refresh = None;
    runtime.update_lane(first, retired).unwrap_or_else(|error| panic!("{}", error.message()));
    assert!(runtime
        .remove_terminal_family(21)
        .unwrap_or_else(|error| panic!("remove retired refresh family: {}", error.message())));
    assert_eq!(runtime.complete_broker_endpoint_refresh(first), Ok(RefreshCompletion::Ignore));
    assert_eq!(index, 0);
    assert_eq!(next(&mut runtime), Some(second));
}

#[test]
fn current_and_superseded_missing_fences_are_host_fatal() {
    for superseded in [false, true] {
        let mut runtime = runtime(1);
        runtime.install_directory(1, vec![(41, endpoint("current.test", 9141))]);
        let owner = activate(&mut runtime, 41, TrafficClass::Control, "current.test", 9141);
        assert_eq!(runtime.take_broker_endpoint_refresh(owner), Ok(Some(0)));
        let mut missing = taken(owner, "current.test", 9141);
        missing.endpoint_refresh = None;
        runtime.update_lane(owner, missing).unwrap_or_else(|error| panic!("{}", error.message()));
        if superseded {
            runtime.install_directory(2, vec![(41, endpoint("replacement.test", 9142))]);
        }

        let failure = runtime
            .complete_broker_endpoint_refresh(owner)
            .err()
            .unwrap_or_else(|| panic!("missing refresh fence must fail"));
        assert_eq!(failure.lane, Some(0));
        assert_eq!(failure.error.message(), "Bornera broker endpoint-refresh lifecycle fence diverged");
        assert!(runtime.lane(owner).unwrap_or_else(|| panic!("missing-fence lane")).facts.terminal);
    }
}

#[test]
fn superseded_completion_restores_exact_fence_for_a_to_b_to_a() {
    let mut runtime = runtime(1);
    runtime.install_directory(1, vec![(11, endpoint("broker-a.test", 9101))]);
    let owner = activate(&mut runtime, 11, TrafficClass::Control, "broker-a.test", 9101);
    assert_eq!(runtime.take_broker_endpoint_refresh(owner), Ok(Some(0)));
    runtime.update_lane(owner, taken(owner, "broker-a.test", 9101)).unwrap_or_else(|error| panic!("{}", error.message()));

    runtime.install_directory(2, vec![(11, endpoint("broker-b.test", 9102))]);
    assert_eq!(runtime.complete_broker_endpoint_refresh(owner), Ok(RefreshCompletion::RestoreSuperseded(0)));
    assert_eq!(runtime.restore_superseded_refresh(0, 1), Ok(()));
    runtime
        .update_lane(owner, refreshing_lane(owner, endpoint("broker-a.test", 9101)))
        .unwrap_or_else(|error| panic!("{}", error.message()));
    assert!(runtime.lane(owner).unwrap_or_else(|| panic!("superseded endpoint A lane")).facts.refresh_needed);
    assert_eq!(next(&mut runtime), None);

    runtime.install_directory(3, vec![(11, endpoint("broker-a.test", 9101))]);
    assert_eq!(next(&mut runtime), Some(owner));
}
