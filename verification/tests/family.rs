use std::cell::Cell;

use direct_reactor::endpoint::BrokerEndpoint;
use direct_reactor::error::ClusterError;
use direct_reactor::identity::BorneraLaneOwner;
use direct_reactor::identity::DirectRefreshOwner;
use direct_reactor::lane::ContextCounts;
use direct_reactor::lane::LaneFacts;
use direct_reactor::lane::LifecyclePhase;
use direct_reactor::nonzero::nonzero;
use direct_reactor::nonzero::port_nonzero;
use direct_reactor::runtime::ClusterRuntime;
use direct_reactor::runtime::FamilyFailure;
use direct_reactor::runtime::StartFailure;
use direct_reactor::traffic::TrafficClass;

const ALL: [TrafficClass; 4] = [
    TrafficClass::Control,
    TrafficClass::Interactive,
    TrafficClass::Bulk,
    TrafficClass::LongPoll,
];

fn runtime(max_brokers: usize) -> ClusterRuntime {
    ClusterRuntime::new(nonzero(max_brokers), nonzero(16))
        .unwrap_or_else(|error| panic!("cluster runtime: {}", error.message()))
}

fn endpoint() -> BrokerEndpoint {
    BrokerEndpoint::new(b"broker.test".to_vec(), port_nonzero(9092))
}

fn contexts() -> ContextCounts {
    ContextCounts { reserved: 0, published: 0, retained_bytes: 0, poisoned: false }
}

/// A lane whose first connection attempt failed recoverably.
fn failed_lane() -> LaneFacts {
    LaneFacts {
        terminal: false,
        connection: None,
        lifecycle: LifecyclePhase::Backoff,
        live_generation: false,
        session_ready: false,
        endpoint_refresh: None,
        refresh_needed: false,
        pending_recovery: false,
        pending_scram_proof: false,
        authentication_session: false,
        session_deadline: false,
        pending_requests: 0,
        admission_open: false,
        runnable: false,
        contexts: contexts(),
        last_close_reason: None,
        scram_proof_sender: false,
    }
}

/// A terminal lane that holds nothing.
fn reclaimable_lane() -> LaneFacts {
    LaneFacts { terminal: true, lifecycle: LifecyclePhase::Closed, ..failed_lane() }
}

fn make_reclaimable(runtime: &mut ClusterRuntime, owner: DirectRefreshOwner) {
    runtime
        .update_lane(owner, reclaimable_lane())
        .unwrap_or_else(|error| panic!("make lane reclaimable: {}", error.message()));
}

fn next_lane(runtime: &mut ClusterRuntime) -> u32 {
    runtime
        .reserve_endpoint_lanes(1)
        .unwrap_or_else(|error| panic!("reserve next identity: {}", error.message()))
        .1[0]
        .lane
}

fn message(error: ClusterError) -> String {
    error.message().to_string()
}

/// Builds lane plans, one per call; the plan at `fail_at` (one-based) fails.
struct FailNthFactory {
    attempts: Cell<usize>,
    fail_at: usize,
}

impl FailNthFactory {
    fn plan(&self) -> Result<(), String> {
        self.attempts.set(self.attempts.get() + 1);
        if self.attempts.get() == self.fail_at {
            return Err("synthetic plan failure".to_string());
        }
        Ok(())
    }
}

fn failure_message(failure: StartFailure<String>) -> String {
    match failure {
        StartFailure::Refused(error) => error.message().to_string(),
        StartFailure::Plan(error) | StartFailure::Start(error) => error,
    }
}

fn family_failure_message(failure: FamilyFailure<String>) -> String {
    match failure {
        FamilyFailure::Refused(error) => error.message().to_string(),
        FamilyFailure::Plan(error) | FamilyFailure::Start(error, _) => error,
    }
}

/// Installs a whole family through the runtime's family transaction.
fn install_family(runtime: &mut ClusterRuntime, broker: i32, factory: &FailNthFactory) -> Result<Vec<DirectRefreshOwner>, String> {
    runtime
        .install_resolved_family(broker, endpoint(), |_traffic| factory.plan(), |_plan: (), _owner| Ok(failed_lane()))
        .map_err(family_failure_message)
}

fn plans() -> FailNthFactory {
    FailNthFactory { attempts: Cell::new(0), fail_at: 0 }
}

#[derive(Clone, Copy)]
enum FactoryMode {
    Recoverable,
    Fatal,
    Failing,
}

/// Builds one lane plan per call: recoverable, fatal when started, or none.
struct Factory {
    attempts: Cell<usize>,
    mode: FactoryMode,
}

impl Factory {
    fn recoverable() -> Self {
        Self::new(FactoryMode::Recoverable)
    }

    fn fatal() -> Self {
        Self::new(FactoryMode::Fatal)
    }

    fn failing() -> Self {
        Self::new(FactoryMode::Failing)
    }

    fn new(mode: FactoryMode) -> Self {
        Self { attempts: Cell::new(0), mode }
    }

    fn at_resolved(&self) -> Result<FactoryMode, String> {
        self.attempts.set(self.attempts.get() + 1);
        match self.mode {
            FactoryMode::Failing => Err("synthetic plan failure".to_string()),
            mode => Ok(mode),
        }
    }
}

fn start(mode: FactoryMode) -> Result<LaneFacts, String> {
    match mode {
        FactoryMode::Fatal => Err("synthetic fatal connection".to_string()),
        _ => Ok(failed_lane()),
    }
}

/// Activates one family lane through the runtime's activation transaction.
fn activate(runtime: &mut ClusterRuntime, broker: i32, traffic: TrafficClass, factory: &Factory) -> Result<DirectRefreshOwner, String> {
    runtime
        .activate_resolved_lane(broker, traffic, endpoint(), |_traffic| factory.at_resolved(), |mode, _owner| start(mode))
        .map_err(failure_message)
}

#[test]
fn successful_family_is_published_in_stable_traffic_order() {
    let mut runtime = runtime(4);
    let broker = 7;
    let owners = install_family(&mut runtime, broker, &plans())
        .unwrap_or_else(|error| panic!("install broker family: {error}"));

    for (traffic, owner) in ALL.into_iter().zip(owners.iter().copied()) {
        assert_eq!(runtime.family_owner(broker, traffic), Some(owner));
        assert!(runtime.lane(owner).is_some());
    }
    assert_eq!(owners.iter().map(|owner| owner.lane).collect::<Vec<u32>>(), vec![1, 2, 3, 4]);
}

#[test]
fn duplicate_family_is_rejected_before_identity_reservation() {
    let mut runtime = runtime(4);
    let broker = 7;
    install_family(&mut runtime, broker, &plans())
        .unwrap_or_else(|error| panic!("install broker family: {error}"));
    let error = install_family(&mut runtime, broker, &plans())
        .err()
        .unwrap_or_else(|| panic!("duplicate broker family must fail"));
    assert_eq!(error, "Bornera broker family is already installed");
    assert_eq!(next_lane(&mut runtime), 5);
}

#[test]
fn plan_factory_failure_precedes_identity_and_set_mutation() {
    let mut runtime = runtime(4);
    let factory = FailNthFactory { attempts: Cell::new(0), fail_at: 3 };
    let error = install_family(&mut runtime, 7, &factory)
        .err()
        .unwrap_or_else(|| panic!("third plan construction must fail"));
    assert_eq!(error, "synthetic plan failure");
    assert_eq!(factory.attempts.get(), 3);
    assert_eq!(runtime.lane_count(), 0);
    assert_eq!(runtime.family_count(), 0);
    assert_eq!(next_lane(&mut runtime), 1);
}

// The family scenarios below keep the original's names. The connections
// and poller registrations they observed belong to the lane starter; here
// they are observed through the runtime's lanes and identities and, for a
// failed start, through the lanes the transaction hands back for rollback.

#[test]
fn late_fatal_install_rolls_back_every_live_registration() {
    let mut runtime = runtime(4);
    let started = Cell::new(0u64);
    let failure = runtime
        .install_resolved_family(
            7,
            endpoint(),
            |_traffic| Ok::<(), String>(()),
            |_plan: (), _owner| {
                started.set(started.get() + 1);
                if started.get() == 4 {
                    return Err("synthetic fatal connection".to_string());
                }
                Ok(LaneFacts { connection: Some(started.get()), lifecycle: LifecyclePhase::Available, ..failed_lane() })
            },
        )
        .err()
        .unwrap_or_else(|| panic!("late fatal family install must fail"));
    let (error, rolled_back) = match failure {
        FamilyFailure::Start(error, started) => (error, started),
        other => panic!("a failed start expected, not {}", family_failure_message(other)),
    };
    assert_eq!(error, "synthetic fatal connection");
    let released: Vec<Option<u64>> = rolled_back.iter().map(|lane| lane.connection).collect();
    assert_eq!(released, vec![Some(3), Some(2), Some(1)]);
    assert_eq!(runtime.lane_count(), 0);
    assert_eq!(runtime.family_count(), 0);
    assert_eq!(next_lane(&mut runtime), 5);
}

#[test]
fn family_removal_waits_for_all_lanes_and_then_repairs_every_index() {
    let mut runtime = runtime(4);
    let broker = 7;
    let owners = install_family(&mut runtime, broker, &plans())
        .unwrap_or_else(|error| panic!("install broker family: {error}"));
    for owner in owners.iter().take(3) {
        make_reclaimable(&mut runtime, *owner);
    }
    assert!(!runtime
        .remove_terminal_family(broker)
        .unwrap_or_else(|error| panic!("defer broker family removal: {}", error.message())));
    assert!(owners.iter().all(|owner| runtime.lane(*owner).is_some()));

    make_reclaimable(&mut runtime, owners[3]);
    assert!(runtime
        .remove_terminal_family(broker)
        .unwrap_or_else(|error| panic!("remove broker family: {}", error.message())));
    assert!(owners.iter().all(|owner| runtime.lane(*owner).is_none()));
    assert_eq!(runtime.family_owner(broker, TrafficClass::Interactive), None);
}

#[test]
fn one_family_lane_cannot_be_removed_outside_the_family_transaction() {
    let mut runtime = runtime(4);
    let owners = install_family(&mut runtime, 7, &plans())
        .unwrap_or_else(|error| panic!("install broker family: {error}"));
    make_reclaimable(&mut runtime, owners[0]);
    let error = runtime
        .remove_terminal(owners[0])
        .err()
        .unwrap_or_else(|| panic!("individual family removal must fail"));
    assert_eq!(error.message(), "Bornera broker-family lanes must be removed together");
}

#[test]
fn factory_failure_precedes_new_family_identity_and_set_mutation() {
    let mut runtime = runtime(1);
    let factory = Factory::failing();

    assert!(activate(&mut runtime, 7, TrafficClass::Control, &factory).is_err());
    assert_eq!(factory.attempts.get(), 1);
    assert_eq!(runtime.family_count(), 0);
    assert_eq!(runtime.lane_count(), 0);
    assert_eq!(next_lane(&mut runtime), 1);
}

#[test]
fn fatal_first_activation_burns_reservations_but_publishes_nothing() {
    let mut runtime = runtime(1);
    let factory = Factory::fatal();

    assert!(activate(&mut runtime, 7, TrafficClass::Bulk, &factory).is_err());
    assert_eq!(runtime.family_count(), 0);
    assert_eq!(runtime.lane_count(), 0);
    assert_eq!(next_lane(&mut runtime), 5);
}

#[test]
fn dormant_fatal_activation_preserves_the_existing_family() {
    let mut runtime = runtime(1);
    let control = activate(&mut runtime, 7, TrafficClass::Control, &Factory::recoverable())
        .unwrap_or_else(|error| panic!("activate first lane: {error}"));
    let dormant = runtime
        .family_owner(7, TrafficClass::Bulk)
        .unwrap_or_else(|| panic!("reserved bulk owner"));

    assert!(activate(&mut runtime, 7, TrafficClass::Bulk, &Factory::fatal()).is_err());
    assert!(runtime.lane(control).is_some());
    assert!(runtime.lane(dormant).is_none());
    assert_eq!(runtime.lane_count(), 1);
    assert_eq!(next_lane(&mut runtime), 5);
}

#[test]
fn dormant_factory_failure_preserves_the_existing_family() {
    let mut runtime = runtime(1);
    let control = activate(&mut runtime, 7, TrafficClass::Control, &Factory::recoverable())
        .unwrap_or_else(|error| panic!("activate first lane: {error}"));
    let dormant = runtime
        .family_owner(7, TrafficClass::Bulk)
        .unwrap_or_else(|| panic!("reserved bulk owner"));

    assert!(activate(&mut runtime, 7, TrafficClass::Bulk, &Factory::failing()).is_err());
    assert!(runtime.lane(control).is_some());
    assert!(runtime.lane(dormant).is_none());
    assert_eq!(runtime.lane_count(), 1);
    assert_eq!(next_lane(&mut runtime), 5);
}

#[test]
fn family_capacity_rejects_before_factory_and_identity_use() {
    let mut runtime = runtime(1);
    activate(&mut runtime, 7, TrafficClass::Control, &Factory::recoverable())
        .unwrap_or_else(|error| panic!("activate capacity-filling family: {error}"));
    let rejected = Factory::recoverable();

    let error = activate(&mut runtime, 8, TrafficClass::Control, &rejected)
        .err()
        .unwrap_or_else(|| panic!("second family must exceed logical capacity"));
    assert_eq!(error, "Bornera cluster broker family capacity reached");
    assert_eq!(rejected.attempts.get(), 0);
    assert_eq!(next_lane(&mut runtime), 5);
}

#[test]
fn physical_capacity_rejects_dormant_lane_before_factory_or_identity_use() {
    let mut runtime = runtime(1);
    activate(&mut runtime, 7, TrafficClass::Control, &Factory::recoverable())
        .unwrap_or_else(|error| panic!("activate family: {error}"));
    let dormant = runtime
        .family_owner(7, TrafficClass::Bulk)
        .unwrap_or_else(|| panic!("reserved bulk owner"));
    runtime
        .install_resolved_seed(1, endpoint(), |_endpoint| Ok::<(), String>(()), |_plan, _owner| Ok(failed_lane()))
        .unwrap_or_else(|failure| panic!("install seed: {}", failure_message(failure)));
    for _ in 0..3 {
        let owner: BorneraLaneOwner = runtime
            .reserve_endpoint_lanes(1)
            .unwrap_or_else(|error| panic!("reserve filler: {}", error.message()))
            .1[0];
        runtime
            .insert_reserved(owner, failed_lane())
            .unwrap_or_else(|error| panic!("insert filler: {}", error.message()));
    }
    let factory = Factory::recoverable();

    assert!(activate(&mut runtime, 7, TrafficClass::Bulk, &factory).is_err());
    assert_eq!(factory.attempts.get(), 0);
    assert!(runtime.lane(dormant).is_none());
    assert_eq!(next_lane(&mut runtime), 9);
}

#[test]
fn sparse_removal_preflights_and_repairs_peer_indexes() {
    let mut runtime = runtime(4);
    let first = activate(&mut runtime, 7, TrafficClass::Control, &Factory::recoverable())
        .unwrap_or_else(|error| panic!("activate first: {error}"));
    let second = activate(&mut runtime, 7, TrafficClass::LongPoll, &Factory::recoverable())
        .unwrap_or_else(|error| panic!("activate second: {error}"));
    let retained = activate(&mut runtime, 8, TrafficClass::Bulk, &Factory::recoverable())
        .unwrap_or_else(|error| panic!("activate retained: {error}"));
    make_reclaimable(&mut runtime, first);
    assert!(!runtime
        .remove_terminal_family(7)
        .unwrap_or_else(|error| panic!("defer removal: {}", error.message())));
    make_reclaimable(&mut runtime, second);
    assert!(runtime
        .remove_terminal_family(7)
        .unwrap_or_else(|error| panic!("remove family: {}", error.message())));
    assert!(runtime.lane(retained).is_some());
    assert!(runtime.lane(first).is_none());
    assert!(runtime.lane(second).is_none());
}

#[test]
fn individual_reserved_family_owner_cannot_be_removed() {
    let mut runtime = runtime(4);
    activate(&mut runtime, 7, TrafficClass::Control, &Factory::recoverable())
        .unwrap_or_else(|error| panic!("activate family: {error}"));
    let dormant = runtime
        .family_owner(7, TrafficClass::Interactive)
        .unwrap_or_else(|| panic!("reserved dormant owner"));
    assert_eq!(
        runtime
            .remove_terminal(dormant)
            .err()
            .unwrap_or_else(|| panic!("individual removal must fail"))
            .message(),
        "Bornera broker-family lanes must be removed together"
    );
}

#[test]
fn activating_an_active_lane_returns_its_owner_without_a_plan() {
    let mut runtime = runtime(2);
    let control = activate(&mut runtime, 7, TrafficClass::Control, &Factory::recoverable())
        .unwrap_or_else(|error| panic!("activate family: {error}"));
    let again = Factory::recoverable();
    assert_eq!(activate(&mut runtime, 7, TrafficClass::Control, &again), Ok(control));
    assert_eq!(again.attempts.get(), 0);
    assert_eq!(runtime.lane_count(), 1);
}

#[test]
fn sparse_family_owners_are_reserved_in_stable_order_and_only_one_is_filed() {
    let mut runtime = runtime(2);
    let bulk = activate(&mut runtime, 7, TrafficClass::Bulk, &Factory::recoverable())
        .unwrap_or_else(|error| panic!("activate family: {error}"));
    assert_eq!(bulk.lane, 3);
    let lanes: Vec<u32> = ALL
        .into_iter()
        .map(|traffic| runtime.family_owner(7, traffic).unwrap_or_else(|| panic!("reserved owner")).lane)
        .collect();
    assert_eq!(lanes, vec![1, 2, 3, 4]);
    assert_eq!(runtime.lane_count(), 1);
    assert_eq!(runtime.family_active_count(7), Ok(1));
}

#[test]
fn republishing_a_dormant_lane_that_became_active_is_refused() {
    let mut runtime = runtime(2);
    activate(&mut runtime, 7, TrafficClass::Control, &Factory::recoverable())
        .unwrap_or_else(|error| panic!("activate family: {error}"));
    let error = runtime
        .publish_dormant_lane(7, TrafficClass::Control, failed_lane())
        .err()
        .unwrap_or_else(|| panic!("an active lane is not dormant"));
    assert_eq!(error, ClusterError::FamilyLaneStateDiverged);
    assert_eq!(runtime.lane_count(), 1);
    assert_eq!(
        runtime.publish_dormant_lane(9, TrafficClass::Control, failed_lane()).err(),
        Some(ClusterError::FamilyStale)
    );
}

#[test]
fn reused_owners_are_refused_before_anything_is_published() {
    let mut runtime = runtime(2);
    let (_, owners) = runtime
        .reserve_endpoint_lanes(4)
        .unwrap_or_else(|error| panic!("reserve family: {}", error.message()));
    runtime
        .publish_sparse_family(7, owners.clone(), endpoint(), TrafficClass::Control, failed_lane())
        .unwrap_or_else(|error| panic!("publish family: {}", error.message()));
    let error = runtime
        .publish_sparse_family(8, owners, endpoint(), TrafficClass::Control, failed_lane())
        .err()
        .unwrap_or_else(|| panic!("reused owners must fail"));
    assert_eq!(error.message(), "Bornera cluster lane owner was reused");
    assert_eq!(runtime.family_count(), 1);
    assert_eq!(runtime.lane_count(), 1);
}
