use std::cell::Cell;

use direct_reactor::bounds::advance_cursor;
use direct_reactor::bounds::cluster_bounds;
use direct_reactor::bounds::DirectSetBounds;
use direct_reactor::endpoint::BrokerEndpoint;
use direct_reactor::error::identity_error;
use direct_reactor::error::ClusterError;
use direct_reactor::identity::refresh_owner;
use direct_reactor::identity::BorneraLaneOwner;
use direct_reactor::identity::DirectRefreshOwner;
use direct_reactor::identity::IdentityAllocator;
use direct_reactor::identity::IdentityError;
use direct_reactor::lane::ContextCounts;
use direct_reactor::lane::LaneFacts;
use direct_reactor::lane::LifecyclePhase;
use direct_reactor::nonzero::nonzero;
use direct_reactor::nonzero::nonzero_port;
use direct_reactor::nonzero::port_nonzero;
use direct_reactor::runtime::claim;
use direct_reactor::runtime::ClusterRuntime;
use direct_reactor::runtime::SeedOffer;
use direct_reactor::runtime::SeedReplacement;
use direct_reactor::runtime::StartFailure;
use direct_reactor::traffic::TrafficClass;

fn runtime() -> ClusterRuntime {
    ClusterRuntime::new(nonzero(4), nonzero(16))
        .unwrap_or_else(|error| panic!("cluster runtime: {}", error.message()))
}

fn failed_lane() -> LaneFacts {
    LaneFacts {
        terminal: false,
        connection: None,
        lifecycle: LifecyclePhase::Backoff,
        live_generation: false,
        session_ready: false,
        endpoint_refresh: None,
        refresh_needed: false,
        pending_recovery: false,
        pending_scram_proof: false,
        authentication_session: false,
        session_deadline: false,
        pending_requests: 0,
        admission_open: false,
        runnable: false,
        contexts: ContextCounts { reserved: 0, published: 0, retained_bytes: 0, poisoned: false },
        last_close_reason: None,
        scram_proof_sender: false,
    }
}

fn reclaimable_lane() -> LaneFacts {
    LaneFacts { terminal: true, lifecycle: LifecyclePhase::Closed, ..failed_lane() }
}

fn connected_lane(connection: u64) -> LaneFacts {
    LaneFacts { connection: Some(connection), lifecycle: LifecyclePhase::Available, ..failed_lane() }
}

fn make_reclaimable(runtime: &mut ClusterRuntime, owner: DirectRefreshOwner) {
    runtime
        .update_lane(owner, reclaimable_lane())
        .unwrap_or_else(|error| panic!("make lane reclaimable: {}", error.message()));
}

fn next_lane(runtime: &mut ClusterRuntime) -> u32 {
    runtime
        .reserve_endpoint_lanes(1)
        .unwrap_or_else(|error| panic!("reserve next identity: {}", error.message()))
        .1[0]
        .lane
}

fn seed_endpoint(host: &str, port: u16) -> BrokerEndpoint {
    BrokerEndpoint::new(host.as_bytes().to_vec(), port_nonzero(port))
}

/// Starts a planned seed lane; its first connection attempt failed.
fn start_seed(_plan: (), _owner: BorneraLaneOwner) -> Result<LaneFacts, String> {
    Ok(failed_lane())
}

/// Installs a seed of `generation` through the runtime's seed transaction.
fn install_seed(runtime: &mut ClusterRuntime, generation: u64, factory: &SeedFactory) -> Result<DirectRefreshOwner, StartFailure<String>> {
    runtime.install_resolved_seed(generation, seed_endpoint("broker.test", 9), |endpoint| factory.at_resolved(endpoint), start_seed)
}

/// Offers a seed of `generation` through the runtime's replacement
/// transaction, with no bootstrap or replacement blocking it.
fn replace_seed(runtime: &mut ClusterRuntime, generation: u64, host: &str, port: u16, factory: &SeedFactory)
    -> Result<SeedReplacement, StartFailure<String>>
{
    runtime.replace_resolved_seed(generation, seed_endpoint(host, port), false, false, |endpoint| factory.at_resolved(endpoint), start_seed)
}

/// Builds seed lane plans, counting the attempts; a failing factory fails
/// every one.
struct SeedFactory {
    attempts: Cell<usize>,
    failing: bool,
}

impl SeedFactory {
    fn counting() -> Self {
        SeedFactory { attempts: Cell::new(0), failing: false }
    }

    fn failing() -> Self {
        SeedFactory { attempts: Cell::new(0), failing: true }
    }

    fn at_resolved(&self, _endpoint: BrokerEndpoint) -> Result<(), String> {
        self.attempts.set(self.attempts.get() + 1);
        if self.failing {
            Err("synthetic seed factory failure".to_string())
        } else {
            Ok(())
        }
    }
}

#[test]
fn factory_failure_precedes_seed_identity_and_set_mutation() {
    let mut runtime = runtime();
    let factory = SeedFactory::failing();
    assert!(install_seed(&mut runtime, 1, &factory).is_err());
    assert_eq!(factory.attempts.get(), 1);
    assert!(runtime.seed_slot().is_none());
    assert_eq!(runtime.lane_count(), 0);
    assert_eq!(next_lane(&mut runtime), 1);
}

#[test]
fn stale_seed_does_not_invoke_factory_or_consume_identity() {
    let mut runtime = runtime();
    let owner = install_seed(&mut runtime, 2, &SeedFactory::counting())
        .unwrap_or_else(|failure| panic!("install seed: {failure:?}"));
    let factory = SeedFactory::counting();
    let replacement = replace_seed(&mut runtime, 2, "stale.test", 9, &factory)
        .unwrap_or_else(|failure| panic!("ignore stale seed: {failure:?}"));
    assert_eq!(replacement, SeedReplacement::Stale);
    assert_eq!(factory.attempts.get(), 0);
    assert_eq!(next_lane(&mut runtime), owner.lane + 1);
}

#[test]
fn busy_seed_is_retained_before_factory_work() {
    let mut runtime = runtime();
    let owner = install_seed(&mut runtime, 1, &SeedFactory::counting())
        .unwrap_or_else(|failure| panic!("install seed: {failure:?}"));
    let factory = SeedFactory::counting();
    let replacement = replace_seed(&mut runtime, 2, "fresh.test", 9093, &factory)
        .unwrap_or_else(|failure| panic!("defer busy seed: {failure:?}"));
    assert_eq!(replacement, SeedReplacement::Retained);
    assert_eq!(factory.attempts.get(), 0);
    assert_eq!(runtime.pending_seed_generation(), Some(2));

    make_reclaimable(&mut runtime, owner);
    assert!(runtime
        .retry_pending_resolved_seed(false, false, |endpoint| factory.at_resolved(endpoint), start_seed)
        .unwrap_or_else(|failure| panic!("install retained seed: {failure:?}")));
    assert_eq!(runtime.pending_seed_generation(), None);
    assert_eq!(factory.attempts.get(), 1);
    let installed = runtime.seed_slot().unwrap_or_else(|| panic!("replaced seed"));
    assert_eq!(installed.generation, 2);
    assert_eq!(installed.owner.lane, owner.lane + 1);
    assert!(runtime.lane(owner).is_none());
    assert_eq!(runtime.lane_count(), 1);
}

#[test]
fn replacement_factory_failure_preserves_the_reclaimable_seed() {
    let mut runtime = runtime();
    let owner = install_seed(&mut runtime, 1, &SeedFactory::counting())
        .unwrap_or_else(|failure| panic!("install seed: {failure:?}"));
    make_reclaimable(&mut runtime, owner);
    let factory = SeedFactory::failing();
    assert!(replace_seed(&mut runtime, 2, "fresh.test", 9093, &factory).is_err());
    assert_eq!(factory.attempts.get(), 1);
    let installed = runtime.seed_slot().unwrap_or_else(|| panic!("retained seed"));
    assert_eq!(installed.owner, owner);
    assert_eq!(installed.generation, 1);
    assert_eq!(next_lane(&mut runtime), owner.lane + 1);
}

#[test]
fn newer_pending_generation_supersedes_without_factory_or_identity_use() {
    let mut runtime = runtime();
    let owner = install_seed(&mut runtime, 1, &SeedFactory::counting())
        .unwrap_or_else(|failure| panic!("install retained seed: {failure:?}"));
    let factory = SeedFactory::counting();

    assert_eq!(replace_seed(&mut runtime, 2, "two.test", 9002, &factory), Ok(SeedReplacement::Retained));
    assert_eq!(replace_seed(&mut runtime, 4, "four.test", 9004, &factory), Ok(SeedReplacement::Retained));
    assert_eq!(
        replace_seed(&mut runtime, 3, "three.test", 9003, &factory)
            .unwrap_or_else(|failure| panic!("drop stale pending seed: {failure:?}")),
        SeedReplacement::Stale
    );
    assert_eq!(factory.attempts.get(), 0);
    assert_eq!(runtime.pending_seed_generation(), Some(4));
    assert_eq!(next_lane(&mut runtime), owner.lane + 1);
}

#[test]
fn aggregate_drain_discards_pending_evidence_and_cannot_reopen_it() {
    let mut runtime = runtime();
    install_seed(&mut runtime, 1, &SeedFactory::counting())
        .unwrap_or_else(|failure| panic!("install draining seed: {failure:?}"));
    let factory = SeedFactory::counting();
    assert_eq!(
        runtime.replace_resolved_seed(2, seed_endpoint("drain.test", 9032), true, false, |endpoint| factory.at_resolved(endpoint), start_seed),
        Ok(SeedReplacement::Retained)
    );
    runtime.begin_cluster_drain().unwrap_or_else(|error| panic!("drain: {}", error.message()));
    assert_eq!(runtime.pending_seed_generation(), None);
    assert_eq!(
        replace_seed(&mut runtime, 3, "late.test", 9033, &factory)
            .unwrap_or_else(|failure| panic!("discard post-drain seed: {failure:?}")),
        SeedReplacement::Stale
    );
    assert!(!runtime
        .retry_pending_resolved_seed(false, false, |endpoint| factory.at_resolved(endpoint), start_seed)
        .unwrap_or_else(|failure| panic!("observe empty seed retry: {failure:?}")));
    assert_eq!(factory.attempts.get(), 0);
}

#[test]
fn blocked_bootstrap_keeps_the_offer_until_a_retry_can_replace_the_seed() {
    let mut runtime = runtime();
    let owner = install_seed(&mut runtime, 1, &SeedFactory::counting())
        .unwrap_or_else(|failure| panic!("install rotating seed: {failure:?}"));
    make_reclaimable(&mut runtime, owner);
    let factory = SeedFactory::counting();
    assert_eq!(
        runtime.replace_resolved_seed(2, seed_endpoint("next.test", 9012), true, false, |endpoint| factory.at_resolved(endpoint), start_seed),
        Ok(SeedReplacement::Retained)
    );
    assert_eq!(runtime.retry_pending_resolved_seed(true, false, |endpoint| factory.at_resolved(endpoint), start_seed), Ok(false));
    assert_eq!(factory.attempts.get(), 0);
    assert_eq!(runtime.retry_pending_resolved_seed(false, false, |endpoint| factory.at_resolved(endpoint), start_seed), Ok(true));
    assert_eq!(factory.attempts.get(), 1);
    assert_eq!(runtime.pending_seed_generation(), None);
    assert_eq!(runtime.seed_slot().map(|installed| installed.generation), Some(2));
    assert_eq!(runtime.retry_pending_resolved_seed(false, false, |endpoint| factory.at_resolved(endpoint), start_seed), Ok(false));
    assert_eq!(factory.attempts.get(), 1);
}

#[test]
fn a_failed_retry_drops_the_kept_offer() {
    let mut runtime = runtime();
    let owner = install_seed(&mut runtime, 1, &SeedFactory::counting())
        .unwrap_or_else(|failure| panic!("install fatal-retry seed: {failure:?}"));
    let factory = SeedFactory::failing();
    assert_eq!(replace_seed(&mut runtime, 2, "fatal.test", 9022, &factory), Ok(SeedReplacement::Retained));
    make_reclaimable(&mut runtime, owner);
    assert_eq!(
        runtime.retry_pending_resolved_seed(false, false, |endpoint| factory.at_resolved(endpoint), start_seed),
        Err(StartFailure::Plan("synthetic seed factory failure".to_string()))
    );
    assert_eq!(factory.attempts.get(), 1);
    assert_eq!(runtime.pending_seed_generation(), None);
    assert_eq!(runtime.seed_slot().map(|installed| installed.owner), Some(owner));
}

#[test]
fn seed_offers_are_retained_while_bootstrap_or_replacement_blocks() {
    let mut runtime = runtime();
    let owner = install_seed(&mut runtime, 1, &SeedFactory::counting())
        .unwrap_or_else(|failure| panic!("install seed: {failure:?}"));
    make_reclaimable(&mut runtime, owner);
    assert_eq!(runtime.check_seed_offer(2, true, false), Ok(SeedOffer::Retained));
    assert_eq!(runtime.check_seed_offer(1, true, false), Ok(SeedOffer::Stale));
    assert_eq!(runtime.check_seed_offer(1, false, true), Ok(SeedOffer::Stale));
    assert_eq!(runtime.check_seed_offer(2, false, true), Ok(SeedOffer::Retained));
    assert_eq!(runtime.check_seed_offer(2, false, false), Ok(SeedOffer::Replaceable));
    assert_eq!(ClusterRuntime::new(nonzero(1), nonzero(1)).map(|fresh| fresh.check_seed_offer(2, false, false)).ok(),
        Some(Err(ClusterError::SeedNotInstalled)));
}

#[test]
fn a_second_seed_cannot_be_installed() {
    let mut runtime = runtime();
    install_seed(&mut runtime, 1, &SeedFactory::counting()).unwrap_or_else(|failure| panic!("install seed: {failure:?}"));
    let factory = SeedFactory::counting();
    assert_eq!(
        install_seed(&mut runtime, 2, &factory),
        Err(StartFailure::Refused(ClusterError::SeedAlreadyInstalled))
    );
    assert_eq!(factory.attempts.get(), 0);
    assert_eq!(runtime.prepare_seed_install().err(), Some(ClusterError::SeedAlreadyInstalled));
}

#[test]
fn seed_lane_cannot_be_removed_individually() {
    let mut runtime = runtime();
    let owner = install_seed(&mut runtime, 1, &SeedFactory::counting())
        .unwrap_or_else(|failure| panic!("install seed: {failure:?}"));
    make_reclaimable(&mut runtime, owner);
    assert_eq!(
        runtime.remove_terminal(owner).err().map(|error| error.message()),
        Some("Bornera cluster seed can only change through replacement")
    );
}

fn insert_lane(runtime: &mut ClusterRuntime, facts: LaneFacts) -> DirectRefreshOwner {
    let owner: BorneraLaneOwner = runtime
        .reserve_endpoint_lanes(1)
        .unwrap_or_else(|error| panic!("reserve lane: {}", error.message()))
        .1[0];
    runtime
        .insert_reserved(owner, facts)
        .unwrap_or_else(|error| panic!("insert lane: {}", error.message()))
}

#[test]
fn exact_connection_outcome_touches_only_its_lane() {
    let mut runtime = runtime();
    insert_lane(&mut runtime, connected_lane(5));
    let second = insert_lane(&mut runtime, connected_lane(6));
    assert_eq!(runtime.scram_proof_lane_index(6), Ok(Some(1)));
    assert_eq!(runtime.lane(second).map(|lane| lane.facts.connection), Some(Some(6)));
    assert_eq!(runtime.scram_proof_lane_index(5), Ok(Some(0)));
}

#[test]
fn legacy_proof_outcome_is_not_claimed_by_the_cluster() {
    let mut runtime = runtime();
    insert_lane(&mut runtime, connected_lane(5));
    assert_eq!(runtime.scram_proof_lane_index(77), Ok(None));
}

#[test]
fn duplicate_connection_target_is_host_fatal() {
    let mut runtime = runtime();
    insert_lane(&mut runtime, connected_lane(5));
    insert_lane(&mut runtime, connected_lane(5));
    let error = runtime.scram_proof_lane_index(5).err().unwrap_or_else(|| panic!("duplicate target"));
    assert_eq!(error.message(), "Bornera SCRAM proof connection owner is duplicated");
}

#[test]
fn one_sender_reaches_existing_and_future_cluster_lanes_then_releases_everywhere() {
    let mut runtime = runtime();
    let first = insert_lane(&mut runtime, failed_lane());
    runtime.install_scram_proof_sender();
    assert!(runtime.lane(first).map(|lane| lane.facts.scram_proof_sender) == Some(true));
    let seed = install_seed(&mut runtime, 1, &SeedFactory::counting())
        .unwrap_or_else(|failure| panic!("install seed: {failure:?}"));
    let later = insert_lane(&mut runtime, failed_lane());
    assert!(runtime.lane(seed).map(|lane| lane.facts.scram_proof_sender) == Some(true));
    assert!(runtime.lane(later).map(|lane| lane.facts.scram_proof_sender) == Some(true));
    runtime.release_scram_proof_sender();
    for owner in [first, seed, later] {
        assert!(runtime.lane(owner).map(|lane| lane.facts.scram_proof_sender) == Some(false));
    }
    let unsent = insert_lane(&mut runtime, LaneFacts { scram_proof_sender: true, ..failed_lane() });
    assert!(runtime.lane(unsent).map(|lane| lane.facts.scram_proof_sender) == Some(false));
}

#[test]
fn older_directory_cannot_regress_installed_generation() {
    let mut runtime = runtime();
    let endpoint = || vec![(7, BrokerEndpoint::new(b"broker.test".to_vec(), port_nonzero(9092)))];
    assert!(runtime.install_directory(2, endpoint()));
    assert!(!runtime.install_directory(1, endpoint()));
    assert_eq!(runtime.installed_directory_generation(), Some(2));
    assert!(runtime.install_directory(2, endpoint()));
    assert!(runtime.install_directory(3, vec![]));
    assert_eq!(runtime.advertised_brokers(), 0);
}

#[test]
fn zero_counts_and_ports_become_one() {
    assert_eq!(nonzero(0).get(), 1);
    assert_eq!(nonzero(7).get(), 7);
    assert_eq!(port_nonzero(0).get(), 1);
    assert_eq!(port_nonzero(9092).get(), 9092);
    assert_eq!(nonzero_port(0).get(), 1);
}

#[test]
fn drain_lists_live_lanes_and_settles_only_when_everything_is_reclaimable() {
    let mut runtime = runtime();
    let seed = install_seed(&mut runtime, 1, &SeedFactory::counting())
        .unwrap_or_else(|failure| panic!("install seed: {failure:?}"));
    runtime.preflight_family(7).unwrap_or_else(|error| panic!("preflight: {}", error.message()));
    let (_, owners) = runtime.reserve_endpoint_lanes(4).unwrap_or_else(|error| panic!("reserve: {}", error.message()));
    let keys = runtime
        .install_family(7, owners, BrokerEndpoint::new(b"b.test".to_vec(), port_nonzero(9092)),
            vec![reclaimable_lane(), reclaimable_lane(), reclaimable_lane(), reclaimable_lane()])
        .unwrap_or_else(|error| panic!("install: {}", error.message()));
    assert_eq!(runtime.validate_cluster_ownership(), Ok(()));
    assert_eq!(runtime.cluster_is_terminal(true), Ok(false));
    let live = runtime
        .begin_cluster_drain()
        .unwrap_or_else(|error| panic!("drain: {}", error.message()));
    assert_eq!(live, vec![seed]);
    assert_eq!(runtime.cluster_is_terminal(true), Ok(false));
    make_reclaimable(&mut runtime, seed);
    assert_eq!(runtime.cluster_is_terminal(false), Ok(false));
    assert_eq!(runtime.cluster_is_terminal(true), Ok(true));
    runtime.install_scram_proof_sender();
    assert_eq!(runtime.cluster_is_terminal(true), Ok(false));
    assert!(runtime.lane(keys[0]).is_some());
}

#[test]
fn a_lane_owned_by_neither_seed_nor_family_is_unclaimed() {
    let mut runtime = runtime();
    insert_lane(&mut runtime, failed_lane());
    assert_eq!(runtime.validate_cluster_ownership().err().map(|error| error.message()), Some("Bornera cluster lane is unclaimed"));
    assert_eq!(runtime.begin_cluster_drain(), Err(ClusterError::LaneUnclaimed));
    assert_eq!(runtime.cluster_is_terminal(true), Err(ClusterError::LaneUnclaimed));
}

#[test]
fn terminal_unowned_lane_is_removed_and_the_moved_lane_is_refiled() {
    let mut runtime = runtime();
    let first = insert_lane(&mut runtime, failed_lane());
    let second = insert_lane(&mut runtime, failed_lane());
    let third = insert_lane(&mut runtime, failed_lane());
    assert_eq!(runtime.remove_terminal(first), Ok(false));
    make_reclaimable(&mut runtime, first);
    assert_eq!(runtime.remove_terminal(first), Ok(true));
    assert!(runtime.lane(first).is_none());
    assert_eq!(runtime.lane(third).map(|lane| lane.owner), Some(third));
    assert_eq!(runtime.lane(second).map(|lane| lane.owner), Some(second));
    assert_eq!(runtime.lane_count(), 2);
    assert_eq!(runtime.remove_terminal(first), Err(ClusterError::OwnerStale));
    assert_eq!(runtime.update_lane(first, failed_lane()), Err(ClusterError::OwnerStale));
}

#[test]
fn retirement_lists_live_family_lanes_once() {
    let mut runtime = runtime();
    runtime.preflight_family(7).unwrap_or_else(|error| panic!("preflight: {}", error.message()));
    let (_, owners) = runtime.reserve_endpoint_lanes(4).unwrap_or_else(|error| panic!("reserve: {}", error.message()));
    let keys = runtime
        .install_family(7, owners, BrokerEndpoint::new(b"b.test".to_vec(), port_nonzero(9092)),
            vec![failed_lane(), reclaimable_lane(), failed_lane(), failed_lane()])
        .unwrap_or_else(|error| panic!("install: {}", error.message()));
    let live = runtime.begin_family_retirement(7).unwrap_or_else(|error| panic!("retire: {}", error.message()));
    assert_eq!(live, Some(vec![keys[0], keys[2], keys[3]]));
    assert_eq!(runtime.begin_family_retirement(7), Ok(None));
    assert_eq!(runtime.begin_family_retirement(8), Err(ClusterError::FamilyStale));
    assert_eq!(runtime.family_owner(7, TrafficClass::Bulk), Some(keys[2]));
}

#[test]
fn cluster_bounds_follow_the_broker_bound_and_turn_budget() {
    assert_eq!(cluster_bounds(nonzero(4), nonzero(16)), Ok(DirectSetBounds { max_connections: 17, ready: 16 }));
    assert_eq!(cluster_bounds(nonzero(1), nonzero(64)), Ok(DirectSetBounds { max_connections: 5, ready: 5 }));
    assert_eq!(
        cluster_bounds(nonzero(usize::MAX), nonzero(1)).err().map(|error| error.message()),
        Some("Bornera cluster lane capacity overflowed")
    );
    assert_eq!(
        cluster_bounds(nonzero(1usize << 31), nonzero(1)).err().map(|error| error.message()),
        Some("Bornera cluster lane capacity exceeds the identity domain")
    );
}

#[test]
fn cursor_advances_around_the_ring() {
    assert_eq!(advance_cursor(0, 1, 4), 1);
    assert_eq!(advance_cursor(3, 1, 4), 0);
    assert_eq!(advance_cursor(6, 3, 4), 1);
    assert_eq!(advance_cursor(2, 0, 4), 2);
    assert_eq!(advance_cursor(5, 2, 0), 2);
}

#[test]
fn identities_are_consecutive_and_exhaust_without_change() {
    let mut allocator = IdentityAllocator::new();
    let (endpoint, owners) = allocator.reserve_endpoint_lanes(4).unwrap_or_else(|_| panic!("reserve"));
    assert_eq!(endpoint, 1);
    assert_eq!(owners.iter().map(|owner| owner.lane).collect::<Vec<u32>>(), vec![1, 2, 3, 4]);
    let (endpoint, owners) = allocator.reserve_endpoint_lanes(1).unwrap_or_else(|_| panic!("reserve"));
    assert_eq!((endpoint, owners[0].lane), (2, 5));
    assert_eq!(allocator.reserve_endpoint_lanes(u32::MAX as usize), Err(IdentityError::Exhausted));
    assert_eq!(allocator.lane_mark(), 6);
    assert_eq!(identity_error(IdentityError::Exhausted), ClusterError::IdentitiesExhausted);
    assert_eq!(refresh_owner(owners[0]), DirectRefreshOwner { endpoint: 2, lane: 5 });
}

#[test]
fn claims_reject_stale_indexes_and_second_claims() {
    let mut claimed = vec![false, false];
    assert_eq!(claim(&mut claimed, 1), Ok(()));
    assert_eq!(claimed, vec![false, true]);
    assert_eq!(claim(&mut claimed, 1).err().map(|error| error.message()), Some("Bornera cluster lane is claimed twice"));
    assert_eq!(claim(&mut claimed, 2).err().map(|error| error.message()), Some("Bornera cluster claim index is stale"));
}

#[test]
fn observation_counts_follow_the_directory_and_the_lanes() {
    let mut runtime = runtime();
    assert_eq!(runtime.advertised_brokers(), 0);
    assert_eq!(runtime.seed_lane_index(), None);
    insert_lane(&mut runtime, failed_lane());
    let seed = install_seed(&mut runtime, 1, &SeedFactory::counting())
        .unwrap_or_else(|failure| panic!("install seed: {failure:?}"));
    assert_eq!(runtime.allocated_lanes(), 2);
    assert_eq!(runtime.seed_lane_index(), Some(1));
    assert_eq!(runtime.lane(seed).map(|lane| lane.owner), Some(seed));
    runtime.install_directory(1, vec![
        (1, BrokerEndpoint::new(b"a.test".to_vec(), port_nonzero(9092))),
        (2, BrokerEndpoint::new(b"b.test".to_vec(), port_nonzero(9092))),
        (1, BrokerEndpoint::new(b"c.test".to_vec(), port_nonzero(9092))),
    ]);
    assert_eq!(runtime.advertised_brokers(), 2);
}
