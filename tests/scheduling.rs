use hamster_provider::dapp::DappStatus;
use hamster_provider::deployment::DeploymentMethod;
use hamster_provider::liveness::{check_and_get_heartbeat_timeout, check_heartbeat_timeout};
use hamster_provider::pallet::{Error, Event, Pallet};
use hamster_provider::provider::ComputingResource;

const ALICE: u64 = 1;
const BOB: u64 = 2;

fn node(p: &Pallet, id: u64) -> &ComputingResource {
    p.resources.iter().find(|r| r.index == id).expect("node exists")
}

fn unused(p: &Pallet, id: u64) -> (u8, u8) {
    let n = node(p, id);
    (n.config.unused_cpu, n.config.unused_memory)
}

fn cli() -> DeploymentMethod {
    DeploymentMethod::Cli(b"nginx:80".to_vec())
}

fn request(p: &mut Pallet, who: u64, name: &str, cpu: u8, memory: u8, now: u64) -> Result<u64, Error> {
    p.request_dapp_deployment(who, cli(), name.as_bytes().to_vec(), cpu, memory, 1, 1, now)
}

fn host_of(p: &Pallet, did: u64) -> u64 {
    p.dapps.iter().find(|d| d.dapp_index == did).expect("workload exists").resource_index
}

fn rank_is_sorted(p: &Pallet) -> bool {
    p.resource_rank.windows(2).all(|w| w[0] < w[1])
}

#[test]
fn register_gives_sequential_ids_and_ranks_nodes() {
    let mut p = Pallet::new();
    let a = p.register_resource(ALICE, b"peer-a".to_vec(), b"10.0.0.1".to_vec(), 4, 4, 0);
    let b = p.register_resource(ALICE, b"peer-b".to_vec(), b"10.0.0.2".to_vec(), 2, 1, 0);
    assert_eq!((a, b), (0, 1));
    assert_eq!(p.resource_index, 2);
    assert_eq!(p.resource_rank, vec![(3, 1), (8, 0)]);
    assert_eq!(p.user_resources, vec![(ALICE, vec![0, 1])]);
    assert!(matches!(p.events.last(), Some(Event::RegisterResourceSuccess(1, 1, 2, 1))));
}

#[test]
fn allocation_picks_the_smallest_score_that_fits() {
    let mut p = Pallet::new();
    let b = p.register_resource(ALICE, b"b".to_vec(), b"ip".to_vec(), 3, 3, 0);
    let a = p.register_resource(ALICE, b"a".to_vec(), b"ip".to_vec(), 2, 2, 0);
    assert_eq!(p.allocate_resource_node(1, 1), Some(a));
    assert_eq!(unused(&p, a), (1, 1));
    assert_eq!(unused(&p, b), (3, 3));
    assert_eq!(p.resource_rank, vec![(2, a), (6, b)]);
    assert_eq!(p.allocate_resource_node(2, 2), Some(b));
    assert_eq!(p.resource_rank, vec![(2, b), (2, a)]);
}

#[test]
fn allocation_ties_go_to_the_lower_id() {
    let mut p = Pallet::new();
    let x = p.register_resource(ALICE, b"x".to_vec(), b"ip".to_vec(), 3, 1, 0);
    let y = p.register_resource(ALICE, b"y".to_vec(), b"ip".to_vec(), 2, 2, 0);
    assert_eq!(p.allocate_resource_node(1, 1), Some(x));
    assert_eq!(p.allocate_resource_node(2, 1), Some(y));
}

#[test]
fn allocation_on_empty_pool_fails() {
    let mut p = Pallet::new();
    assert_eq!(p.allocate_resource_node(0, 0), None);
    assert_eq!(p.allocate_resource_node(1, 1), None);
    assert_eq!(request(&mut p, ALICE, "web", 1, 1, 0), Err(Error::InstantiateError));
    assert!(p.dapps.is_empty() && p.deployments.is_empty() && p.user_dapps.is_empty());
}

#[test]
fn repeated_name_is_refused_for_the_same_owner_only() {
    let mut p = Pallet::new();
    p.register_resource(ALICE, b"n".to_vec(), b"ip".to_vec(), 8, 8, 0);
    assert_eq!(request(&mut p, ALICE, "web", 1, 1, 0), Ok(0));
    assert_eq!(request(&mut p, ALICE, "web", 1, 1, 0), Err(Error::RepeatDAppName));
    assert_eq!(p.dapps.len(), 1);
    assert_eq!(request(&mut p, BOB, "web", 1, 1, 0), Ok(1));
    assert_eq!(p.dapps.len(), 2);
}

#[test]
fn heartbeat_by_another_account_fails_and_changes_nothing() {
    let mut p = Pallet::new();
    let n = p.register_resource(ALICE, b"n".to_vec(), b"ip".to_vec(), 2, 2, 0);
    let events = p.events.len();
    assert_eq!(p.resource_heartbeat(BOB, n, vec![], 50), Err(Error::ResourceNotOwnedByAccount));
    assert_eq!(node(&p, n).last_heartbeat, 0);
    assert_eq!(p.events.len(), events);
    assert_eq!(p.resource_heartbeat(ALICE, 9, vec![], 50), Err(Error::InvalidResourceIndex));
}

#[test]
fn heartbeat_refreshes_node_and_listed_workloads() {
    let mut p = Pallet::new();
    let n = p.register_resource(ALICE, b"peer".to_vec(), b"ip".to_vec(), 4, 4, 0);
    let w = request(&mut p, BOB, "web", 1, 1, 0).unwrap();
    let v = request(&mut p, BOB, "db", 1, 1, 0).unwrap();
    assert_eq!(p.resource_heartbeat(ALICE, n, vec![w, 77], 40), Ok(()));
    assert_eq!(node(&p, n).last_heartbeat, 40);
    assert_eq!(p.dapps.iter().find(|d| d.dapp_index == w).unwrap().last_heartbeat, 40);
    assert_eq!(p.dapps.iter().find(|d| d.dapp_index == v).unwrap().last_heartbeat, 0);
    assert!(matches!(p.events.last(), Some(Event::ResourceHeartbeat(peer, ids)) if peer == b"peer" && ids == &vec![w, 77]));
}

#[test]
fn deployment_then_oversized_deployment() {
    let mut p = Pallet::new();
    let n1 = p.register_resource(ALICE, b"n1".to_vec(), b"ip".to_vec(), 4, 4, 0);
    let d1 = request(&mut p, BOB, "d1", 2, 2, 0);
    assert!(d1.is_ok());
    assert_eq!(unused(&p, n1), (2, 2));
    assert_eq!(request(&mut p, BOB, "d2", 4, 4, 0), Err(Error::InstantiateError));
    assert_eq!(unused(&p, n1), (2, 2));
    assert_eq!(p.dapps.len(), 1);
    assert_eq!(p.deployments.len(), 1);
}

#[test]
fn placement_is_recorded_and_announced() {
    let mut p = Pallet::new();
    let n = p.register_resource(ALICE, b"peer".to_vec(), b"ip".to_vec(), 4, 4, 7);
    let method = DeploymentMethod::Ipfs(b"QmCid".to_vec());
    let did = p.request_dapp_deployment(BOB, method, b"site".to_vec(), 1, 2, 3, 1, 9).unwrap();
    let d = &p.dapps[0];
    assert_eq!((d.dapp_index, d.account, d.resource_index, d.status, d.last_heartbeat), (did, BOB, n, DappStatus::Online, 9));
    assert_eq!(d.dapp_name, b"site".to_vec());
    assert_eq!(node(&p, n).dapps, vec![did]);
    assert_eq!(p.deployments[0].0, 0);
    assert_eq!((p.deployments[0].1.cpu, p.deployments[0].1.memory, p.deployments[0].1.replicas), (1, 2, 3));
    assert_eq!(p.user_dapps, vec![(BOB, vec![b"site".to_vec()])]);
    assert!(matches!(p.events.last(),
        Some(Event::DeploymentDApp(peer, 1, 2, 2, cmd, id)) if peer == b"peer" && cmd == b"QmCid" && *id == did));
}

#[test]
fn sweep_finds_silent_node_and_workload() {
    let mut p = Pallet::new();
    let n1 = p.register_resource(ALICE, b"n1".to_vec(), b"ip".to_vec(), 2, 2, 0);
    let w = request(&mut p, BOB, "w", 1, 1, 0).unwrap();
    assert_eq!(check_heartbeat_timeout(300, &p.resources), None);
    assert_eq!(check_and_get_heartbeat_timeout(300, &p.dapps), None);
    assert_eq!(check_heartbeat_timeout(301, &p.resources), Some(vec![n1]));
    assert_eq!(check_and_get_heartbeat_timeout(301, &p.dapps), Some(vec![w]));
    p.on_initialize(301);
    assert!(p.resources.is_empty());
    assert!(p.dapps.is_empty());
    assert!(p.resource_rank.is_empty());
}

#[test]
fn sweep_keeps_what_beats_in_time() {
    let mut p = Pallet::new();
    let n1 = p.register_resource(ALICE, b"n1".to_vec(), b"ip".to_vec(), 4, 4, 0);
    let n2 = p.register_resource(ALICE, b"n2".to_vec(), b"ip".to_vec(), 4, 4, 0);
    let w = request(&mut p, BOB, "w", 2, 2, 0).unwrap();
    assert_eq!(host_of(&p, w), n1);
    p.resource_heartbeat(ALICE, n2, vec![w], 200).unwrap();
    p.on_initialize(400);
    assert_eq!(p.resources.len(), 1);
    assert_eq!(p.resources[0].index, n2);
    assert_eq!(host_of(&p, w), n2);
    assert_eq!(unused(&p, n2), (2, 2));
    assert_eq!(p.dapps[0].last_heartbeat, 400);
}

#[test]
fn offline_moves_workloads_to_the_remaining_node() {
    let mut p = Pallet::new();
    let n1 = p.register_resource(ALICE, b"n1".to_vec(), b"ip".to_vec(), 4, 4, 0);
    let n2 = p.register_resource(ALICE, b"n2".to_vec(), b"ip".to_vec(), 2, 2, 0);
    let w1 = request(&mut p, BOB, "w1", 2, 2, 0).unwrap();
    assert_eq!(host_of(&p, w1), n2);
    let w2 = request(&mut p, BOB, "w2", 2, 2, 0).unwrap();
    assert_eq!(host_of(&p, w2), n1);
    assert_eq!(p.offline_resource(ALICE, n2, 5), Ok(()));
    assert_eq!(host_of(&p, w1), n1);
    assert_eq!(unused(&p, n1), (0, 0));
    assert_eq!(node(&p, n1).dapps, vec![w1, w2]);
    assert_eq!(p.resources.len(), 1);
    assert_eq!(p.resource_rank, vec![(0, n1)]);
    assert_eq!(p.user_resources, vec![(ALICE, vec![n1])]);
}

#[test]
fn offline_reports_workloads_that_fit_nowhere() {
    let mut p = Pallet::new();
    let n1 = p.register_resource(ALICE, b"n1".to_vec(), b"ip".to_vec(), 4, 4, 0);
    let n2 = p.register_resource(ALICE, b"n2".to_vec(), b"ip".to_vec(), 2, 2, 0);
    let w1 = request(&mut p, BOB, "w1", 2, 2, 0).unwrap();
    let w2 = request(&mut p, BOB, "w2", 4, 4, 0).unwrap();
    assert_eq!((host_of(&p, w1), host_of(&p, w2)), (n2, n1));
    assert_eq!(p.offline_resource(ALICE, n2, 5), Ok(()));
    let d1 = p.dapps.iter().find(|d| d.dapp_index == w1).unwrap();
    assert_eq!(d1.status, DappStatus::Pause);
    assert!(matches!(p.events.last(), Some(Event::DAppRedistribution(names)) if names == &vec![b"w1".to_vec()]));
    assert_eq!(unused(&p, n1), (0, 0));
}

#[test]
fn offline_checks_index_and_owner() {
    let mut p = Pallet::new();
    let n = p.register_resource(ALICE, b"n".to_vec(), b"ip".to_vec(), 2, 2, 0);
    assert_eq!(p.offline_resource(ALICE, 42, 1), Err(Error::InvalidResourceIndex));
    assert_eq!(p.offline_resource(BOB, n, 1), Err(Error::ResourceNotOwnedByAccount));
    assert_eq!(p.resources.len(), 1);
    assert_eq!(p.offline_resource(ALICE, n, 1), Ok(()));
    assert!(p.resources.is_empty());
}

#[test]
fn ending_frees_the_name_for_a_new_request() {
    let mut p = Pallet::new();
    let n = p.register_resource(ALICE, b"n".to_vec(), b"ip".to_vec(), 2, 2, 0);
    let w = request(&mut p, BOB, "web", 2, 2, 0).unwrap();
    assert_eq!(unused(&p, n), (0, 0));
    assert_eq!(p.end_dapp_deployment(BOB, w), Ok(()));
    assert_eq!(unused(&p, n), (2, 2));
    assert!(node(&p, n).dapps.is_empty());
    assert!(matches!(p.events.last(), Some(Event::EndDAppSuccess(BOB, name, id)) if name == b"web" && *id == w));
    let again = request(&mut p, BOB, "web", 2, 2, 1).unwrap();
    assert_ne!(again, w);
    assert_eq!(host_of(&p, again), n);
}

#[test]
fn ending_checks_index_and_owner() {
    let mut p = Pallet::new();
    p.register_resource(ALICE, b"n".to_vec(), b"ip".to_vec(), 2, 2, 0);
    let w = request(&mut p, BOB, "web", 1, 1, 0).unwrap();
    assert_eq!(p.end_dapp_deployment(BOB, 99), Err(Error::InvalidDAppIndex));
    assert_eq!(p.end_dapp_deployment(ALICE, w), Err(Error::NotHaveDApp));
    assert_eq!(p.dapps.len(), 1);
    let mine = request(&mut p, ALICE, "web", 1, 1, 0).unwrap();
    assert_eq!(p.end_dapp_deployment(ALICE, w), Ok(()));
    assert!(p.dapps.iter().all(|d| d.dapp_index == mine));
    assert!(p.user_dapps.iter().any(|(o, names)| *o == ALICE && names.contains(&b"web".to_vec())));
    assert!(p.user_dapps.iter().all(|(o, names)| *o != BOB || names.is_empty()));
}

#[test]
fn dapp_heartbeat_errors_and_success() {
    let mut p = Pallet::new();
    p.register_resource(ALICE, b"n".to_vec(), b"ip".to_vec(), 2, 2, 0);
    assert_eq!(p.dapp_heartbeat(BOB, b"web".to_vec(), 5), Err(Error::NotHaveDApp));
    let w = request(&mut p, BOB, "web", 1, 1, 0).unwrap();
    assert_eq!(p.dapp_heartbeat(BOB, b"api".to_vec(), 5), Err(Error::InvalidDAppName));
    assert_eq!(p.dapp_heartbeat(BOB, b"web".to_vec(), 5), Ok(()));
    assert_eq!(p.dapps.iter().find(|d| d.dapp_index == w).unwrap().last_heartbeat, 5);
    assert!(matches!(p.events.last(), Some(Event::DAppHeartbeat(BOB, name)) if name == b"web"));
}

#[test]
fn change_specification_replaces_the_workload() {
    let mut p = Pallet::new();
    let n = p.register_resource(ALICE, b"peer".to_vec(), b"ip".to_vec(), 4, 4, 0);
    let w = request(&mut p, BOB, "web", 2, 2, 0).unwrap();
    let method = DeploymentMethod::Ipfs(b"QmNew".to_vec());
    assert_eq!(p.change_dapp_specification(BOB, method, b"web".to_vec(), 4, 4, 1, 1, 3), Ok(()));
    assert_eq!(p.dapps.len(), 1);
    let d = &p.dapps[0];
    assert_ne!(d.dapp_index, w);
    assert_eq!(d.resource_index, n);
    assert_eq!(unused(&p, n), (0, 0));
    assert_eq!(p.deployments.len(), 1);
    assert_eq!(p.user_dapps, vec![(BOB, vec![b"web".to_vec()])]);
    let n_events = p.events.len();
    assert!(matches!(&p.events[n_events - 2], Event::StopDApp(peer, id) if peer == b"peer" && *id == w));
    assert!(matches!(&p.events[n_events - 1], Event::DeploymentDApp(_, 4, 4, 2, cmd, _) if cmd == b"QmNew"));
}

#[test]
fn change_specification_failures_change_nothing() {
    let mut p = Pallet::new();
    let n = p.register_resource(ALICE, b"n".to_vec(), b"ip".to_vec(), 4, 4, 0);
    let w = request(&mut p, BOB, "web", 2, 2, 0).unwrap();
    assert_eq!(p.change_dapp_specification(ALICE, cli(), b"web".to_vec(), 1, 1, 1, 1, 0), Err(Error::NotHaveDApp));
    assert_eq!(p.change_dapp_specification(BOB, cli(), b"web".to_vec(), 5, 1, 1, 1, 0), Err(Error::InstantiateError));
    assert_eq!(p.dapps.len(), 1);
    assert_eq!(p.dapps[0].dapp_index, w);
    assert_eq!(unused(&p, n), (2, 2));
    assert_eq!(p.deployments.len(), 1);
}

#[test]
fn rank_stays_sorted_through_a_run_of_operations() {
    let mut p = Pallet::new();
    for i in 0..6u8 {
        p.register_resource(ALICE, vec![i], b"ip".to_vec(), 2 + i % 3, 1 + i % 4, 0);
        assert!(rank_is_sorted(&p));
    }
    let mut ids = Vec::new();
    for i in 0..8u8 {
        if let Ok(id) = request(&mut p, BOB, &format!("w{}", i), 1 + i % 2, 1, 0) {
            ids.push(id);
        }
        assert!(rank_is_sorted(&p));
    }
    p.end_dapp_deployment(BOB, ids[0]).unwrap();
    assert!(rank_is_sorted(&p));
    p.offline_resource(ALICE, 2, 1).unwrap();
    assert!(rank_is_sorted(&p));
    assert_eq!(p.resource_rank.len(), p.resources.len());
    for r in &p.resources {
        let score = r.config.unused_cpu as u64 + r.config.unused_memory as u64;
        assert!(p.resource_rank.contains(&(score, r.index)));
        assert!(r.config.unused_cpu <= r.config.total_cpu && r.config.unused_memory <= r.config.total_memory);
    }
}

fn online_workloads_are_bound(p: &Pallet) -> bool {
    p.dapps.iter().filter(|d| d.status == DappStatus::Online).all(|d| {
        p.resources.iter().any(|r| r.index == d.resource_index && r.dapps.contains(&d.dapp_index))
    })
}

fn names_are_consistent(p: &Pallet) -> bool {
    p.dapps.iter().enumerate().all(|(k, d)| {
        let listed = p.user_dapps.iter().any(|(w, names)| *w == d.account && names.contains(&d.dapp_name));
        let unique = p.dapps.iter().enumerate().all(|(j, e)| j == k || e.account != d.account || e.dapp_name != d.dapp_name);
        listed && unique
    })
}

#[test]
fn bindings_and_names_hold_through_a_run() {
    let mut p = Pallet::new();
    let n1 = p.register_resource(ALICE, b"n1".to_vec(), b"ip".to_vec(), 4, 4, 0);
    let n2 = p.register_resource(ALICE, b"n2".to_vec(), b"ip".to_vec(), 3, 3, 0);
    let _n3 = p.register_resource(BOB, b"n3".to_vec(), b"ip".to_vec(), 2, 2, 0);
    let a = request(&mut p, BOB, "a", 2, 2, 0).unwrap();
    let _b = request(&mut p, BOB, "b", 1, 1, 0).unwrap();
    let _c = request(&mut p, ALICE, "a", 3, 3, 0).unwrap();
    assert!(online_workloads_are_bound(&p) && names_are_consistent(&p));
    p.change_dapp_specification(BOB, cli(), b"a".to_vec(), 1, 1, 1, 1, 2).unwrap();
    assert!(online_workloads_are_bound(&p) && names_are_consistent(&p));
    assert!(p.dapps.iter().all(|d| d.dapp_index != a));
    p.offline_resource(ALICE, n2, 3).unwrap();
    assert!(online_workloads_are_bound(&p) && names_are_consistent(&p));
    p.resource_heartbeat(ALICE, n1, p.dapps.iter().map(|d| d.dapp_index).collect(), 250).unwrap();
    p.on_initialize(320);
    assert!(online_workloads_are_bound(&p) && names_are_consistent(&p));
    assert!(p.resources.iter().all(|r| r.index == n1));
}

#[test]
fn largest_node_ranks_without_overflow() {
    let mut p = Pallet::new();
    let n = p.register_resource(ALICE, b"big".to_vec(), b"ip".to_vec(), 255, 255, 0);
    assert_eq!(p.resource_rank, vec![(510, n)]);
    assert_eq!(request(&mut p, BOB, "all", 255, 255, 0), Ok(0));
    assert_eq!(unused(&p, n), (0, 0));
    assert_eq!(p.resource_rank, vec![(0, n)]);
    assert_eq!(request(&mut p, BOB, "none", 0, 0, 0), Ok(1));
    assert_eq!(request(&mut p, BOB, "more", 1, 0, 0), Err(Error::InstantiateError));
}

#[test]
fn owner_names_stay_sorted() {
    let mut p = Pallet::new();
    p.register_resource(ALICE, b"n".to_vec(), b"ip".to_vec(), 8, 8, 0);
    request(&mut p, BOB, "web", 1, 1, 0).unwrap();
    request(&mut p, BOB, "api", 1, 1, 0).unwrap();
    request(&mut p, BOB, "db", 1, 1, 0).unwrap();
    request(&mut p, BOB, "ap", 1, 1, 0).unwrap();
    assert_eq!(p.user_dapps, vec![(BOB, vec![b"ap".to_vec(), b"api".to_vec(), b"db".to_vec(), b"web".to_vec()])]);
    p.change_dapp_specification(BOB, cli(), b"api".to_vec(), 2, 2, 1, 1, 1).unwrap();
    assert_eq!(p.user_dapps, vec![(BOB, vec![b"ap".to_vec(), b"api".to_vec(), b"db".to_vec(), b"web".to_vec()])]);
}

#[test]
fn offline_with_broken_owner_index_changes_nothing() {
    let mut p = Pallet::new();
    let n = p.register_resource(ALICE, b"n".to_vec(), b"ip".to_vec(), 2, 2, 0);
    request(&mut p, BOB, "w", 1, 1, 0).unwrap();
    p.user_resources[0].1.clear();
    let events = p.events.len();
    assert_eq!(p.offline_resource(ALICE, n, 1), Err(Error::ClearDownlineResourceInformation));
    assert_eq!(p.resources.len(), 1);
    assert_eq!(p.resource_rank.len(), 1);
    assert_eq!(p.events.len(), events);
    assert_eq!(p.dapps[0].resource_index, n);
}

#[test]
fn redistribution_moves_a_workload_off_a_live_node() {
    let mut p = Pallet::new();
    let n1 = p.register_resource(ALICE, b"n1".to_vec(), b"ip".to_vec(), 4, 4, 0);
    let w = request(&mut p, BOB, "w", 2, 2, 0).unwrap();
    assert_eq!(host_of(&p, w), n1);
    let n2 = p.register_resource(ALICE, b"n2".to_vec(), b"ip2".to_vec(), 3, 3, 0);
    let failed = p.re_deal_dapps(&vec![w], 7);
    assert!(failed.is_empty());
    assert_eq!(host_of(&p, w), n2);
    assert_eq!(unused(&p, n1), (4, 4));
    assert_eq!(unused(&p, n2), (1, 1));
    assert!(node(&p, n1).dapps.is_empty());
    assert_eq!(node(&p, n2).dapps, vec![w]);
    assert!(matches!(p.events.last(), Some(Event::DeploymentDApp(peer, 2, 2, 1, _, id)) if peer == b"n2" && *id == w));
}

#[test]
fn redistribution_reports_what_fits_nowhere_even_on_a_live_node() {
    let mut p = Pallet::new();
    let n1 = p.register_resource(ALICE, b"n1".to_vec(), b"ip".to_vec(), 2, 2, 0);
    let w = request(&mut p, BOB, "w", 2, 2, 0).unwrap();
    p.deployments.clear();
    let failed = p.re_deal_dapps(&vec![w], 7);
    assert_eq!(failed, vec![b"w".to_vec()]);
    assert_eq!(p.dapps[0].status, DappStatus::Pause);
    assert!(node(&p, n1).dapps.is_empty());
}
