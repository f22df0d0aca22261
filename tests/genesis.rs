use hamster_provider::genesis::GenesisConfig;
use hamster_provider::provider::{ComputingResource, ResourceConfig, ResourceStatus};

const ALICE: u64 = 1;

fn seed_node(index: u64, owner: u64, cpu: u8, memory: u8) -> ComputingResource {
    ComputingResource::new(index, owner, vec![index as u8], b"ip".to_vec(), ResourceConfig::new(cpu, memory),
        Vec::new(), ResourceStatus::Online, 0)
}

#[test]
fn genesis_default_builds_an_empty_pool() {
    let p = GenesisConfig::default().build().expect("valid");
    assert!(p.resources.is_empty());
    assert_eq!(p.resource_index, 0);
}

#[test]
fn genesis_seeds_nodes_rank_and_owners() {
    let g = GenesisConfig {
        resource: vec![(2, seed_node(2, ALICE, 4, 4)), (5, seed_node(5, 7, 1, 2))],
        resource_index: 9,
    };
    let mut p = g.build().expect("valid");
    assert_eq!(p.resource_index, 9);
    assert_eq!(p.resources.len(), 2);
    assert_eq!(p.resource_rank, vec![(3, 5), (8, 2)]);
    assert_eq!(p.user_resources, vec![(ALICE, vec![2]), (7, vec![5])]);
    assert_eq!(p.register_resource(ALICE, b"n".to_vec(), b"ip".to_vec(), 1, 1, 0), 9);
    assert_eq!(p.allocate_resource_node(1, 2), Some(5));
}

#[test]
fn genesis_refuses_inconsistent_seeds() {
    let key_mismatch = GenesisConfig { resource: vec![(1, seed_node(2, ALICE, 1, 1))], resource_index: 5 };
    assert!(key_mismatch.build().is_none());
    let descending = GenesisConfig {
        resource: vec![(3, seed_node(3, ALICE, 1, 1)), (1, seed_node(1, ALICE, 1, 1))],
        resource_index: 5,
    };
    assert!(descending.build().is_none());
    let next_too_low = GenesisConfig { resource: vec![(3, seed_node(3, ALICE, 1, 1))], resource_index: 3 };
    assert!(next_too_low.build().is_none());
    let mut bound = seed_node(0, ALICE, 1, 1);
    bound.dapps.push(4);
    let with_workload = GenesisConfig { resource: vec![(0, bound)], resource_index: 1 };
    assert!(with_workload.build().is_none());
    let mut over = seed_node(0, ALICE, 1, 1);
    over.config.unused_cpu = 2;
    let over_free = GenesisConfig { resource: vec![(0, over)], resource_index: 1 };
    assert!(over_free.build().is_none());
}
