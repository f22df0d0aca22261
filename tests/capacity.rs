use hamster_provider::deployment::DeploymentMethod;
use hamster_provider::provider::{ResourceConfig, ResourceStatus};
use hamster_provider::rank::{rank_insert, rank_remove_id};
use hamster_provider::sorted::{sorted_insert, sorted_remove};
use hamster_provider::dapp::bytes_eq;

#[test]
fn new_config_is_all_free() {
    let c = ResourceConfig::new(4, 8);
    assert_eq!(c.total_cpu, 4);
    assert_eq!(c.total_memory, 8);
    assert_eq!(c.unused_cpu, 4);
    assert_eq!(c.unused_memory, 8);
}

#[test]
fn use_resource_reserves_when_both_fit() {
    let mut c = ResourceConfig::new(4, 4);
    assert!(c.use_resource(2, 3));
    assert_eq!((c.unused_cpu, c.unused_memory), (2, 1));
    assert!(c.use_resource(2, 1));
    assert_eq!((c.unused_cpu, c.unused_memory), (0, 0));
}

#[test]
fn use_resource_refuses_without_partial_reservation() {
    let mut c = ResourceConfig::new(4, 4);
    assert!(!c.use_resource(5, 1));
    assert_eq!((c.unused_cpu, c.unused_memory), (4, 4));
    assert!(!c.use_resource(1, 5));
    assert_eq!((c.unused_cpu, c.unused_memory), (4, 4));
}

#[test]
fn release_resource_returns_what_was_used() {
    let mut c = ResourceConfig::new(4, 4);
    assert!(c.use_resource(3, 2));
    assert!(c.release_resource(1, 2));
    assert_eq!((c.unused_cpu, c.unused_memory), (2, 4));
}

#[test]
fn release_resource_refuses_more_than_used() {
    let mut c = ResourceConfig::new(4, 4);
    assert!(!c.release_resource(1, 0));
    assert_eq!((c.unused_cpu, c.unused_memory), (4, 4));
    assert!(c.use_resource(2, 2));
    assert!(!c.release_resource(2, 3));
    assert_eq!((c.unused_cpu, c.unused_memory), (2, 2));
}

#[test]
fn capacity_stays_within_totals_at_the_largest_size() {
    let mut c = ResourceConfig::new(255, 255);
    assert!(c.use_resource(255, 255));
    assert_eq!((c.unused_cpu, c.unused_memory), (0, 0));
    assert!(c.release_resource(255, 255));
    assert_eq!((c.unused_cpu, c.unused_memory), (255, 255));
    assert!(!c.release_resource(1, 1));
}

#[test]
fn resource_status_defaults_to_online() {
    assert_eq!(ResourceStatus::default(), ResourceStatus::Online);
}

#[test]
fn method_kind_and_command() {
    let cli = DeploymentMethod::Cli(b"nginx:80".to_vec());
    let ipfs = DeploymentMethod::Ipfs(b"QmCid".to_vec());
    assert_eq!(cli.kind_and_command(), (1, b"nginx:80".to_vec()));
    assert_eq!(ipfs.kind_and_command(), (2, b"QmCid".to_vec()));
}

#[test]
fn sorted_set_insert_and_remove() {
    let mut v: Vec<u64> = Vec::new();
    assert!(sorted_insert(&mut v, 5));
    assert!(sorted_insert(&mut v, 1));
    assert!(sorted_insert(&mut v, 3));
    assert!(!sorted_insert(&mut v, 3));
    assert_eq!(v, vec![1, 3, 5]);
    assert!(sorted_remove(&mut v, 3));
    assert!(!sorted_remove(&mut v, 4));
    assert_eq!(v, vec![1, 5]);
}

#[test]
fn rank_orders_by_score_then_id() {
    let mut r: Vec<(u64, u64)> = Vec::new();
    assert!(rank_insert(&mut r, (6, 1)));
    assert!(rank_insert(&mut r, (4, 7)));
    assert!(rank_insert(&mut r, (4, 2)));
    assert!(rank_insert(&mut r, (0, 9)));
    assert!(!rank_insert(&mut r, (4, 2)));
    assert_eq!(r, vec![(0, 9), (4, 2), (4, 7), (6, 1)]);
    rank_remove_id(&mut r, 2);
    assert_eq!(r, vec![(0, 9), (4, 7), (6, 1)]);
    rank_remove_id(&mut r, 1);
    assert_eq!(r, vec![(0, 9), (4, 7)]);
}

#[test]
fn byte_names_compare_exactly() {
    assert!(bytes_eq(&b"web".to_vec(), &b"web".to_vec()));
    assert!(!bytes_eq(&b"web".to_vec(), &b"wet".to_vec()));
    assert!(!bytes_eq(&b"web".to_vec(), &b"web2".to_vec()));
    assert!(bytes_eq(&Vec::new(), &Vec::new()));
}
