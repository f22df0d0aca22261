use vstd::prelude::*;
use crate::dapp::{DappStatus, bytes_lt};
use crate::deployment::DeploymentMethod;
use crate::pallet::{Pallet, rank_entry, names_distinct, names_view, lemma_entry_at, key_at, entry_of};
use crate::provider::{AccountId, BlockNumber};
use crate::rank::entry_lt;

verus! {

/// In every well-formed pool, and so after every registration, allocation
/// and release that the operations perform, no node has more free capacity
/// than it has in total.
pub proof fn capacity_within_totals(p: &Pallet)
    requires
        p.wf(),
    ensures
        forall|i: int| 0 <= i < p.resources@.len() ==> {
            &&& (#[trigger] p.resources@[i]).config.unused_cpu <= p.resources@[i].config.total_cpu
            &&& p.resources@[i].config.unused_memory <= p.resources@[i].config.total_memory
        },
{
    assert forall|i: int| 0 <= i < p.resources@.len() implies {
        &&& (#[trigger] p.resources@[i]).config.unused_cpu <= p.resources@[i].config.total_cpu
        &&& p.resources@[i].config.unused_memory <= p.resources@[i].config.total_memory
    } by {
        assert(p.resources@[i].config.wf());
    }
}

/// In every well-formed pool the rank is strictly ascending by
/// `(score, id)` and holds each node's current entry exactly once.
pub proof fn rank_sorted_and_current(p: &Pallet)
    requires
        p.wf(),
    ensures
        forall|a: int, b: int| 0 <= a < b < p.resource_rank@.len()
            ==> entry_lt(p.resource_rank@[a], p.resource_rank@[b]),
        forall|i: int| 0 <= i < p.resources@.len() ==> p.resource_rank@.contains(#[trigger] rank_entry(p.resources@[i])),
        forall|x: (u64, u64)| #[trigger] p.resource_rank@.contains(x) ==> exists|i: int| 0 <= i < p.resources@.len()
            && x == rank_entry(p.resources@[i]),
        p.resource_rank@.no_duplicates(),
{
    assert forall|a: int, b: int| 0 <= a < p.resource_rank@.len() && 0 <= b < p.resource_rank@.len() && a != b
        implies p.resource_rank@[a] != p.resource_rank@[b] by {
        if a < b {
            assert(entry_lt(p.resource_rank@[a], p.resource_rank@[b]));
        } else {
            assert(entry_lt(p.resource_rank@[b], p.resource_rank@[a]));
        }
    }
}

/// An empty pool fits no request, so allocating against it fails.
pub proof fn empty_pool_fits_nothing(p: &Pallet, cpu: u8, memory: u8)
    requires
        p.resources@.len() == 0,
    ensures
        !p.some_node_fits(cpu, memory),
{
}

/// The names of one owner's workloads are pairwise different.
pub proof fn names_unique_per_owner(p: &Pallet, who: AccountId)
    requires
        p.wf(),
    ensures
        p.owned_names(who).no_duplicates(),
{
    if exists|i: int| key_at(p.user_dapps@, who, i) {
        let i = choose|i: int| key_at(p.user_dapps@, who, i);
        lemma_entry_at(p.user_dapps@, who, i);
        let v = p.user_dapps@[i].1@;
        assert(names_distinct(v));
        assert forall|a: int, b: int| 0 <= a < names_view(v).len() && 0 <= b < names_view(v).len() && a != b
            implies names_view(v)[a] != names_view(v)[b] by {
            assert(names_view(v)[a] == v[a]@);
            assert(names_view(v)[b] == v[b]@);
        }
    }
}

/// Where the names invariant holds (as every operation keeps it), no owner
/// has two live workloads of one name, and each live workload's name is
/// among its owner's names.
pub proof fn workload_names_unique(p: &Pallet, k: int, j: int)
    requires
        p.names_ok(),
        0 <= k < p.dapps@.len(),
        0 <= j < p.dapps@.len(),
        k != j,
        p.dapps@[k].account == p.dapps@[j].account,
    ensures
        p.dapps@[k].dapp_name@ != p.dapps@[j].dapp_name@,
        p.owned_names(p.dapps@[k].account).contains(p.dapps@[k].dapp_name@),
{
}

/// A placement for `who` takes a name only for `who`: any other owner that
/// did not hold the name before does not hold it after, so the same name
/// stays free for that owner.
pub proof fn name_taken_only_for_owner(
    before: &Pallet,
    after: &Pallet,
    did: u64,
    who: AccountId,
    method: DeploymentMethod,
    name: Seq<u8>,
    cpu: u8,
    memory: u8,
    replicas: u8,
    available: u8,
    now: BlockNumber,
    other: AccountId,
)
    requires
        before.placed(after, did, who, method, name, cpu, memory, replicas, available, now),
        other != who,
        !before.owned_names(other).contains(name),
    ensures
        !after.owned_names(other).contains(name),
        after.owned_names(who).contains(name),
{
    assert(after.owned_names(other) == before.owned_names(other));
    let q = choose|q: int| 0 <= q <= before.owned_names(who).len()
        && #[trigger] before.owned_names(who).insert(q, name) == after.owned_names(who)
        && (forall|k: int| 0 <= k < q ==> bytes_lt(#[trigger] before.owned_names(who)[k], name))
        && (forall|k: int| q <= k < before.owned_names(who).len() ==> bytes_lt(name, #[trigger] before.owned_names(who)[k]));
    assert(after.owned_names(who)[q] == name);
}

/// Ending a workload frees its name for its owner, so a new request with
/// the same name is refused only for want of capacity. When the workload's
/// node had its shape in use, that shape is free there again, so a request
/// of the same shape fits as well.
pub proof fn end_frees_name(before: &Pallet, after: &Pallet, did: u64, who: AccountId)
    requires
        before.wf(),
        before.has_dapp(did),
        before.holds_dapp_name(who, did),
        before.dapps@[before.dapp_pos(did)].account == who,
        before.torn_down(after, before.dapp_pos(did)),
    ensures
        !after.owned_names(who).contains(before.dapps@[before.dapp_pos(did)].dapp_name@),
        ({
            let d = before.dapps@[before.dapp_pos(did)];
            let node = before.resources@[before.resource_pos(d.resource_index)];
            match entry_of(before.deployments@, d.method_index) {
                Some(dep) => before.has_node(d.resource_index)
                    && dep.cpu <= node.config.used_cpu() && dep.memory <= node.config.used_memory()
                    ==> after.some_node_fits(dep.cpu, dep.memory),
                None => true,
            }
        }),
{
    let d = before.dapps@[before.dapp_pos(did)];
    let i = before.resource_pos(d.resource_index);
    match entry_of(before.deployments@, d.method_index) {
        Some(dep) => {
            if before.has_node(d.resource_index)
                && dep.cpu <= before.resources@[i].config.used_cpu()
                && dep.memory <= before.resources@[i].config.used_memory() {
                assert(before.node_at(d.resource_index, i));
                assert(after.resources@[i].config.fits(dep.cpu, dep.memory));
            }
        },
        None => {},
    }
}

/// Taking a node offline places again or reports every online workload
/// that was on it: each ends online on an existing node that lists it, with
/// a fresh heartbeat, or paused with its name among those reported.
pub proof fn offline_replaces_every_workload(
    before: &Pallet,
    mid: &Pallet,
    after: &Pallet,
    rid: u64,
    who: AccountId,
    failed: Seq<Seq<u8>>,
    now: BlockNumber,
    k: int,
)
    requires
        before.wf(),
        before.bindings_ok(),
        before.has_node(rid),
        before.taken_offline(mid, after, rid, who, failed, now),
        0 <= k < before.dapps@.len(),
        before.dapps@[k].status == DappStatus::Online,
        before.dapps@[k].resource_index == rid,
    ensures
        after.dapps@[k].dapp_index == before.dapps@[k].dapp_index,
        (after.dapps@[k].status == DappStatus::Online && after.bound_at(k) && after.dapps@[k].last_heartbeat == now)
            || (after.dapps@[k].status == DappStatus::Pause && failed.contains(before.dapps@[k].dapp_name@)),
{
    let pos = before.resource_pos(rid);
    assert(before.node_at(rid, pos));
    assert(before.bound_at(k));
    assert(mid.dapps == before.dapps);
    assert forall|q: int| !mid.node_at(rid, q) by {
        if mid.node_at(rid, q) {
            let q2 = if q < pos { q } else { q + 1 };
            assert(mid.resources@[q] == before.resources@[q2]);
            if q2 < pos {
                assert(before.resources@[q2].index < before.resources@[pos].index);
            } else {
                assert(before.resources@[pos].index < before.resources@[q2].index);
            }
        }
    }
    assert(mid.redistributed(after, k, before.resources@[pos].dapps@, failed, now));
}


/// After a placement under a name its owner did not hold, looking the owner
/// and name up finds exactly the new workload (the last one).
pub proof fn lookup_finds_placed_workload(
    before: &Pallet,
    after: &Pallet,
    did: u64,
    who: AccountId,
    method: DeploymentMethod,
    name: Seq<u8>,
    cpu: u8,
    memory: u8,
    replicas: u8,
    available: u8,
    now: BlockNumber,
)
    requires
        before.names_ok(),
        !before.owned_names(who).contains(name),
        before.placed(after, did, who, method, name, cpu, memory, replicas, available, now),
    ensures
        after.first_named(who, name, after.dapps@.len() - 1),
        forall|j: int| #[trigger] after.named_at(who, name, j) <==> j == after.dapps@.len() - 1,
        after.dapps@[after.dapps@.len() - 1].dapp_index == did,
{
    let n = before.dapps@.len() as int;
    assert forall|j: int| #[trigger] after.named_at(who, name, j) <==> j == n by {
        if after.named_at(who, name, j) && j < n {
            assert(after.dapps@[j] == before.dapps@[j]);
            assert(before.owned_names(before.dapps@[j].account).contains(before.dapps@[j].dapp_name@));
        }
    }
}


/// A placement for `who` leaves every other owner's names and every
/// existing workload as they were, so another owner's workload of the same
/// name is untouched.
pub proof fn placement_keeps_other_owners(
    before: &Pallet,
    after: &Pallet,
    did: u64,
    who: AccountId,
    method: DeploymentMethod,
    name: Seq<u8>,
    cpu: u8,
    memory: u8,
    replicas: u8,
    available: u8,
    now: BlockNumber,
    other: AccountId,
)
    requires
        before.placed(after, did, who, method, name, cpu, memory, replicas, available, now),
        other != who,
    ensures
        after.owned_names(other) == before.owned_names(other),
        forall|k: int| 0 <= k < before.dapps@.len() ==> #[trigger] after.dapps@[k] == before.dapps@[k],
{
    assert forall|k: int| 0 <= k < before.dapps@.len() implies #[trigger] after.dapps@[k] == before.dapps@[k] by {
        assert(after.dapps@.drop_last()[k] == after.dapps@[k]);
    }
}

} // verus!
