use vstd::prelude::*;
use crate::dapp::{DAppInfo, DappStatus};
use crate::pallet::{Pallet, rank_entry, rank_matches, entry_le};
use crate::provider::{AccountId, BlockNumber, ComputingResource, ResourceConfig};
use crate::rank::{entry_lt, rank_insert, rank_remove_id};
use crate::sorted::strictly_sorted;

verus! {

/// `r` with `cpu` and `memory` taken from its free capacity.
pub open spec fn reserved(r: ComputingResource, cpu: u8, memory: u8) -> ComputingResource {
    ComputingResource {
        config: ResourceConfig {
            unused_cpu: (r.config.unused_cpu - cpu) as u8,
            unused_memory: (r.config.unused_memory - memory) as u8,
            ..r.config
        },
        ..r
    }
}

/// `after` is `before` with workload `did` bound to it; nothing else changed.
pub open spec fn bound(before: ComputingResource, after: ComputingResource, did: u64) -> bool {
    &&& after.index == before.index
    &&& after.account_id == before.account_id
    &&& after.peer_id == before.peer_id
    &&& after.public_ip == before.public_ip
    &&& after.config == before.config
    &&& after.status == before.status
    &&& after.last_heartbeat == before.last_heartbeat
    &&& forall|y: u64| #[trigger] after.dapps@.contains(y) <==> (before.dapps@.contains(y) || y == did)
}

/// `d` is the workload that a placement with these arguments creates.
pub open spec fn fresh_dapp(
    d: DAppInfo,
    id: u64,
    who: AccountId,
    name: Seq<u8>,
    method_index: u64,
    resource_index: u64,
    now: BlockNumber,
) -> bool {
    &&& d.dapp_index == id
    &&& d.account == who
    &&& d.dapp_name@ == name
    &&& d.method_index == method_index
    &&& d.resource_index == resource_index
    &&& d.status == DappStatus::Online
    &&& d.last_heartbeat == now
}

impl Pallet {
    /// Node `i` is the first in rank order among those that fit the request.
    pub open spec fn best_fit(&self, i: int, cpu: u8, memory: u8) -> bool {
        &&& 0 <= i < self.resources@.len()
        &&& self.resources@[i].config.fits(cpu, memory)
        &&& forall|k: int| 0 <= k < self.resources@.len() && (#[trigger] self.resources@[k]).config.fits(cpu, memory)
            ==> entry_le(rank_entry(self.resources@[i]), rank_entry(self.resources@[k]))
    }

    /// The rank entry at `j` is the current entry of the node it names.
    pub proof fn lemma_rank_entry_of(&self, j: int, p: int)
        requires
            self.wf(),
            0 <= j < self.resource_rank@.len(),
            self.node_at(self.resource_rank@[j].1, p),
        ensures
            self.resource_rank@[j] == rank_entry(self.resources@[p]),
    {
        let x = self.resource_rank@[j];
        assert(self.resource_rank@.contains(x));
        let q = choose|q: int| 0 <= q < self.resources@.len() && x == rank_entry(self.resources@[q]);
        if q < p {
            assert(self.resources@[q].index < self.resources@[p].index);
        } else if q > p {
            assert(self.resources@[p].index < self.resources@[q].index);
        }
    }

    /// Replaces the capacity of node `p`, moving its rank entry along.
    pub fn set_node_config(&mut self, p: usize, c: ResourceConfig)
        requires
            old(self).wf(),
            p < old(self).resources@.len(),
            c.wf(),
        ensures
            final(self).wf(),
            final(self).same_but_nodes(old(self)),
            final(self).resources@ == old(self).resources@.update(p as int, ComputingResource { config: c, ..old(self).resources@[p as int] }),
            old(self).bindings_ok() ==> final(self).bindings_ok(),
            old(self).names_ok() ==> final(self).names_ok(),
            old(self).owners_ok() ==> final(self).owners_ok(),
    {
        let ghost old_res = self.resources@;
        let ghost old_rank = self.resource_rank@;
        let id = self.resources[p].index;
        self.resources[p].config = c;
        assert(self.resources@ =~= old_res.update(p as int, ComputingResource { config: c, ..old_res[p as int] }));
        rank_remove_id(&mut self.resource_rank, id);
        let score: u64 = c.unused_cpu as u64 + c.unused_memory as u64;
        rank_insert(&mut self.resource_rank, (score, id));
        proof {
            let res = self.resources@;
            let rank = self.resource_rank@;
            assert(rank_entry(res[p as int]) == (score, id));
            assert forall|k: int| 0 <= k < res.len() implies (#[trigger] res[k]).config.wf() by {
                if k != p { assert(old_res[k].config.wf()); }
            }
            assert forall|k: int| 0 <= k < res.len() implies strictly_sorted((#[trigger] res[k]).dapps@) by {
                assert(strictly_sorted(old_res[k].dapps@));
            }
            assert forall|k: int| 0 <= k < res.len() implies rank.contains(#[trigger] rank_entry(res[k])) by {
                if k != p {
                    assert(res[k] == old_res[k]);
                    assert(old_rank.contains(rank_entry(old_res[k])));
                    if k < p {
                        assert(old_res[k].index < old_res[p as int].index);
                    } else {
                        assert(old_res[p as int].index < old_res[k].index);
                    }
                }
            }
            assert forall|x: (u64, u64)| #[trigger] rank.contains(x) implies exists|k: int| 0 <= k < res.len() && x == rank_entry(res[k]) by {
                if x != (score, id) {
                    assert(old_rank.contains(x) && x.1 != id);
                    let k = choose|k: int| 0 <= k < old_res.len() && x == rank_entry(old_res[k]);
                    assert(k != p);
                    assert(x == rank_entry(res[k]));
                }
            }
            assert(rank_matches(rank, res));
            if old(self).bindings_ok() {
                old(self).lemma_bindings_kept(self);
            }
            if old(self).names_ok() {
                old(self).lemma_names_kept(self);
            }
            if old(self).owners_ok() {
                old(self).lemma_owners_kept(self);
            }
        }
    }

    /// Picks the node with the least free capacity that fits the request,
    /// reserves the request on it and returns its id; `None` when no node fits.
    pub fn allocate_resource_node(&mut self, cpu: u8, memory: u8) -> (r: Option<u64>)
        requires
            old(self).wf(),
        ensures
            final(self).wf(),
            final(self).same_but_nodes(old(self)),
            r is None <==> !old(self).some_node_fits(cpu, memory),
            r is None ==> final(self).resources == old(self).resources
                && final(self).resource_rank == old(self).resource_rank,
            r matches Some(id) ==> ({
                let i = old(self).resource_pos(id);
                &&& old(self).node_at(id, i)
                &&& old(self).best_fit(i, cpu, memory)
                &&& final(self).resources@ == old(self).resources@.update(i, reserved(old(self).resources@[i], cpu, memory))
            }),
            old(self).bindings_ok() ==> final(self).bindings_ok(),
            old(self).names_ok() ==> final(self).names_ok(),
            old(self).owners_ok() ==> final(self).owners_ok(),
    {
        let mut j: usize = 0;
        while j < self.resource_rank.len()
            invariant
                self.wf(),
                *self == *old(self),
                j <= self.resource_rank@.len(),
                forall|k: int, i: int| 0 <= k < j && #[trigger] self.node_at(self.resource_rank@[k].1, i)
                    ==> !self.resources@[i].config.fits(cpu, memory),
            decreases self.resource_rank@.len() - j,
        {
            let id = self.resource_rank[j].1;
            if let Some(p) = self.find_resource(id) {
                if cpu <= self.resources[p].config.unused_cpu && memory <= self.resources[p].config.unused_memory {
                    proof {
                        self.lemma_resource_pos(id, p as int);
                        self.lemma_rank_entry_of(j as int, p as int);
                        let res = self.resources@;
                        let rank = self.resource_rank@;
                        assert forall|k: int| 0 <= k < res.len() && (#[trigger] res[k]).config.fits(cpu, memory)
                            implies entry_le(rank_entry(res[p as int]), rank_entry(res[k])) by {
                            assert(rank.contains(rank_entry(res[k])));
                            let m = choose|m: int| 0 <= m < rank.len() && rank[m] == rank_entry(res[k]);
                            assert(self.node_at(rank[m].1, k));
                            if m < j {
                            } else if m > j {
                                assert(entry_lt(rank[j as int], rank[m]));
                            }
                        }
                    }
                    let mut c = self.resources[p].config;
                    let ok = c.use_resource(cpu, memory);
                    self.set_node_config(p, c);
                    assert(self.resources@ =~= old(self).resources@.update(p as int, reserved(old(self).resources@[p as int], cpu, memory)));
                    return Some(id);
                }
            }
            j = j + 1;
        }
        proof {
            if self.some_node_fits(cpu, memory) {
                let i = choose|i: int| 0 <= i < self.resources@.len() && self.resources@[i].config.fits(cpu, memory);
                assert(self.resource_rank@.contains(rank_entry(self.resources@[i])));
                let m = choose|m: int| 0 <= m < self.resource_rank@.len() && self.resource_rank@[m] == rank_entry(self.resources@[i]);
                assert(self.node_at(self.resource_rank@[m].1, i));
            }
        }
        None
    }

    /// Places a new workload: picks a node as `allocate_resource_node` does,
    /// gives the workload the next id and binds it to that node.
    /// Returns `(node id, workload id)`, or `None` when no node fits.
    pub fn instantiate(
        &mut self,
        who: AccountId,
        dapp_name: Vec<u8>,
        deployment_index: u64,
        cpu: u8,
        memory: u8,
        now: BlockNumber,
    ) -> (r: Option<(u64, u64)>)
        requires
            old(self).wf(),
            old(self).dapp_index < u64::MAX,
        ensures
            final(self).wf(),
            r is None <==> !old(self).some_node_fits(cpu, memory),
            r is None ==> *final(self) == *old(self),
            r matches Some((rid, did)) ==> ({
                let i = old(self).resource_pos(rid);
                &&& old(self).node_at(rid, i)
                &&& old(self).best_fit(i, cpu, memory)
                &&& did == old(self).dapp_index
                &&& final(self).dapp_index == did + 1
                &&& final(self).resources@.len() == old(self).resources@.len()
                &&& forall|k: int| 0 <= k < old(self).resources@.len() && k != i
                    ==> (#[trigger] final(self).resources@[k]) == old(self).resources@[k]
                &&& bound(reserved(old(self).resources@[i], cpu, memory), final(self).resources@[i], did)
                &&& final(self).dapps@.len() == old(self).dapps@.len() + 1
                &&& final(self).dapps@.drop_last() == old(self).dapps@
                &&& fresh_dapp(final(self).dapps@.last(), did, who, dapp_name@, deployment_index, rid, now)
            }),
            final(self).resource_index == old(self).resource_index,
            final(self).user_resources == old(self).user_resources,
            final(self).deployment_index == old(self).deployment_index,
            final(self).deployments == old(self).deployments,
            final(self).user_dapps == old(self).user_dapps,
            final(self).events == old(self).events,
            old(self).bindings_ok() ==> final(self).bindings_ok(),
    {
        let rid = match self.allocate_resource_node(cpu, memory) {
            Some(rid) => rid,
            None => return None,
        };
        let ghost mid = self.resources@;
        let did = self.dapp_index;
        self.dapp_index = did + 1;
        let p = match self.find_resource(rid) {
            Some(p) => p,
            None => {
                proof {
                    let i = old(self).resource_pos(rid);
                    assert(self.node_at(rid, i));
                }
                return None;
            },
        };
        proof {
            self.lemma_resource_pos(rid, p as int);
            old(self).lemma_resource_pos(rid, p as int);
        }
        self.resources[p].add_dapp(did);
        proof {
                    crate::pallet::lemma_nodes_relisted(mid, self.resources@, self.resource_rank@, self.resource_index);
                }
        let ghost old_dapps = self.dapps@;
        let ghost bound_state = *self;
        let dapp = DAppInfo::new(did, who, dapp_name, deployment_index, rid, DappStatus::Online, now);
        self.dapps.push(dapp);
        assert(self.dapps@.drop_last() =~= old_dapps);
        proof {
            if old(self).bindings_ok() {
                assert forall|k: int| 0 <= k < self.dapps@.len() && (#[trigger] self.dapps@[k]).status == DappStatus::Online
                    implies self.bound_at(k) by {
                    if k < old_dapps.len() {
                        assert(old(self).dapps@[k] == self.dapps@[k]);
                        assert(old(self).bound_at(k));
                        old(self).lemma_bound_kept(self, k, k);
                    } else {
                        assert(self.node_at(rid, p as int));
                        self.lemma_resource_pos(rid, p as int);
                    }
                }
            }
        }
        Some((rid, did))
    }
}

} // verus!
