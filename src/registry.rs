use vstd::prelude::*;
use crate::pallet::{Pallet, Error, Event, rank_entry, rank_matches, key_at, keys_distinct, entry_of, lemma_entry_at, find_key};
use crate::dapp::DAppInfo;
use crate::provider::{AccountId, BlockNumber, ComputingResource, ResourceConfig, ResourceStatus};
use crate::rank::{rank_insert, entry_lt};
use crate::sorted::{strictly_sorted, sorted_insert};

verus! {

/// `r` is the node that a registration with these arguments creates.
pub open spec fn registered_node(
    r: ComputingResource,
    id: u64,
    who: AccountId,
    peer_id: Seq<u8>,
    public_ip: Seq<u8>,
    cpu: u8,
    memory: u8,
    now: BlockNumber,
) -> bool {
    &&& r.index == id
    &&& r.account_id == who
    &&& r.peer_id@ == peer_id
    &&& r.public_ip@ == public_ip
    &&& r.config == (ResourceConfig {
        total_cpu: cpu,
        total_memory: memory,
        unused_cpu: cpu,
        unused_memory: memory,
    })
    &&& r.dapps@.len() == 0
    &&& r.status == ResourceStatus::Online
    &&& r.last_heartbeat == now
}

impl Pallet {
    /// Adds `node` to the pool: to the node table, to the nodes of its owner
    /// and to the rank. Its id must lie at or above the next id, which moves
    /// past it.
    pub fn add_node(&mut self, node: ComputingResource)
        requires
            old(self).wf(),
            old(self).resource_index <= node.index < u64::MAX,
            node.config.wf(),
            strictly_sorted(node.dapps@),
        ensures
            final(self).wf(),
            final(self).resource_index == node.index + 1,
            final(self).resources@ == old(self).resources@.push(node),
            forall|x: (u64, u64)| #[trigger] final(self).resource_rank@.contains(x)
                <==> (old(self).resource_rank@.contains(x) || x == rank_entry(node)),
            exists|q: int| 0 <= q <= old(self).resource_rank@.len()
                && #[trigger] old(self).resource_rank@.insert(q, rank_entry(node)) == final(self).resource_rank@
                && (forall|k: int| 0 <= k < q ==> entry_lt(#[trigger] old(self).resource_rank@[k], rank_entry(node)))
                && (forall|k: int| q <= k < old(self).resource_rank@.len() ==> entry_lt(rank_entry(node), #[trigger] old(self).resource_rank@[k])),
            forall|y: u64| #[trigger] final(self).owned_resources(node.account_id).contains(y)
                <==> (old(self).owned_resources(node.account_id).contains(y) || y == node.index),
            forall|w: AccountId| w != node.account_id ==> final(self).owned_resources(w) == old(self).owned_resources(w),
            final(self).deployment_index == old(self).deployment_index,
            final(self).deployments == old(self).deployments,
            final(self).dapp_index == old(self).dapp_index,
            final(self).dapps == old(self).dapps,
            final(self).user_dapps == old(self).user_dapps,
            final(self).events == old(self).events,
            old(self).bindings_ok() ==> final(self).bindings_ok(),
            old(self).names_ok() ==> final(self).names_ok(),
            old(self).owners_ok() ==> final(self).owners_ok(),
    {
        let ghost s0 = *self;
        let id = node.index;
        let owner = node.account_id;
        let config = node.config;
        self.resource_index = id + 1;
        let ghost old_res = self.resources@;
        let ghost old_rank = self.resource_rank@;
        self.resources.push(node);
        assert(self.resources@.drop_last() =~= old_res);

        let ghost old_owners = self.user_resources@;
        match find_key(&self.user_resources, owner) {
            Some(p) => {
                sorted_insert(&mut self.user_resources[p].1, id);
                proof {
                    let s = self.user_resources@;
                    assert forall|i: int| 0 <= i < s.len() implies strictly_sorted((#[trigger] s[i]).1@) by {
                        if i != p {
                            assert(s[i] == old_owners[i]);
                        }
                    }
                    assert(keys_distinct(s)) by {
                        assert forall|i: int, j: int| 0 <= i < s.len() && 0 <= j < s.len() && i != j implies s[i].0 != s[j].0 by {
                            assert(s[i].0 == old_owners[i].0);
                            assert(s[j].0 == old_owners[j].0);
                        }
                    }
                    lemma_entry_at(s, owner, p as int);
                    lemma_entry_at(old_owners, owner, p as int);
                    assert forall|w: AccountId| w != owner implies entry_of(s, w) == entry_of(old_owners, w) by {
                        if exists|i: int| key_at(old_owners, w, i) {
                            let q = choose|i: int| key_at(old_owners, w, i);
                            lemma_entry_at(old_owners, w, q);
                            assert(key_at(s, w, q));
                            lemma_entry_at(s, w, q);
                        } else {
                            assert forall|i: int| !key_at(s, w, i) by {
                                if key_at(s, w, i) {
                                    assert(key_at(old_owners, w, i));
                                }
                            }
                        }
                    }
                }
            },
            None => {
                let mut ids: Vec<u64> = Vec::new();
                ids.push(id);
                self.user_resources.push((owner, ids));
                proof {
                    let s = self.user_resources@;
                    let n = old_owners.len() as int;
                    assert(key_at(s, owner, n));
                    lemma_entry_at(s, owner, n);
                    assert(s[n].1@ =~= seq![id]);
                    assert forall|y: u64| s[n].1@.contains(y) <==> y == id by {
                        if y == id {
                            assert(s[n].1@[0] == id);
                        }
                    }
                    assert(entry_of(old_owners, owner) is None);
                    assert forall|w: AccountId| w != owner implies entry_of(s, w) == entry_of(old_owners, w) by {
                        if exists|i: int| key_at(old_owners, w, i) {
                            let q = choose|i: int| key_at(old_owners, w, i);
                            lemma_entry_at(old_owners, w, q);
                            assert(key_at(s, w, q));
                            lemma_entry_at(s, w, q);
                        } else {
                            assert forall|i: int| !key_at(s, w, i) by {
                                if key_at(s, w, i) {
                                    assert(i != n);
                                    assert(key_at(old_owners, w, i));
                                }
                            }
                        }
                    }
                    assert forall|i: int| 0 <= i < s.len() implies strictly_sorted((#[trigger] s[i]).1@) by {
                        if i != n {
                            assert(s[i] == old_owners[i]);
                        }
                    }
                }
            },
        }

        let score: u64 = config.unused_cpu as u64 + config.unused_memory as u64;
        rank_insert(&mut self.resource_rank, (score, id));
        proof {
            let res = self.resources@;
            let rank = self.resource_rank@;
            assert(rank_entry(res[old_res.len() as int]) == (score, id));
            assert forall|i: int| 0 <= i < res.len() implies rank.contains(#[trigger] rank_entry(res[i])) by {
                if i < old_res.len() {
                    assert(res[i] == old_res[i]);
                    assert(old_rank.contains(rank_entry(old_res[i])));
                }
            }
            assert forall|x: (u64, u64)| #[trigger] rank.contains(x) implies exists|i: int| 0 <= i < res.len() && x == rank_entry(res[i]) by {
                if old_rank.contains(x) {
                    let i = choose|i: int| 0 <= i < old_res.len() && x == rank_entry(old_res[i]);
                    assert(res[i] == old_res[i]);
                } else {
                    assert(x == rank_entry(res[old_res.len() as int]));
                }
            }
            assert(rank_matches(rank, res));
        }
        proof {
            if s0.bindings_ok() {
                s0.lemma_bindings_kept(self);
            }
            if s0.names_ok() {
                s0.lemma_names_kept(self);
            }
            if s0.owners_ok() {
                assert(self.resources@ == s0.resources@.push(node));
                s0.lemma_added_owners(self, node);
            }
        }
    }

    /// Registers a node of `who` with all of its capacity free; returns its id.
    pub fn register_resource(
        &mut self,
        who: AccountId,
        peer_id: Vec<u8>,
        public_ip: Vec<u8>,
        cpu: u8,
        memory: u8,
        now: BlockNumber,
    ) -> (id: u64)
        requires
            old(self).wf(),
            old(self).resource_index < u64::MAX,
        ensures
            final(self).wf(),
            id == old(self).resource_index,
            final(self).resource_index == id + 1,
            final(self).resources@.len() == old(self).resources@.len() + 1,
            final(self).resources@.drop_last() == old(self).resources@,
            registered_node(final(self).resources@.last(), id, who, peer_id@, public_ip@, cpu, memory, now),
            forall|x: (u64, u64)| #[trigger] final(self).resource_rank@.contains(x)
                <==> (old(self).resource_rank@.contains(x) || x == ((cpu + memory) as u64, id)),
            exists|q: int| 0 <= q <= old(self).resource_rank@.len()
                && #[trigger] old(self).resource_rank@.insert(q, ((cpu + memory) as u64, id)) == final(self).resource_rank@
                && (forall|k: int| 0 <= k < q ==> entry_lt(#[trigger] old(self).resource_rank@[k], ((cpu + memory) as u64, id)))
                && (forall|k: int| q <= k < old(self).resource_rank@.len() ==> entry_lt(((cpu + memory) as u64, id), #[trigger] old(self).resource_rank@[k])),
            forall|y: u64| #[trigger] final(self).owned_resources(who).contains(y)
                <==> (old(self).owned_resources(who).contains(y) || y == id),
            forall|w: AccountId| w != who ==> final(self).owned_resources(w) == old(self).owned_resources(w),
            final(self).deployment_index == old(self).deployment_index,
            final(self).deployments == old(self).deployments,
            final(self).dapp_index == old(self).dapp_index,
            final(self).dapps == old(self).dapps,
            final(self).user_dapps == old(self).user_dapps,
            final(self).events@ == old(self).events@.push(Event::RegisterResourceSuccess(who, id, cpu, memory)),
            old(self).bindings_ok() ==> final(self).bindings_ok(),
            old(self).names_ok() ==> final(self).names_ok(),
            old(self).owners_ok() ==> final(self).owners_ok(),
    {
        let id = self.resource_index;
        let config = ResourceConfig::new(cpu, memory);
        let node = ComputingResource::new(id, who, peer_id, public_ip, config, Vec::new(), ResourceStatus::Online, now);
        assert(strictly_sorted(node.dapps@));
        let ghost old_res = self.resources@;
        self.add_node(node);
        assert(self.resources@.drop_last() =~= old_res);
        let ghost added = *self;
        self.events.push(Event::RegisterResourceSuccess(who, id, cpu, memory));
        assert(forall|w: AccountId| #[trigger] self.owned_resources(w) == added.owned_resources(w));
        proof {
            if added.bindings_ok() {
                added.lemma_bindings_kept(self);
            }
            if added.names_ok() {
                added.lemma_names_kept(self);
            }
            if added.owners_ok() {
                added.lemma_owners_kept(self);
            }
        }
        id
    }

    /// Records a heartbeat of node `id` and of the listed workloads at `now`.
    pub fn resource_heartbeat(
        &mut self,
        who: AccountId,
        resource_index: u64,
        dapps: Vec<u64>,
        now: BlockNumber,
    ) -> (r: Result<(), Error>)
        requires
            old(self).wf(),
        ensures
            final(self).wf(),
            !old(self).has_node(resource_index) ==> r == Err::<(), Error>(Error::InvalidResourceIndex),
            old(self).has_node(resource_index) && old(self).resources@[old(self).resource_pos(resource_index)].account_id != who
                ==> r == Err::<(), Error>(Error::ResourceNotOwnedByAccount),
            r is Err ==> *final(self) == *old(self),
            r is Ok <==> (old(self).has_node(resource_index)
                && old(self).resources@[old(self).resource_pos(resource_index)].account_id == who),
            r is Ok ==> ({
                let i = old(self).resource_pos(resource_index);
                &&& final(self).resources@ == old(self).resources@.update(i, ComputingResource { last_heartbeat: now, ..old(self).resources@[i] })
                &&& final(self).dapps@.len() == old(self).dapps@.len()
                &&& forall|k: int| 0 <= k < old(self).dapps@.len() ==> (#[trigger] final(self).dapps@[k]) == (
                    if dapps@.contains(old(self).dapps@[k].dapp_index) {
                        DAppInfo { last_heartbeat: now, ..old(self).dapps@[k] }
                    } else {
                        old(self).dapps@[k]
                    })
                &&& final(self).events@.len() == old(self).events@.len() + 1
                &&& final(self).events@.drop_last() == old(self).events@
                &&& match final(self).events@.last() {
                    Event::ResourceHeartbeat(p, d) => p@ == old(self).resources@[i].peer_id@ && d@ == dapps@,
                    _ => false,
                }
            }),
            final(self).resource_index == old(self).resource_index,
            final(self).resource_rank == old(self).resource_rank,
            final(self).user_resources == old(self).user_resources,
            final(self).deployment_index == old(self).deployment_index,
            final(self).deployments == old(self).deployments,
            final(self).dapp_index == old(self).dapp_index,
            final(self).user_dapps == old(self).user_dapps,
            old(self).bindings_ok() ==> final(self).bindings_ok(),
            old(self).names_ok() ==> final(self).names_ok(),
            old(self).owners_ok() ==> final(self).owners_ok(),
    {
        let ghost s0 = *self;
        let i = match self.find_resource(resource_index) {
            Some(i) => i,
            None => return Err(Error::InvalidResourceIndex),
        };
        proof { self.lemma_resource_pos(resource_index, i as int); }
        if self.resources[i].account_id != who {
            return Err(Error::ResourceNotOwnedByAccount);
        }
        let ghost old_res = self.resources@;
        self.resources[i].last_heartbeat = now;
        proof {
            assert(self.resources@ =~= old_res.update(i as int, ComputingResource { last_heartbeat: now, ..old_res[i as int] }));
            crate::pallet::lemma_nodes_relisted(old_res, self.resources@, self.resource_rank@, self.resource_index);
        }
        self.update_dapp_heartbeat_time(&dapps, now);
        let peer = self.resources[i].peer_id.clone();
        self.events.push(Event::ResourceHeartbeat(peer, dapps));
        proof {
            if s0.bindings_ok() {
                s0.lemma_bindings_kept(self);
            }
            if s0.names_ok() {
                s0.lemma_names_kept(self);
            }
            if s0.owners_ok() {
                s0.lemma_owners_kept(self);
            }
        }
        Ok(())
    }

    /// Sets the heartbeat of every listed workload that exists to `now`.
    pub fn update_dapp_heartbeat_time(&mut self, ids: &Vec<u64>, now: BlockNumber)
        requires
            old(self).wf(),
        ensures
            final(self).wf(),
            final(self).dapps@.len() == old(self).dapps@.len(),
            forall|k: int| 0 <= k < old(self).dapps@.len() ==> (#[trigger] final(self).dapps@[k]) == (
                if ids@.contains(old(self).dapps@[k].dapp_index) {
                    DAppInfo { last_heartbeat: now, ..old(self).dapps@[k] }
                } else {
                    old(self).dapps@[k]
                }),
            final(self).resource_index == old(self).resource_index,
            final(self).resources == old(self).resources,
            final(self).resource_rank == old(self).resource_rank,
            final(self).user_resources == old(self).user_resources,
            final(self).deployment_index == old(self).deployment_index,
            final(self).deployments == old(self).deployments,
            final(self).dapp_index == old(self).dapp_index,
            final(self).user_dapps == old(self).user_dapps,
            final(self).events == old(self).events,
            old(self).bindings_ok() ==> final(self).bindings_ok(),
            old(self).names_ok() ==> final(self).names_ok(),
            old(self).owners_ok() ==> final(self).owners_ok(),
    {
        let ghost old_dapps = self.dapps@;
        let mut k: usize = 0;
        while k < self.dapps.len()
            invariant
                self.wf(),
                k <= self.dapps@.len(),
                self.dapps@.len() == old_dapps.len(),
                forall|j: int| 0 <= j < old_dapps.len() ==> (#[trigger] self.dapps@[j]) == (
                    if j < k && ids@.contains(old_dapps[j].dapp_index) {
                        DAppInfo { last_heartbeat: now, ..old_dapps[j] }
                    } else {
                        old_dapps[j]
                    }),
                self.resource_index == old(self).resource_index,
                self.resources == old(self).resources,
                self.resource_rank == old(self).resource_rank,
                self.user_resources == old(self).user_resources,
                self.deployment_index == old(self).deployment_index,
                self.deployments == old(self).deployments,
                self.dapp_index == old(self).dapp_index,
                self.user_dapps == old(self).user_dapps,
                self.events == old(self).events,
            decreases old_dapps.len() - k,
        {
            let id = self.dapps[k].dapp_index;
            if contains_id(ids, id) {
                self.dapps[k].last_heartbeat = now;
            }
            k = k + 1;
        }
        proof {
            if old(self).bindings_ok() {
                old(self).lemma_bindings_kept(self);
            }
            if old(self).names_ok() {
                old(self).lemma_names_kept(self);
            }
            if old(self).owners_ok() {
                old(self).lemma_owners_kept(self);
            }
        }
    }
}

/// Whether `id` is among `ids`.
pub fn contains_id(ids: &Vec<u64>, id: u64) -> (r: bool)
    ensures
        r == ids@.contains(id),
{
    let mut i: usize = 0;
    while i < ids.len()
        invariant
            i <= ids@.len(),
            forall|j: int| 0 <= j < i ==> ids@[j] != id,
        decreases ids@.len() - i,
    {
        if ids[i] == id {
            assert(ids@[i as int] == id);
            return true;
        }
        i = i + 1;
    }
    false
}

} // verus!
