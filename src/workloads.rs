use vstd::prelude::*;
use crate::dapp::{DAppInfo, bytes_eq};
use crate::deployment::DeploymentMethod;
use crate::lifecycle::{is_end, released_config};
use crate::pallet::{Pallet, Error, Event, entry_of, find_key, lemma_ascending_distinct, lemma_entry_at};
use crate::provider::{AccountId, BlockNumber, ResourceConfig};

verus! {

/// `e` announces that workload `did` stops on the node with `peer`.
pub open spec fn is_stop(e: Event, peer: Seq<u8>, did: u64) -> bool {
    match e {
        Event::StopDApp(p, d) => p@ == peer && d == did,
        _ => false,
    }
}

impl Pallet {
    /// Workload at position `i` belongs to `who` and is named `name`.
    pub open spec fn named_at(&self, who: AccountId, name: Seq<u8>, i: int) -> bool {
        0 <= i < self.dapps@.len() && self.dapps@[i].account == who && self.dapps@[i].dapp_name@ == name
    }

    /// Position `i` is the first workload of `who` named `name`.
    pub open spec fn first_named(&self, who: AccountId, name: Seq<u8>, i: int) -> bool {
        self.named_at(who, name, i) && forall|j: int| 0 <= j < i ==> !self.named_at(who, name, j)
    }

    /// The first workload of `who` named `name`.
    pub fn find_dapp_by_name(&self, who: AccountId, name: &Vec<u8>) -> (r: Option<usize>)
        ensures
            match r {
                Some(i) => self.first_named(who, name@, i as int),
                None => forall|j: int| !self.named_at(who, name@, j),
            },
    {
        let mut i: usize = 0;
        while i < self.dapps.len()
            invariant
                i <= self.dapps@.len(),
                forall|j: int| 0 <= j < i ==> !self.named_at(who, name@, j),
            decreases self.dapps@.len() - i,
        {
            if self.dapps[i].account == who && bytes_eq(&self.dapps[i].dapp_name, name) {
                return Some(i);
            }
            i = i + 1;
        }
        None
    }

    /// Ends workload `dapp_index` on behalf of `who`, who must hold its name:
    /// tears it down (its name leaves its owner's names) and announces it.
    pub fn end_dapp_deployment(&mut self, who: AccountId, dapp_index: u64) -> (r: Result<(), Error>)
        requires
            old(self).wf(),
        ensures
            final(self).wf(),
            !old(self).has_dapp(dapp_index) ==> r == Err::<(), Error>(Error::InvalidDAppIndex),
            old(self).has_dapp(dapp_index) && !old(self).holds_dapp_name(who, dapp_index)
                ==> r == Err::<(), Error>(Error::NotHaveDApp),
            r is Ok <==> old(self).has_dapp(dapp_index) && old(self).holds_dapp_name(who, dapp_index),
            r is Err ==> *final(self) == *old(self),
            r is Ok ==> ({
                let pos = old(self).dapp_pos(dapp_index);
                &&& old(self).torn_down(final(self), pos)
                &&& !final(self).has_dapp(dapp_index)
                &&& !final(self).owned_names(old(self).dapps@[pos].account).contains(old(self).dapps@[pos].dapp_name@)
                &&& final(self).events@.len() == old(self).events@.len() + 1
                &&& final(self).events@.drop_last() == old(self).events@
                &&& is_end(final(self).events@.last(), who, old(self).dapps@[pos].dapp_name@, dapp_index)
            }),
            old(self).bindings_ok() ==> final(self).bindings_ok(),
            old(self).names_ok() ==> final(self).names_ok(),
            old(self).owners_ok() ==> final(self).owners_ok(),
    {
        let pos = match self.find_dapp(dapp_index) {
            Some(p) => p,
            None => return Err(Error::InvalidDAppIndex),
        };
        proof { self.lemma_dapp_pos(dapp_index, pos as int); }
        if !self.name_listed(who, &self.dapps[pos].dapp_name) {
            return Err(Error::NotHaveDApp);
        }
        let name = self.dapps[pos].dapp_name.clone();
        let ghost s0 = *self;
        self.clear_downline_dapp_information(pos);
        let ghost s1 = *self;
        self.events.push(Event::EndDAppSuccess(who, name, dapp_index));
        proof {
            assert forall|w: AccountId| #[trigger] self.owned_names(w) == s1.owned_names(w) by {}
            assert forall|w: AccountId| #[trigger] self.has_name_entry(w) == s1.has_name_entry(w) by {}
            assert(self.resources == s1.resources);
            if s1.bindings_ok() {
                s1.lemma_bindings_kept(self);
            }
            if s1.names_ok() {
                s1.lemma_names_kept(self);
            }
            if s1.owners_ok() {
                s1.lemma_owners_kept(self);
            }
            assert forall|k: int| !self.dapp_at(dapp_index, k) by {
                if self.dapp_at(dapp_index, k) {
                    let k2 = if k < pos { k } else { k + 1 };
                    assert(s0.dapps@[k2] == self.dapps@[k]);
                    if k2 < pos {
                        assert(s0.dapps@[k2].dapp_index < s0.dapps@[pos as int].dapp_index);
                    } else {
                        assert(s0.dapps@[pos as int].dapp_index < s0.dapps@[k2].dapp_index);
                    }
                }
            }
        }
        Ok(())
    }

    /// Records a heartbeat of the workload of `who` named `dapp_name`.
    pub fn dapp_heartbeat(&mut self, who: AccountId, dapp_name: Vec<u8>, now: BlockNumber) -> (r: Result<(), Error>)
        requires
            old(self).wf(),
        ensures
            final(self).wf(),
            !old(self).has_name_entry(who) ==> r == Err::<(), Error>(Error::NotHaveDApp),
            old(self).has_name_entry(who) && !old(self).owned_names(who).contains(dapp_name@)
                ==> r == Err::<(), Error>(Error::InvalidDAppName),
            old(self).owned_names(who).contains(dapp_name@) && (forall|j: int| !old(self).named_at(who, dapp_name@, j))
                ==> r == Err::<(), Error>(Error::InvalidDAppName),
            r is Ok <==> (old(self).owned_names(who).contains(dapp_name@) && exists|j: int| old(self).named_at(who, dapp_name@, j)),
            r is Err ==> *final(self) == *old(self),
            r is Ok ==> exists|i: int| #[trigger] old(self).first_named(who, dapp_name@, i)
                && final(self).dapps@ == old(self).dapps@.update(i, DAppInfo { last_heartbeat: now, ..old(self).dapps@[i] }),
            r is Ok ==> final(self).events@.len() == old(self).events@.len() + 1
                && final(self).events@.drop_last() == old(self).events@
                && match final(self).events@.last() {
                    Event::DAppHeartbeat(w, n) => w == who && n@ == dapp_name@,
                    _ => false,
                },
            final(self).resource_index == old(self).resource_index,
            final(self).resources == old(self).resources,
            final(self).resource_rank == old(self).resource_rank,
            final(self).user_resources == old(self).user_resources,
            final(self).deployment_index == old(self).deployment_index,
            final(self).deployments == old(self).deployments,
            final(self).dapp_index == old(self).dapp_index,
            final(self).user_dapps == old(self).user_dapps,
            old(self).bindings_ok() ==> final(self).bindings_ok(),
            old(self).names_ok() ==> final(self).names_ok(),
            old(self).owners_ok() ==> final(self).owners_ok(),
    {
        if find_key(&self.user_dapps, who).is_none() {
            assert(!self.has_name_entry(who));
            return Err(Error::NotHaveDApp);
        }
        assert(self.has_name_entry(who)) by {
            let p = choose|p: int| crate::pallet::key_at(self.user_dapps@, who, p);
        }
        if !self.name_listed(who, &dapp_name) {
            return Err(Error::InvalidDAppName);
        }
        let i = match self.find_dapp_by_name(who, &dapp_name) {
            Some(i) => i,
            None => return Err(Error::InvalidDAppName),
        };
        let ghost d0 = self.dapps@;
        self.dapps[i].last_heartbeat = now;
        assert(self.dapps@ =~= d0.update(i as int, DAppInfo { last_heartbeat: now, ..d0[i as int] }));
        assert(old(self).first_named(who, dapp_name@, i as int));
        self.events.push(Event::DAppHeartbeat(who, dapp_name));
        proof {
            if old(self).bindings_ok() {
                old(self).lemma_bindings_kept(self);
            }
            if old(self).names_ok() {
                old(self).lemma_names_kept(self);
            }
            if old(self).owners_ok() {
                old(self).lemma_owners_kept(self);
            }
        }
        Ok(())
    }
}


/// Taking a name out and putting it back in sorted order leaves the owner's
/// names as they were.
pub proof fn lemma_change_keeps_names(before: &Pallet, mid: &Pallet, after: &Pallet, who: AccountId, name: Seq<u8>)
    requires
        before.wf(),
        after.wf(),
        before.owned_names(who).contains(name),
        forall|y: Seq<u8>| #[trigger] mid.owned_names(who).contains(y) <==> (before.owned_names(who).contains(y) && y != name),
        exists|q: int| 0 <= q <= mid.owned_names(who).len()
            && #[trigger] mid.owned_names(who).insert(q, name) == after.owned_names(who),
    ensures
        after.owned_names(who) == before.owned_names(who),
{
    let q = choose|q: int| 0 <= q <= mid.owned_names(who).len()
        && #[trigger] mid.owned_names(who).insert(q, name) == after.owned_names(who);
    let m = mid.owned_names(who);
    let a = after.owned_names(who);
    let o = before.owned_names(who);
    assert forall|y: Seq<u8>| a.contains(y) <==> o.contains(y) by {
        if a.contains(y) {
            let k = choose|k: int| 0 <= k < a.len() && a[k] == y;
            if k < q {
                assert(m[k] == y);
                assert(m.contains(y));
            } else if k > q {
                assert(m[k - 1] == y);
                assert(m.contains(y));
            }
        }
        if o.contains(y) {
            if y == name {
                assert(a[q] == y);
            } else {
                assert(m.contains(y));
                let k = choose|k: int| 0 <= k < m.len() && m[k] == y;
                if k < q {
                    assert(a[k] == y);
                } else {
                    assert(a[k + 1] == y);
                }
            }
        }
    }
    after.lemma_owned_names_sorted(who);
    before.lemma_owned_names_sorted(who);
    crate::pallet::lemma_sorted_same_members(a, o);
}

impl Pallet {
    /// Capacity of node `k` once the workload at position `pos` is torn down.
    pub open spec fn config_after_teardown(&self, pos: int, k: int) -> ResourceConfig {
        let d = self.dapps@[pos];
        if self.resources@[k].index == d.resource_index {
            match entry_of(self.deployments@, d.method_index) {
                Some(dep) => released_config(self.resources@[k].config, dep.cpu, dep.memory),
                None => self.resources@[k].config,
            }
        } else {
            self.resources@[k].config
        }
    }

    /// Some node could take the request once the workload at `pos` is torn down.
    pub open spec fn fits_after_teardown(&self, pos: int, cpu: u8, memory: u8) -> bool {
        exists|k: int| 0 <= k < self.resources@.len() && #[trigger] self.config_after_teardown(pos, k).fits(cpu, memory)
    }

    /// After a teardown each node has the capacity `config_after_teardown` gives.
    pub proof fn lemma_teardown_configs(&self, after: &Pallet, pos: int)
        requires
            self.wf(),
            0 <= pos < self.dapps@.len(),
            self.torn_down(after, pos),
        ensures
            forall|k: int| 0 <= k < self.resources@.len()
                ==> (#[trigger] after.resources@[k]).config == self.config_after_teardown(pos, k),
    {
        let rid = self.dapps@[pos].resource_index;
        assert forall|k: int| 0 <= k < self.resources@.len()
            implies (#[trigger] after.resources@[k]).config == self.config_after_teardown(pos, k) by {
            if self.node_at(rid, k) {
                self.lemma_resource_pos(rid, k);
            }
        }
    }

    /// Decides `fits_after_teardown` without changing anything.
    pub fn check_fits_after_teardown(&self, pos: usize, cpu: u8, memory: u8) -> (r: bool)
        requires
            self.wf(),
            pos < self.dapps@.len(),
        ensures
            r == self.fits_after_teardown(pos as int, cpu, memory),
    {
        let rid = self.dapps[pos].resource_index;
        let mi = self.dapps[pos].method_index;
        proof { lemma_ascending_distinct(self.deployments@, self.deployment_index); }
        let shape: Option<(u8, u8)> = match find_key(&self.deployments, mi) {
            Some(j) => {
                proof { lemma_entry_at(self.deployments@, mi, j as int); }
                Some((self.deployments[j].1.cpu, self.deployments[j].1.memory))
            },
            None => {
                assert(entry_of(self.deployments@, mi) is None);
                None
            },
        };
        let mut k: usize = 0;
        while k < self.resources.len()
            invariant
                self.wf(),
                pos < self.dapps@.len(),
                rid == self.dapps@[pos as int].resource_index,
                shape == match entry_of(self.deployments@, mi) {
                    Some(dep) => Some((dep.cpu, dep.memory)),
                    None => None::<(u8, u8)>,
                },
                mi == self.dapps@[pos as int].method_index,
                k <= self.resources@.len(),
                forall|j: int| 0 <= j < k ==> !(#[trigger] self.config_after_teardown(pos as int, j)).fits(cpu, memory),
            decreases self.resources@.len() - k,
        {
            let mut c = self.resources[k].config;
            if self.resources[k].index == rid {
                match shape {
                    Some((dc, dm)) => {
                        c.release_resource(dc, dm);
                    },
                    None => {},
                }
            }
            assert(c == self.config_after_teardown(pos as int, k as int));
            if cpu <= c.unused_cpu && memory <= c.unused_memory {
                assert(self.config_after_teardown(pos as int, k as int).fits(cpu, memory));
                return true;
            }
            k = k + 1;
        }
        false
    }

    /// Replaces the workload of `who` named `dapp_name` by one with a new
    /// specification: the old one is torn down and announced stopped, then the
    /// name is placed again as `request_dapp_deployment` does. Nothing changes
    /// when no node could take the new shape.
    pub fn change_dapp_specification(
        &mut self,
        who: AccountId,
        method: DeploymentMethod,
        dapp_name: Vec<u8>,
        cpu: u8,
        memory: u8,
        replicas: u8,
        available: u8,
        now: BlockNumber,
    ) -> (r: Result<(), Error>)
        requires
            old(self).wf(),
            old(self).dapp_index < u64::MAX,
            old(self).deployment_index < u64::MAX,
        ensures
            final(self).wf(),
            !old(self).owned_names(who).contains(dapp_name@) ==> r == Err::<(), Error>(Error::NotHaveDApp),
            old(self).owned_names(who).contains(dapp_name@) && (forall|j: int| !old(self).named_at(who, dapp_name@, j))
                ==> r == Err::<(), Error>(Error::InvalidDAppName),
            forall|i: int| old(self).owned_names(who).contains(dapp_name@) && #[trigger] old(self).first_named(who, dapp_name@, i)
                && !old(self).fits_after_teardown(i, cpu, memory) ==> r == Err::<(), Error>(Error::InstantiateError),
            r is Ok <==> (old(self).owned_names(who).contains(dapp_name@)
                && exists|i: int| #[trigger] old(self).first_named(who, dapp_name@, i) && old(self).fits_after_teardown(i, cpu, memory)),
            r is Err ==> *final(self) == *old(self),
            r is Ok ==> exists|pos: int, mid: Pallet| #[trigger] old(self).first_named(who, dapp_name@, pos)
                && #[trigger] old(self).torn_down(&mid, pos)
                && mid.wf()
                && (old(self).has_node(old(self).dapps@[pos].resource_index) ==> {
                    &&& mid.events@.len() == old(self).events@.len() + 1
                    &&& mid.events@.drop_last() == old(self).events@
                    &&& is_stop(mid.events@.last(),
                        old(self).resources@[old(self).resource_pos(old(self).dapps@[pos].resource_index)].peer_id@,
                        old(self).dapps@[pos].dapp_index)
                })
                && (!old(self).has_node(old(self).dapps@[pos].resource_index) ==> mid.events == old(self).events)
                && mid.placed(final(self), mid.dapp_index, who, method, dapp_name@, cpu, memory, replicas, available, now),
            r is Ok ==> final(self).owned_names(who) == old(self).owned_names(who),
            old(self).bindings_ok() ==> final(self).bindings_ok(),
            old(self).names_ok() ==> final(self).names_ok(),
            old(self).owners_ok() ==> final(self).owners_ok(),
    {
        if !self.name_listed(who, &dapp_name) {
            return Err(Error::NotHaveDApp);
        }
        let pos = match self.find_dapp_by_name(who, &dapp_name) {
            Some(i) => i,
            None => return Err(Error::InvalidDAppName),
        };
        if !self.check_fits_after_teardown(pos, cpu, memory) {
            return Err(Error::InstantiateError);
        }
        let old_id = self.dapps[pos].dapp_index;
        let rid = self.dapps[pos].resource_index;
        let peer: Option<Vec<u8>> = match self.find_resource(rid) {
            Some(i) => {
                proof { self.lemma_resource_pos(rid, i as int); }
                Some(self.resources[i].peer_id.clone())
            },
            None => None,
        };
        let ghost s0 = *self;
        self.clear_downline_dapp_information(pos);
        let ghost s1 = *self;
        match peer {
            Some(p) => {
                self.events.push(Event::StopDApp(p, old_id));
            },
            None => {},
        }
        let ghost mid = *self;
        proof {
            assert(s0.torn_down(&mid, pos as int)) by {
                assert forall|w: AccountId| #[trigger] mid.owned_names(w) == s1.owned_names(w) by {}
                assert forall|w: AccountId| #[trigger] mid.has_name_entry(w) == s1.has_name_entry(w) by {}
            }
            s0.lemma_teardown_configs(&mid, pos as int);
            let k = choose|k: int| 0 <= k < s0.resources@.len() && #[trigger] s0.config_after_teardown(pos as int, k).fits(cpu, memory);
            assert(mid.resources@[k].config == s0.config_after_teardown(pos as int, k));
            assert(mid.some_node_fits(cpu, memory));
            assert(!mid.owned_names(who).contains(dapp_name@));
            if s1.bindings_ok() {
                s1.lemma_bindings_kept(&mid);
            }
            if s1.names_ok() {
                s1.lemma_names_kept(&mid);
            }
            if s1.owners_ok() {
                s1.lemma_owners_kept(&mid);
            }
        }
        match self.request_dapp_deployment(who, method, dapp_name, cpu, memory, replicas, available, now) {
            Ok(_) => {
                assert(old(self).first_named(who, dapp_name@, pos as int));
                assert(old(self).torn_down(&mid, pos as int));
                proof {
                    assert(old(self).dapps@[pos as int].account == who);
                    lemma_change_keeps_names(old(self), &mid, self, who, dapp_name@);
                }
                Ok(())
            },
            Err(e) => Err(e),
        }
    }
}

} // verus!
