use vstd::prelude::*;
use crate::dapp::{bytes_eq, bytes_less, bytes_lt, lemma_bytes_lt_total, lemma_bytes_lt_transitive};
use crate::deployment::{DeploymentInfo, DeploymentMethod};
use crate::pallet::{Pallet, Error, Event, key_at, keys_distinct, keys_ascending, entry_of, lemma_entry_at, find_key, names_distinct, names_sorted, lemma_sorted_distinct, names_view,
    lemma_ascending_distinct, lemma_entry_after_remove, lemma_entry_after_set};
use crate::provider::{AccountId, BlockNumber, ComputingResource, ResourceConfig};
use crate::scheduler::{reserved, bound, fresh_dapp};

verus! {

/// `e` announces that workload `did` was placed on the node with `peer`.
pub open spec fn is_placement(e: Event, peer: Seq<u8>, cpu: u8, memory: u8, kind: u8, command: Seq<u8>, did: u64) -> bool {
    match e {
        Event::DeploymentDApp(p, c, m, k, x, d) => p@ == peer && c == cpu && m == memory && k == kind && x@ == command && d == did,
        _ => false,
    }
}

/// `e` announces that `who` ended workload `did` named `name`.
pub open spec fn is_end(e: Event, who: AccountId, name: Seq<u8>, did: u64) -> bool {
    match e {
        Event::EndDAppSuccess(w, n, d) => w == who && n@ == name && d == did,
        _ => false,
    }
}

impl Pallet {
    /// Everything but the name index is as in `other`.
    pub open spec fn same_but_names(&self, other: &Pallet) -> bool {
        &&& self.resource_index == other.resource_index
        &&& self.resources == other.resources
        &&& self.user_resources == other.user_resources
        &&& self.resource_rank == other.resource_rank
        &&& self.deployment_index == other.deployment_index
        &&& self.deployments == other.deployments
        &&& self.dapp_index == other.dapp_index
        &&& self.dapps == other.dapps
        &&& self.events == other.events
    }

    /// Where `name` stands in the name index of `who`: the entry, then the name.
    pub fn owned_name_pos(&self, who: AccountId, name: &Vec<u8>) -> (r: Option<(usize, usize)>)
        requires
            self.wf(),
        ensures
            match r {
                Some((p, q)) => {
                    &&& key_at(self.user_dapps@, who, p as int)
                    &&& q < self.user_dapps@[p as int].1@.len()
                    &&& self.user_dapps@[p as int].1@[q as int]@ == name@
                    &&& self.owned_names(who) == names_view(self.user_dapps@[p as int].1@)
                    &&& self.owned_names(who)[q as int] == name@
                    &&& self.owned_names(who).contains(name@)
                },
                None => !self.owned_names(who).contains(name@),
            },
    {
        let p = match find_key(&self.user_dapps, who) {
            Some(p) => p,
            None => {
                assert(entry_of(self.user_dapps@, who) is None);
                return None;
            },
        };
        proof { lemma_entry_at(self.user_dapps@, who, p as int); }
        let ghost names = self.user_dapps@[p as int].1@;
        let mut q: usize = 0;
        while q < self.user_dapps[p].1.len()
            invariant
                p < self.user_dapps@.len(),
                key_at(self.user_dapps@, who, p as int),
                names == self.user_dapps@[p as int].1@,
                self.owned_names(who) == names_view(names),
                q <= names.len(),
                forall|k: int| 0 <= k < q ==> names[k]@ != name@,
            decreases names.len() - q,
        {
            if bytes_eq(&self.user_dapps[p].1[q], name) {
                assert(names_view(names)[q as int] == name@);
                assert(self.owned_names(who) == names_view(names));
                assert(self.owned_names(who).contains(name@));
                return Some((p, q));
            }
            q = q + 1;
        }
        assert(!names_view(names).contains(name@)) by {
            if names_view(names).contains(name@) {
                let k = choose|k: int| 0 <= k < names_view(names).len() && names_view(names)[k] == name@;
                assert(names[k]@ == name@);
            }
        }
        None
    }

    /// Whether `who` has a workload named `name`.
    pub fn name_listed(&self, who: AccountId, name: &Vec<u8>) -> (r: bool)
        requires
            self.wf(),
        ensures
            r == self.owned_names(who).contains(name@),
    {
        self.owned_name_pos(who, name).is_some()
    }

    /// Adds `name` to the names of `who` at its place in lexicographic
    /// order; returns that place.
    pub fn add_owned_name(&mut self, who: AccountId, name: Vec<u8>) -> (q: usize)
        requires
            old(self).wf(),
            !old(self).owned_names(who).contains(name@),
        ensures
            final(self).wf(),
            final(self).same_but_names(old(self)),
            q <= old(self).owned_names(who).len(),
            final(self).owned_names(who) == old(self).owned_names(who).insert(q as int, name@),
            forall|k: int| 0 <= k < q ==> bytes_lt(#[trigger] old(self).owned_names(who)[k], name@),
            forall|k: int| q <= k < old(self).owned_names(who).len() ==> bytes_lt(name@, #[trigger] old(self).owned_names(who)[k]),
            final(self).has_name_entry(who),
            forall|w: AccountId| w != who ==> final(self).owned_names(w) == old(self).owned_names(w)
                && final(self).has_name_entry(w) == old(self).has_name_entry(w),
            old(self).bindings_ok() ==> final(self).bindings_ok(),
    {
        let ghost old_s = self.user_dapps@;
        let ghost name_v = name@;
        let ghost name_vec = name;
        let q = match find_key(&self.user_dapps, who) {
            Some(p) => {
                proof { lemma_entry_at(old_s, who, p as int); }
                let ghost before = self.user_dapps@[p as int].1@;
                assert(old(self).owned_names(who) == names_view(before));
                let mut q: usize = 0;
                while q < self.user_dapps[p].1.len() && bytes_less(&self.user_dapps[p].1[q], &name)
                    invariant
                        p < self.user_dapps@.len(),
                        self.user_dapps@ == old_s,
                        before == self.user_dapps@[p as int].1@,
                        name@ == name_v,
                        q <= before.len(),
                        forall|k: int| 0 <= k < q ==> bytes_lt(before[k]@, name_v),
                    decreases before.len() - q,
                {
                    q = q + 1;
                }
                proof {
                    assert(names_sorted(before));
                    assert forall|k: int| q <= k < before.len() implies bytes_lt(name_v, before[k]@) by {
                        assert(!bytes_lt(before[q as int]@, name_v));
                        assert(names_view(before)[q as int] == before[q as int]@);
                        assert(before[q as int]@ != name_v);
                        lemma_bytes_lt_total(before[q as int]@, name_v);
                        if k > q {
                            lemma_bytes_lt_transitive(name_v, before[q as int]@, before[k]@);
                        }
                    }
                }
                self.user_dapps[p].1.insert(q, name);
                proof {
                    let s = self.user_dapps@;
                    let l = s[p as int].1@;
                    assert(l == before.insert(q as int, name_vec));
                    assert(names_sorted(l)) by {
                        assert forall|i: int, j: int| 0 <= i < j < l.len() implies bytes_lt(l[i]@, l[j]@) by {
                            if j < q {
                            } else if j == q {
                            } else if i < q {
                                assert(l[j] == before[j - 1]);
                                lemma_bytes_lt_transitive(l[i]@, name_v, l[j]@);
                            } else if i == q {
                                assert(l[j] == before[j - 1]);
                            } else {
                                assert(l[i] == before[i - 1]);
                                assert(l[j] == before[j - 1]);
                            }
                        }
                    }
                    lemma_sorted_distinct(l);
                    assert forall|i: int| 0 <= i < s.len() implies names_distinct((#[trigger] s[i]).1@) by {
                        if i != p { assert(s[i] == old_s[i]); }
                    }
                    assert forall|i: int| 0 <= i < s.len() implies names_sorted((#[trigger] s[i]).1@) by {
                        if i != p { assert(s[i] == old_s[i]); }
                    }
                    assert(keys_distinct(s)) by {
                        assert forall|i: int, j: int| 0 <= i < s.len() && 0 <= j < s.len() && i != j implies s[i].0 != s[j].0 by {
                            assert(s[i].0 == old_s[i].0);
                            assert(s[j].0 == old_s[j].0);
                        }
                    }
                    lemma_entry_at(s, who, p as int);
                    assert(names_view(l) =~= names_view(before).insert(q as int, name_v));
                    assert forall|w: AccountId| w != who implies entry_of(s, w) == entry_of(old_s, w) by {
                        if exists|i: int| key_at(old_s, w, i) {
                            let k = choose|i: int| key_at(old_s, w, i);
                            lemma_entry_at(old_s, w, k);
                            assert(key_at(s, w, k));
                            lemma_entry_at(s, w, k);
                        } else {
                            assert forall|i: int| !key_at(s, w, i) by {
                                if key_at(s, w, i) { assert(key_at(old_s, w, i)); }
                            }
                        }
                    }
                }
                q
            },
            None => {
                let mut names: Vec<Vec<u8>> = Vec::new();
                names.push(name);
                self.user_dapps.push((who, names));
                proof {
                    let s = self.user_dapps@;
                    let n = old_s.len() as int;
                    assert(key_at(s, who, n));
                    lemma_entry_at(s, who, n);
                    assert(entry_of(old_s, who) is None);
                    assert(names_view(s[n].1@) =~= seq![name_v]);
                    assert(Seq::<Seq<u8>>::empty().insert(0, name_v) =~= seq![name_v]);
                    assert forall|w: AccountId| w != who implies entry_of(s, w) == entry_of(old_s, w) by {
                        if exists|i: int| key_at(old_s, w, i) {
                            let k = choose|i: int| key_at(old_s, w, i);
                            lemma_entry_at(old_s, w, k);
                            assert(key_at(s, w, k));
                            lemma_entry_at(s, w, k);
                        } else {
                            assert forall|i: int| !key_at(s, w, i) by {
                                if key_at(s, w, i) {
                                    assert(i != n);
                                    assert(key_at(old_s, w, i));
                                }
                            }
                        }
                    }
                    assert forall|i: int| 0 <= i < s.len() implies names_distinct((#[trigger] s[i]).1@) by {
                        if i != n { assert(s[i] == old_s[i]); }
                    }
                    assert forall|i: int| 0 <= i < s.len() implies names_sorted((#[trigger] s[i]).1@) by {
                        if i != n { assert(s[i] == old_s[i]); }
                    }
                }
                0
            },
        };
        proof {
            if old(self).bindings_ok() {
                old(self).lemma_bindings_kept(self);
            }
        }
        q
    }

}
impl Pallet {
    /// What a successful placement request leaves: the workload `did` is new
    /// and bound to the best-fitting node, which gives up the requested
    /// capacity; its specification and name are recorded and the placement is
    /// announced.
    pub open spec fn placed(
        &self,
        after: &Pallet,
        did: u64,
        who: AccountId,
        method: DeploymentMethod,
        name: Seq<u8>,
        cpu: u8,
        memory: u8,
        replicas: u8,
        available: u8,
        now: BlockNumber,
    ) -> bool {
        let rid = after.dapps@.last().resource_index;
        let i = self.resource_pos(rid);
        &&& did == self.dapp_index
        &&& self.node_at(rid, i)
        &&& self.best_fit(i, cpu, memory)
        &&& after.resources@.len() == self.resources@.len()
        &&& forall|k: int| 0 <= k < self.resources@.len() && k != i
            ==> (#[trigger] after.resources@[k]) == self.resources@[k]
        &&& bound(reserved(self.resources@[i], cpu, memory), after.resources@[i], did)
        &&& after.dapps@.len() == self.dapps@.len() + 1
        &&& after.dapps@.drop_last() == self.dapps@
        &&& fresh_dapp(after.dapps@.last(), did, who, name, self.deployment_index, rid, now)
        &&& after.dapp_index == self.dapp_index + 1
        &&& after.deployment_index == self.deployment_index + 1
        &&& after.deployments@ == self.deployments@.push((self.deployment_index,
            DeploymentInfo { account: who, method, cpu, memory, replicas, available }))
        &&& exists|q: int| 0 <= q <= self.owned_names(who).len()
            && #[trigger] self.owned_names(who).insert(q, name) == after.owned_names(who)
            && (forall|k: int| 0 <= k < q ==> bytes_lt(#[trigger] self.owned_names(who)[k], name))
            && (forall|k: int| q <= k < self.owned_names(who).len() ==> bytes_lt(name, #[trigger] self.owned_names(who)[k]))
        &&& forall|w: AccountId| w != who ==> #[trigger] after.owned_names(w) == self.owned_names(w)
        &&& after.events@.len() == self.events@.len() + 1
        &&& after.events@.drop_last() == self.events@
        &&& is_placement(after.events@.last(), self.resources@[i].peer_id@, cpu, memory,
            method.kind(), method.command(), did)
        &&& after.resource_index == self.resource_index
        &&& after.user_resources == self.user_resources
    }
}

impl Pallet {
    /// Requests a deployment of `dapp_name` for `who`: places it on the node
    /// with the least free capacity that fits, records the specification and
    /// the name, and announces the placement. Returns the new workload id.
    pub fn request_dapp_deployment(
        &mut self,
        who: AccountId,
        method: DeploymentMethod,
        dapp_name: Vec<u8>,
        cpu: u8,
        memory: u8,
        replicas: u8,
        available: u8,
        now: BlockNumber,
    ) -> (r: Result<u64, Error>)
        requires
            old(self).wf(),
            old(self).dapp_index < u64::MAX,
            old(self).deployment_index < u64::MAX,
        ensures
            final(self).wf(),
            old(self).owned_names(who).contains(dapp_name@) ==> r == Err::<u64, Error>(Error::RepeatDAppName),
            !old(self).owned_names(who).contains(dapp_name@) && !old(self).some_node_fits(cpu, memory)
                ==> r == Err::<u64, Error>(Error::InstantiateError),
            r is Ok <==> (!old(self).owned_names(who).contains(dapp_name@) && old(self).some_node_fits(cpu, memory)),
            r is Err ==> *final(self) == *old(self),
            r matches Ok(did) ==> old(self).placed(final(self), did, who, method, dapp_name@, cpu, memory, replicas, available, now),
            old(self).bindings_ok() ==> final(self).bindings_ok(),
            old(self).names_ok() ==> final(self).names_ok(),
            old(self).owners_ok() ==> final(self).owners_ok(),
            final(self).resource_index == old(self).resource_index,
            final(self).user_resources == old(self).user_resources,
    {
        if self.name_listed(who, &dapp_name) {
            return Err(Error::RepeatDAppName);
        }
        let (kind, command) = method.kind_and_command();
        let dep_index = self.deployment_index;
        let name_copy = dapp_name.clone();
        let (rid, did) = match self.instantiate(who, name_copy, dep_index, cpu, memory, now) {
            Some(ids) => ids,
            None => return Err(Error::InstantiateError),
        };
        let ghost old_deps = self.deployments@;
        let ghost placed_state = *self;
        self.deployments.push((dep_index, DeploymentInfo::new(who, method, cpu, memory, replicas, available)));
        self.deployment_index = dep_index + 1;
        assert(keys_ascending(self.deployments@, self.deployment_index)) by {
            let s = self.deployments@;
            assert forall|i: int| 0 <= i < s.len() implies s[i].0 < self.deployment_index by {
                if i < old_deps.len() { assert(s[i] == old_deps[i]); }
            }
            assert forall|i: int, j: int| 0 <= i < j < s.len() implies s[i].0 < s[j].0 by {
                assert(s[i] == old_deps[i]);
                if j < old_deps.len() { assert(s[j] == old_deps[j]); }
            }
        }
        let ghost before_names = *self;
        assert(forall|w: AccountId| before_names.owned_names(w) == old(self).owned_names(w));
        let q = self.add_owned_name(who, dapp_name);
        let ghost after_names = *self;
        let i = match self.find_resource(rid) {
            Some(i) => i,
            None => {
                proof {
                    let k = old(self).resource_pos(rid);
                    assert(self.node_at(rid, k));
                }
                return Err(Error::InstantiateError);
            },
        };
        proof {
            old(self).lemma_resource_pos(rid, i as int);
        }
        let peer = self.resources[i].peer_id.clone();
        self.events.push(Event::DeploymentDApp(peer, cpu, memory, kind, command, did));
        assert forall|w: AccountId| w != who implies self.owned_names(w) == old(self).owned_names(w) by {
            assert(self.owned_names(w) == after_names.owned_names(w));
            assert(after_names.owned_names(w) == before_names.owned_names(w));
            assert(before_names.owned_names(w) == old(self).owned_names(w));
        }
        proof {
            let a = &*self;
            let o = old(self);
            let rid2 = a.dapps@.last().resource_index;
            let i2 = o.resource_pos(rid2);
            assert(rid2 == rid);
            assert(did == o.dapp_index);
            assert(o.node_at(rid2, i2));
            assert(o.best_fit(i2, cpu, memory));
            assert(a.resources@.len() == o.resources@.len());
            assert(bound(reserved(o.resources@[i2], cpu, memory), a.resources@[i2], did));
            assert(a.dapps@.drop_last() == o.dapps@);
            assert(fresh_dapp(a.dapps@.last(), did, who, dapp_name@, o.deployment_index, rid2, now));
            assert(a.deployments@ == o.deployments@.push((o.deployment_index,
            DeploymentInfo { account: who, method, cpu, memory, replicas, available })));
            assert(a.owned_names(who) == after_names.owned_names(who));
            assert(o.owned_names(who).insert(q as int, dapp_name@) == a.owned_names(who));
            assert(a.events@.drop_last() == o.events@);
            assert(is_placement(a.events@.last(), o.resources@[i2].peer_id@, cpu, memory,
            method.kind(), method.command(), did));
            if placed_state.bindings_ok() {
                placed_state.lemma_bindings_kept(self);
            }
            if old(self).names_ok() {
                old(self).lemma_placed_names(self, who, dapp_name@);
            }
        }
        Ok(did)
    }
}


/// `c` with `cpu` and `memory` given back, when no more than is in use is
/// returned; `c` itself otherwise.
pub open spec fn released_config(c: ResourceConfig, cpu: u8, memory: u8) -> ResourceConfig {
    if cpu <= c.used_cpu() && memory <= c.used_memory() {
        ResourceConfig {
            unused_cpu: (c.unused_cpu + cpu) as u8,
            unused_memory: (c.unused_memory + memory) as u8,
            ..c
        }
    } else {
        c
    }
}

/// `after` is `before` with workload `did` unbound and capacity `config`.
pub open spec fn unbound(before: ComputingResource, after: ComputingResource, did: u64, config: ResourceConfig) -> bool {
    &&& after.index == before.index
    &&& after.account_id == before.account_id
    &&& after.peer_id == before.peer_id
    &&& after.public_ip == before.public_ip
    &&& after.config == config
    &&& after.status == before.status
    &&& after.last_heartbeat == before.last_heartbeat
    &&& forall|y: u64| #[trigger] after.dapps@.contains(y) <==> (before.dapps@.contains(y) && y != did)
}

impl Pallet {
    /// Whether the name of workload `did` is among those of `who`.
    pub open spec fn holds_dapp_name(&self, who: AccountId, did: u64) -> bool {
        self.owned_names(who).contains(self.dapps@[self.dapp_pos(did)].dapp_name@)
    }

    /// What tearing down the workload at position `pos` of `self` leaves:
    /// the record, its specification, its name and its binding are gone, and
    /// its node has the capacity of the specification back.
    pub open spec fn torn_down(&self, after: &Pallet, pos: int) -> bool {
        let d = self.dapps@[pos];
        let rid = d.resource_index;
        let i = self.resource_pos(rid);
        &&& after.dapps@ == self.dapps@.remove(pos)
        &&& forall|k: u64| #[trigger] entry_of(after.deployments@, k)
            == if k == d.method_index { None } else { entry_of(self.deployments@, k) }
        &&& after.resources@.len() == self.resources@.len()
        &&& forall|k: int| 0 <= k < self.resources@.len() && !self.node_at(rid, k)
            ==> (#[trigger] after.resources@[k]) == self.resources@[k]
        &&& self.has_node(rid) ==> unbound(self.resources@[i], after.resources@[i], d.dapp_index,
            match entry_of(self.deployments@, d.method_index) {
                Some(dep) => released_config(self.resources@[i].config, dep.cpu, dep.memory),
                None => self.resources@[i].config,
            })
        &&& forall|y: Seq<u8>| #[trigger] after.owned_names(d.account).contains(y)
            <==> (self.owned_names(d.account).contains(y) && y != d.dapp_name@)
        &&& forall|w: AccountId| w != d.account ==> #[trigger] after.owned_names(w) == self.owned_names(w)
        &&& forall|w: AccountId| #[trigger] after.has_name_entry(w) == self.has_name_entry(w)
        &&& after.resource_index == self.resource_index
        &&& after.user_resources == self.user_resources
        &&& after.deployment_index == self.deployment_index
        &&& after.dapp_index == self.dapp_index
    }

    /// Takes name `q` out of the name index entry `p` of `who`.
    pub fn remove_owned_name(&mut self, who: AccountId, p: usize, q: usize)
        requires
            old(self).wf(),
            key_at(old(self).user_dapps@, who, p as int),
            q < old(self).user_dapps@[p as int].1@.len(),
        ensures
            final(self).wf(),
            final(self).same_but_names(old(self)),
            final(self).owned_names(who) == old(self).owned_names(who).remove(q as int),
            forall|w: AccountId| w != who ==> #[trigger] final(self).owned_names(w) == old(self).owned_names(w),
            forall|w: AccountId| #[trigger] final(self).has_name_entry(w) == old(self).has_name_entry(w),
            old(self).bindings_ok() ==> final(self).bindings_ok(),
    {
        let ghost old_s = self.user_dapps@;
        let ghost before = old_s[p as int].1@;
        proof { lemma_entry_at(old_s, who, p as int); }
        self.user_dapps[p].1.remove(q);
        proof {
            let s = self.user_dapps@;
            let v = s[p as int].1;
            assert(v@ == before.remove(q as int));
            assert(s =~= old_s.update(p as int, (who, v)));
            lemma_entry_after_set(old_s, p as int, v);
            assert(names_view(v@) =~= names_view(before).remove(q as int));
            assert(names_distinct(v@)) by {
                assert(names_distinct(before));
                assert forall|a: int, b: int| 0 <= a < v@.len() && 0 <= b < v@.len() && a != b implies v@[a]@ != v@[b]@ by {
                    let a2 = if a < q { a } else { a + 1 };
                    let b2 = if b < q { b } else { b + 1 };
                    assert(v@[a] == before[a2]);
                    assert(v@[b] == before[b2]);
                }
            }
            assert forall|i: int| 0 <= i < s.len() implies names_distinct((#[trigger] s[i]).1@) by {
                if i != p { assert(s[i] == old_s[i]); }
            }
            assert forall|w: AccountId| #[trigger] self.has_name_entry(w) == old(self).has_name_entry(w) by {
                assert(entry_of(s, w) == (if w == who { Some(v) } else { entry_of(old_s, w) }));
            }
            assert forall|w: AccountId| w != who implies #[trigger] self.owned_names(w) == old(self).owned_names(w) by {
                assert(entry_of(s, w) == entry_of(old_s, w));
            }
            if old(self).bindings_ok() {
                old(self).lemma_bindings_kept(self);
            }
        }
    }

    /// `torn_down` speaks of the start only through the tables, so a start
    /// that differs in its notifications alone gives the same relation.
    pub proof fn lemma_torn_down_same_start(&self, other: &Pallet, after: &Pallet, pos: int)
        requires
            self.wf(),
            0 <= pos < self.dapps@.len(),
            other.resources == self.resources,
            other.dapps == self.dapps,
            other.deployments == self.deployments,
            other.user_dapps == self.user_dapps,
            other.user_resources == self.user_resources,
            other.resource_rank == self.resource_rank,
            other.resource_index == self.resource_index,
            other.deployment_index == self.deployment_index,
            other.dapp_index == self.dapp_index,
            other.torn_down(after, pos),
        ensures
            self.torn_down(after, pos),
    {
        let rid = self.dapps@[pos].resource_index;
        assert(other.wf());
        if self.has_node(rid) {
            let i = choose|i: int| self.node_at(rid, i);
            self.lemma_resource_pos(rid, i);
            assert(other.node_at(rid, i));
            other.lemma_resource_pos(rid, i);
        }
        if other.has_node(rid) {
            let i = choose|i: int| other.node_at(rid, i);
            assert(self.node_at(rid, i));
        }
        assert forall|k: int| 0 <= k < self.resources@.len() && !self.node_at(rid, k)
            implies (#[trigger] after.resources@[k]) == self.resources@[k] by {
            assert(!other.node_at(rid, k));
        }
        assert(forall|w: AccountId| #[trigger] self.owned_names(w) == other.owned_names(w));
        assert(forall|w: AccountId| #[trigger] self.has_name_entry(w) == other.has_name_entry(w));
    }

    /// Tearing down a workload keeps every other binding.
    pub proof fn lemma_teardown_bindings(&self, after: &Pallet, pos: int)
        requires
            self.wf(),
            after.wf(),
            0 <= pos < self.dapps@.len(),
            self.torn_down(after, pos),
            self.bindings_ok(),
        ensures
            after.bindings_ok(),
    {
        let d = self.dapps@[pos];
        let rid = d.resource_index;
        let did = d.dapp_index;
        assert forall|i: int| 0 <= i < self.resources@.len() implies (#[trigger] after.resources@[i]).index == self.resources@[i].index by {
            if self.node_at(rid, i) { self.lemma_resource_pos(rid, i); }
        }
        assert forall|i: int, y: u64| 0 <= i < self.resources@.len() && #[trigger] self.resources@[i].dapps@.contains(y) && y != did
            implies after.resources@[i].dapps@.contains(y) by {
            if self.node_at(rid, i) { self.lemma_resource_pos(rid, i); }
        }
        assert forall|ka: int| 0 <= ka < after.dapps@.len() && (#[trigger] after.dapps@[ka]).status == crate::dapp::DappStatus::Online
            implies after.bound_at(ka) by {
            let k = if ka < pos { ka } else { ka + 1 };
            assert(after.dapps@[ka] == self.dapps@[k]);
            assert(self.bound_at(k));
            if k < pos {
                assert(self.dapps@[k].dapp_index < self.dapps@[pos].dapp_index);
            } else {
                assert(self.dapps@[pos].dapp_index < self.dapps@[k].dapp_index);
            }
            self.lemma_bound_kept_but(after, k, ka, did);
        }
    }

    /// Placing a workload of `who` under a name `who` did not hold keeps the
    /// names invariant.
    pub proof fn lemma_placed_names(&self, after: &Pallet, who: AccountId, name: Seq<u8>)
        requires
            self.names_ok(),
            !self.owned_names(who).contains(name),
            after.dapps@.len() == self.dapps@.len() + 1,
            after.dapps@.drop_last() == self.dapps@,
            after.dapps@.last().account == who,
            after.dapps@.last().dapp_name@ == name,
            exists|q: int| 0 <= q <= self.owned_names(who).len()
                && #[trigger] self.owned_names(who).insert(q, name) == after.owned_names(who),
            forall|w: AccountId| w != who ==> #[trigger] after.owned_names(w) == self.owned_names(w),
        ensures
            after.names_ok(),
    {
        let n = self.dapps@.len() as int;
        let q = choose|q: int| 0 <= q <= self.owned_names(who).len()
            && #[trigger] self.owned_names(who).insert(q, name) == after.owned_names(who);
        assert forall|k: int| 0 <= k < after.dapps@.len()
            implies after.owned_names((#[trigger] after.dapps@[k]).account).contains(after.dapps@[k].dapp_name@) by {
            if k < n {
                assert(after.dapps@[k] == self.dapps@[k]);
                let a = self.dapps@[k].account;
                assert(self.owned_names(a).contains(self.dapps@[k].dapp_name@));
                if a == who {
                    let m = choose|m: int| 0 <= m < self.owned_names(a).len() && self.owned_names(a)[m] == self.dapps@[k].dapp_name@;
                    if m < q {
                        assert(after.owned_names(a)[m] == self.dapps@[k].dapp_name@);
                    } else {
                        assert(after.owned_names(a)[m + 1] == self.dapps@[k].dapp_name@);
                    }
                }
            } else {
                assert(after.owned_names(who)[q] == name);
            }
        }
        assert forall|k: int, j: int| 0 <= k < after.dapps@.len() && 0 <= j < after.dapps@.len() && k != j
            && (#[trigger] after.dapps@[k]).account == (#[trigger] after.dapps@[j]).account
            implies after.dapps@[k].dapp_name@ != after.dapps@[j].dapp_name@ by {
            if k < n && j < n {
                assert(after.dapps@[k] == self.dapps@[k]);
                assert(after.dapps@[j] == self.dapps@[j]);
            } else if k < n {
                assert(after.dapps@[k] == self.dapps@[k]);
                assert(self.owned_names(who).contains(self.dapps@[k].dapp_name@));
            } else {
                assert(after.dapps@[j] == self.dapps@[j]);
                assert(self.owned_names(who).contains(self.dapps@[j].dapp_name@));
            }
        }
    }

    /// Tearing down a workload keeps the names invariant.
    pub proof fn lemma_teardown_names(&self, after: &Pallet, pos: int)
        requires
            self.wf(),
            0 <= pos < self.dapps@.len(),
            self.torn_down(after, pos),
            self.names_ok(),
        ensures
            after.names_ok(),
    {
        let d = self.dapps@[pos];
        assert forall|ka: int| 0 <= ka < after.dapps@.len()
            implies after.owned_names((#[trigger] after.dapps@[ka]).account).contains(after.dapps@[ka].dapp_name@) by {
            let k = if ka < pos { ka } else { ka + 1 };
            assert(after.dapps@[ka] == self.dapps@[k]);
            assert(self.owned_names(self.dapps@[k].account).contains(self.dapps@[k].dapp_name@));
            if self.dapps@[k].account == d.account {
                assert(self.dapps@[k].dapp_name@ != d.dapp_name@);
            }
        }
        assert forall|ka: int, ja: int| 0 <= ka < after.dapps@.len() && 0 <= ja < after.dapps@.len() && ka != ja
            && (#[trigger] after.dapps@[ka]).account == (#[trigger] after.dapps@[ja]).account
            implies after.dapps@[ka].dapp_name@ != after.dapps@[ja].dapp_name@ by {
            let k = if ka < pos { ka } else { ka + 1 };
            let j = if ja < pos { ja } else { ja + 1 };
            assert(after.dapps@[ka] == self.dapps@[k]);
            assert(after.dapps@[ja] == self.dapps@[j]);
        }
    }

    /// Tears down the workload at position `pos`: removes its record, its
    /// specification and its name, unbinds it from its node and gives the
    /// node the capacity of the specification back.
    #[verifier::rlimit(80)]
    pub fn clear_downline_dapp_information(&mut self, pos: usize)
        requires
            old(self).wf(),
            pos < old(self).dapps@.len(),
        ensures
            final(self).wf(),
            old(self).torn_down(final(self), pos as int),
            final(self).events == old(self).events,
            old(self).bindings_ok() ==> final(self).bindings_ok(),
            old(self).names_ok() ==> final(self).names_ok(),
            old(self).owners_ok() ==> final(self).owners_ok(),
    {
        let did = self.dapps[pos].dapp_index;
        let who = self.dapps[pos].account;
        let rid = self.dapps[pos].resource_index;
        let mi = self.dapps[pos].method_index;
        let name = self.dapps[pos].dapp_name.clone();
        let ghost d = self.dapps@[pos as int];
        let ghost s0 = *self;

        // the specification
        proof { lemma_ascending_distinct(self.deployments@, self.deployment_index); }
        let shape: Option<(u8, u8)> = match find_key(&self.deployments, mi) {
            Some(k) => {
                proof {
                    lemma_entry_at(self.deployments@, mi, k as int);
                    lemma_entry_after_remove(self.deployments@, k as int);
                }
                let ghost old_deps = self.deployments@;
                let dep = self.deployments.remove(k);
                assert(dep == old_deps[k as int]);
                proof {
                    let t = self.deployments@;
                    assert forall|a: int, b: int| 0 <= a < b < t.len() implies t[a].0 < t[b].0 by {
                        let a2 = if a < k { a } else { a + 1 };
                        let b2 = if b < k { b } else { b + 1 };
                        assert(t[a] == old_deps[a2]);
                        assert(t[b] == old_deps[b2]);
                    }
                    assert forall|a: int| 0 <= a < t.len() implies t[a].0 < self.deployment_index by {
                        let a2 = if a < k { a } else { a + 1 };
                        assert(t[a] == old_deps[a2]);
                    }
                }
                Some((dep.1.cpu, dep.1.memory))
            },
            None => {
                assert(entry_of(self.deployments@, mi) is None);
                assert(forall|k: u64| #[trigger] entry_of(self.deployments@, k) == entry_of(s0.deployments@, k));
                None
            },
        };
        assert(shape == match entry_of(s0.deployments@, mi) {
            Some(dep) => Some((dep.cpu, dep.memory)),
            None => None::<(u8, u8)>,
        });

        // the node
        match self.find_resource(rid) {
            Some(i) => {
                proof { s0.lemma_resource_pos(rid, i as int); }
                let ghost mid = self.resources@;
                self.resources[i].remove_dapp(did);
                proof {
                    crate::pallet::lemma_nodes_relisted(mid, self.resources@, self.resource_rank@, self.resource_index);
                }
                let ghost unbound_node = self.resources@[i as int];
                match shape {
                    Some((cpu, memory)) => {
                        let mut c = self.resources[i].config;
                        if c.release_resource(cpu, memory) {
                            self.set_node_config(i, c);
                        }
                        assert(self.resources@[i as int].config == released_config(unbound_node.config, cpu, memory));
                    },
                    None => {},
                }
                assert(self.resources@[i as int].dapps == unbound_node.dapps);
                assert(s0.resource_pos(rid) == i);
                assert(self.resources@[i as int].config == match entry_of(s0.deployments@, mi) {
                    Some(dep) => released_config(s0.resources@[i as int].config, dep.cpu, dep.memory),
                    None => s0.resources@[i as int].config,
                });
                assert(unbound(s0.resources@[i as int], self.resources@[i as int], did, match entry_of(s0.deployments@, mi) {
                    Some(dep) => released_config(s0.resources@[i as int].config, dep.cpu, dep.memory),
                    None => s0.resources@[i as int].config,
                }));
                proof {
                    let res = self.resources@;
                    assert forall|k: int| 0 <= k < s0.resources@.len() && !s0.node_at(rid, k)
                        implies (#[trigger] res[k]) == s0.resources@[k] by {}
                }
            },
            None => {
                assert(self.resources == s0.resources);
                assert forall|k: int| !s0.node_at(rid, k) by {
                    assert(!self.node_at(rid, k));
                }
            },
        }
        assert(s0.has_node(rid) ==> unbound(s0.resources@[s0.resource_pos(rid)], self.resources@[s0.resource_pos(rid)], did,
            match entry_of(s0.deployments@, mi) {
                Some(dep) => released_config(s0.resources@[s0.resource_pos(rid)].config, dep.cpu, dep.memory),
                None => s0.resources@[s0.resource_pos(rid)].config,
            }));
        let ghost s2 = *self;

        // the name
        match self.owned_name_pos(who, &name) {
            Some((p, q)) => {
                self.remove_owned_name(who, p, q);
                proof {
                    let before = s2.owned_names(who);
                    assert(names_distinct(s2.user_dapps@[p as int].1@));
                    assert forall|y: Seq<u8>| #[trigger] self.owned_names(who).contains(y)
                        <==> (before.contains(y) && y != name@) by {
                        let after = self.owned_names(who);
                        assert(after == before.remove(q as int));
                        if after.contains(y) {
                            let a = choose|a: int| 0 <= a < after.len() && after[a] == y;
                            let a2 = if a < q { a } else { a + 1 };
                            assert(before[a2] == y);
                            assert(a2 != q);
                            assert(before[a2] == s2.user_dapps@[p as int].1@[a2]@);
                            assert(before[q as int] == s2.user_dapps@[p as int].1@[q as int]@);
                        }
                        if before.contains(y) && y != name@ {
                            let a = choose|a: int| 0 <= a < before.len() && before[a] == y;
                            assert(a != q);
                            let a2 = if a < q { a } else { a - 1 };
                            assert(after[a2] == y);
                        }
                    }
                }
            },
            None => {},
        }
        let ghost s3 = *self;

        // the record
        let ghost old_dapps = self.dapps@;
        self.dapps.remove(pos);
        proof {
            let t = self.dapps@;
            assert forall|a: int, b: int| 0 <= a < b < t.len() implies t[a].dapp_index < t[b].dapp_index by {
                let a2 = if a < pos { a } else { a + 1 };
                let b2 = if b < pos { b } else { b + 1 };
                assert(t[a] == old_dapps[a2]);
                assert(t[b] == old_dapps[b2]);
            }
            assert forall|a: int| 0 <= a < t.len() implies t[a].dapp_index < self.dapp_index by {
                let a2 = if a < pos { a } else { a + 1 };
                assert(t[a] == old_dapps[a2]);
            }
            assert(self.resources == s2.resources);
            assert forall|w: AccountId| #[trigger] self.owned_names(w) == s3.owned_names(w) by {}
            assert forall|w: AccountId| #[trigger] self.has_name_entry(w) == s3.has_name_entry(w) by {}
            assert forall|w: AccountId| #[trigger] s2.owned_names(w) == s0.owned_names(w) by {}
            assert forall|w: AccountId| #[trigger] s2.has_name_entry(w) == s0.has_name_entry(w) by {}
            assert forall|w: AccountId| w != who implies #[trigger] self.owned_names(w) == s0.owned_names(w) by {
                assert(self.owned_names(w) == s3.owned_names(w));
                assert(s3.owned_names(w) == s2.owned_names(w));
            }
            assert forall|w: AccountId| #[trigger] self.has_name_entry(w) == s0.has_name_entry(w) by {
                assert(self.has_name_entry(w) == s3.has_name_entry(w));
                assert(s3.has_name_entry(w) == s2.has_name_entry(w));
            }
            assert forall|y: Seq<u8>| #[trigger] self.owned_names(who).contains(y)
                <==> (s0.owned_names(who).contains(y) && y != name@) by {
                assert(self.owned_names(who) == s3.owned_names(who));
                assert(s2.owned_names(who) == s0.owned_names(who));
            }
            if s0.bindings_ok() {
                s0.lemma_teardown_bindings(self, pos as int);
            }
            if s0.names_ok() {
                s0.lemma_teardown_names(self, pos as int);
            }
        }
    }
}

} // verus!
