use vstd::prelude::*;
use crate::dapp::{DAppInfo, DappStatus};
use crate::pallet::{Pallet, Event, entry_of, find_key, lemma_ascending_distinct, lemma_entry_at, names_view};
use crate::provider::BlockNumber;
use crate::scheduler::{reserved, bound};
use crate::lifecycle::{is_placement, unbound, released_config};
use crate::sorted::strictly_sorted;

verus! {

impl Pallet {
    /// The workload at `pos` was placed again: on the node that fit its
    /// specification first in rank order, which gave up that shape and now
    /// lists it; it is online with a fresh heartbeat, and the placement is
    /// announced. Nothing else changed.
    pub open spec fn moved(&self, after: &Pallet, pos: int, now: BlockNumber) -> bool {
        let d = self.dapps@[pos];
        let rid = after.dapps@[pos].resource_index;
        let i = self.resource_pos(rid);
        match entry_of(self.deployments@, d.method_index) {
            Some(dep) => {
                &&& self.node_at(rid, i)
                &&& self.best_fit(i, dep.cpu, dep.memory)
                &&& after.resources@.len() == self.resources@.len()
                &&& forall|k: int| 0 <= k < self.resources@.len() && k != i
                    ==> (#[trigger] after.resources@[k]) == self.resources@[k]
                &&& bound(reserved(self.resources@[i], dep.cpu, dep.memory), after.resources@[i], d.dapp_index)
                &&& after.dapps@ == self.dapps@.update(pos,
                    DAppInfo { resource_index: rid, status: DappStatus::Online, last_heartbeat: now, ..d })
                &&& after.events@.len() == self.events@.len() + 1
                &&& after.events@.drop_last() == self.events@
                &&& is_placement(after.events@.last(), self.resources@[i].peer_id@, dep.cpu, dep.memory,
                    dep.method.kind(), dep.method.command(), d.dapp_index)
            },
            None => false,
        }
    }

    /// The workload at `pos` could not be placed: no node fit its
    /// specification (or it has none); it is paused and nothing else changed.
    pub open spec fn paused(&self, after: &Pallet, pos: int) -> bool {
        let d = self.dapps@[pos];
        &&& after.dapps@ == self.dapps@.update(pos, DAppInfo { status: DappStatus::Pause, ..d })
        &&& after.resources == self.resources
        &&& after.resource_rank == self.resource_rank
        &&& after.events == self.events
        &&& match entry_of(self.deployments@, d.method_index) {
            Some(dep) => !self.some_node_fits(dep.cpu, dep.memory),
            None => true,
        }
    }

    /// What redistribution does for workload `id`: when it exists it is taken
    /// off its node, then moved or paused, a pause adding its name to the
    /// failures; otherwise nothing changes.
    pub open spec fn redeal_step(&self, after: &Pallet, id: u64, fb: Seq<Seq<u8>>, fa: Seq<Seq<u8>>, now: BlockNumber) -> bool {
        if self.has_dapp(id) {
            let pos = self.dapp_pos(id);
            exists|mid: Pallet| #[trigger] self.detached(&mid, pos) && mid.wf() && {
                ||| (mid.moved(after, pos, now) && fa == fb)
                ||| (mid.paused(after, pos) && fa == fb.push(self.dapps@[pos].dapp_name@))
            }
        } else {
            *after == *self && fa == fb
        }
    }

    /// `trace` runs from `self` to `after` by one `redeal_step` per listed
    /// id, in order; `fails` records the failures after each step, ending in
    /// `failed`.
    pub open spec fn redeal_trace(
        &self,
        after: &Pallet,
        ids: Seq<u64>,
        failed: Seq<Seq<u8>>,
        now: BlockNumber,
        trace: Seq<Pallet>,
        fails: Seq<Seq<Seq<u8>>>,
    ) -> bool {
        &&& trace.len() == ids.len() + 1
        &&& fails.len() == ids.len() + 1
        &&& trace[0] == *self
        &&& trace[ids.len() as int] == *after
        &&& fails[0] == Seq::<Seq<u8>>::empty()
        &&& fails[ids.len() as int] == failed
        &&& forall|j: int| 0 <= j < ids.len() ==> #[trigger] trace[j].redeal_step(&trace[j + 1], ids[j], fails[j], fails[j + 1], now)
    }

    /// Both have the same nodes at the same positions: ids, owners, status
    /// and heartbeats alike (their load may differ).
    pub open spec fn same_node_ids(&self, other: &Pallet) -> bool {
        &&& self.resources@.len() == other.resources@.len()
        &&& forall|k: int| 0 <= k < self.resources@.len()
            ==> (#[trigger] self.resources@[k]).index == other.resources@[k].index
                && self.resources@[k].account_id == other.resources@[k].account_id
                && self.resources@[k].status == other.resources@[k].status
                && self.resources@[k].last_heartbeat == other.resources@[k].last_heartbeat
    }

    /// Free capacity nowhere exceeds that of `other`.
    pub open spec fn no_more_free(&self, other: &Pallet) -> bool {
        forall|k: int| 0 <= k < self.resources@.len()
            ==> (#[trigger] self.resources@[k]).config.unused_cpu <= other.resources@[k].config.unused_cpu
                && self.resources@[k].config.unused_memory <= other.resources@[k].config.unused_memory
    }

    /// What redistribution did to the workload at position `k` of `self`:
    /// a listed workload is either placed again (online, heartbeat now,
    /// bound to an existing node that lists it) or paused and reported; any
    /// other is unchanged.
    pub open spec fn redistributed(&self, after: &Pallet, k: int, ids: Seq<u64>, failed: Seq<Seq<u8>>, now: BlockNumber) -> bool {
        let d = self.dapps@[k];
        let a = after.dapps@[k];
        if ids.contains(d.dapp_index) {
            ||| {
                &&& a == (DAppInfo { resource_index: a.resource_index, status: DappStatus::Online, last_heartbeat: now, ..d })
                &&& after.has_node(a.resource_index)
                &&& after.resources@[after.resource_pos(a.resource_index)].dapps@.contains(d.dapp_index)
            }
            ||| {
                &&& a == (DAppInfo { resource_index: a.resource_index, status: DappStatus::Pause,
                    last_heartbeat: a.last_heartbeat, ..d })
                &&& (a.last_heartbeat == d.last_heartbeat || a.last_heartbeat == now)
                &&& failed.contains(d.dapp_name@)
            }
        } else {
            a == d
        }
    }

    /// The workload at `pos` is taken off its node, if that exists: the node
    /// no longer lists it and gets the shape of its specification back (when
    /// that much is in use). Nothing else changes.
    pub open spec fn detached(&self, after: &Pallet, pos: int) -> bool {
        let d = self.dapps@[pos];
        let rid = d.resource_index;
        let i = self.resource_pos(rid);
        &&& after.dapps == self.dapps
        &&& after.deployments == self.deployments
        &&& after.user_dapps == self.user_dapps
        &&& after.user_resources == self.user_resources
        &&& after.events == self.events
        &&& after.resource_index == self.resource_index
        &&& after.deployment_index == self.deployment_index
        &&& after.dapp_index == self.dapp_index
        &&& if self.has_node(rid) {
            &&& after.resources@.len() == self.resources@.len()
            &&& forall|k: int| 0 <= k < self.resources@.len() && k != i
                ==> (#[trigger] after.resources@[k]) == self.resources@[k]
            &&& unbound(self.resources@[i], after.resources@[i], d.dapp_index,
                match entry_of(self.deployments@, d.method_index) {
                    Some(dep) => released_config(self.resources@[i].config, dep.cpu, dep.memory),
                    None => self.resources@[i].config,
                })
        } else {
            &&& after.resources == self.resources
            &&& after.resource_rank == self.resource_rank
        }
    }

    /// Pools with the same node ids at the same positions have the same nodes.
    pub proof fn lemma_same_ids_has_node(&self, other: &Pallet, id: u64)
        requires
            self.same_node_ids(other),
        ensures
            self.has_node(id) == other.has_node(id),
            forall|i: int| self.node_at(id, i) == other.node_at(id, i),
    {
        assert forall|i: int| self.node_at(id, i) == other.node_at(id, i) by {}
        if self.has_node(id) {
            let i = choose|i: int| self.node_at(id, i);
            assert(other.node_at(id, i));
        }
        if other.has_node(id) {
            let i = choose|i: int| other.node_at(id, i);
            assert(self.node_at(id, i));
        }
    }

    /// One step of redistribution that leaves workload `k` alone keeps what
    /// was established for it; the nodes may lose workload `skip` only.
    pub proof fn lemma_step_keeps(
        &self,
        before: &Pallet,
        after: &Pallet,
        k: int,
        ids_b: Seq<u64>,
        ids_a: Seq<u64>,
        fb: Seq<Seq<u8>>,
        fa: Seq<Seq<u8>>,
        now: BlockNumber,
        skip: u64,
    )
        requires
            0 <= k < self.dapps@.len(),
            self.redistributed(before, k, ids_b, fb, now),
            ids_a.contains(self.dapps@[k].dapp_index) == ids_b.contains(self.dapps@[k].dapp_index),
            self.dapps@[k].dapp_index != skip,
            after.dapps@[k] == before.dapps@[k],
            before.wf(),
            after.wf(),
            after.same_node_ids(before),
            forall|i: int, y: u64| 0 <= i < before.resources@.len() && #[trigger] before.resources@[i].dapps@.contains(y) && y != skip
                ==> after.resources@[i].dapps@.contains(y),
            forall|x: Seq<u8>| fb.contains(x) ==> fa.contains(x),
        ensures
            self.redistributed(after, k, ids_a, fa, now),
    {
        let d = self.dapps@[k];
        let a = after.dapps@[k];
        if ids_a.contains(d.dapp_index) {
            if before.has_node(a.resource_index) && a.status == DappStatus::Online {
                let i = before.resource_pos(a.resource_index);
                assert(before.node_at(a.resource_index, i));
                before.lemma_resource_pos(a.resource_index, i);
                assert(after.node_at(a.resource_index, i));
                after.lemma_resource_pos(a.resource_index, i);
                assert(before.resources@[i].dapps@.contains(d.dapp_index));
            }
        }
    }

    /// Takes the workload at `pos` off its node, if that exists, and gives
    /// the node the shape of the workload's specification back.
    pub fn detach_dapp(&mut self, pos: usize)
        requires
            old(self).wf(),
            pos < old(self).dapps@.len(),
        ensures
            final(self).wf(),
            old(self).detached(final(self), pos as int),
            final(self).same_node_ids(old(self)),
            forall|i: int, y: u64| 0 <= i < old(self).resources@.len() && #[trigger] old(self).resources@[i].dapps@.contains(y)
                && y != old(self).dapps@[pos as int].dapp_index ==> final(self).resources@[i].dapps@.contains(y),
    {
        let did = self.dapps[pos].dapp_index;
        let rid = self.dapps[pos].resource_index;
        let mi = self.dapps[pos].method_index;
        proof { lemma_ascending_distinct(self.deployments@, self.deployment_index); }
        let shape: Option<(u8, u8)> = match find_key(&self.deployments, mi) {
            Some(k) => {
                proof { lemma_entry_at(self.deployments@, mi, k as int); }
                Some((self.deployments[k].1.cpu, self.deployments[k].1.memory))
            },
            None => {
                assert(entry_of(self.deployments@, mi) is None);
                None
            },
        };
        match self.find_resource(rid) {
            Some(i) => {
                proof { self.lemma_resource_pos(rid, i as int); }
                let ghost mid = self.resources@;
                self.resources[i].remove_dapp(did);
                proof {
                    crate::pallet::lemma_nodes_relisted(mid, self.resources@, self.resource_rank@, self.resource_index);
                }
                let ghost unbound_node = self.resources@[i as int];
                match shape {
                    Some((cpu, memory)) => {
                        let mut c = self.resources[i].config;
                        if c.release_resource(cpu, memory) {
                            self.set_node_config(i, c);
                        }
                        assert(self.resources@[i as int].config == released_config(unbound_node.config, cpu, memory));
                    },
                    None => {},
                }
                assert(self.resources@[i as int].dapps == unbound_node.dapps);
                assert(old(self).detached(self, pos as int));
            },
            None => {},
        }
    }

    /// Places the workload at `pos` on the node with the least free capacity
    /// that fits its specification; when none does (or its specification is
    /// missing) pauses it and returns its name.
    #[verifier::rlimit(40)]
    pub fn place_again(&mut self, pos: usize, now: BlockNumber) -> (r: Option<Vec<u8>>)
        requires
            old(self).wf(),
            pos < old(self).dapps@.len(),
        ensures
            final(self).wf(),
            final(self).dapps@.len() == old(self).dapps@.len(),
            forall|k: int| 0 <= k < old(self).dapps@.len() && k != pos ==> #[trigger] final(self).dapps@[k] == old(self).dapps@[k],
            final(self).same_node_ids(old(self)),
            final(self).no_more_free(old(self)),
            forall|i: int, y: u64| 0 <= i < old(self).resources@.len() && #[trigger] old(self).resources@[i].dapps@.contains(y)
                ==> final(self).resources@[i].dapps@.contains(y),
            final(self).resource_index == old(self).resource_index,
            final(self).user_resources == old(self).user_resources,
            final(self).deployment_index == old(self).deployment_index,
            final(self).deployments == old(self).deployments,
            final(self).dapp_index == old(self).dapp_index,
            final(self).user_dapps == old(self).user_dapps,
            final(self).events@.len() >= old(self).events@.len(),
            final(self).events@.subrange(0, old(self).events@.len() as int) == old(self).events@,
            ({
                let d = old(self).dapps@[pos as int];
                let a = final(self).dapps@[pos as int];
                match r {
                    None => {
                        &&& a == (DAppInfo { resource_index: a.resource_index, status: DappStatus::Online, last_heartbeat: now, ..d })
                        &&& final(self).has_node(a.resource_index)
                        &&& final(self).resources@[final(self).resource_pos(a.resource_index)].dapps@.contains(d.dapp_index)
                    },
                    Some(name) => {
                        &&& name@ == d.dapp_name@
                        &&& a == (DAppInfo { status: DappStatus::Pause, ..d })
                        &&& match entry_of(old(self).deployments@, d.method_index) {
                            Some(dep) => !final(self).some_node_fits(dep.cpu, dep.memory),
                            None => true,
                        }
                    },
                }
            }),
            r is None ==> old(self).moved(final(self), pos as int, now),
            r is Some ==> old(self).paused(final(self), pos as int),
    {
        let ghost before = *self;
        let id = self.dapps[pos].dapp_index;
        proof { lemma_ascending_distinct(self.deployments@, self.deployment_index); }
            let mi = self.dapps[pos].method_index;
            let mut placed: bool = false;
            match find_key(&self.deployments, mi) {
                Some(di) => {
                    let cpu = self.deployments[di].1.cpu;
                    let memory = self.deployments[di].1.memory;
                    proof { lemma_entry_at(self.deployments@, mi, di as int); }
                    let ghost b1 = *self;
                    match self.allocate_resource_node(cpu, memory) {
                        Some(rid) => {
                            let ghost b2 = *self;
                            proof {
                                let i = b1.resource_pos(rid);
                                assert(b2.no_more_free(&before)) by {
                                    assert forall|k: int| 0 <= k < b2.resources@.len() implies
                                        (#[trigger] b2.resources@[k]).config.unused_cpu <= before.resources@[k].config.unused_cpu
                                        && b2.resources@[k].config.unused_memory <= before.resources@[k].config.unused_memory by {
                                        if k == i {
                                            assert(b2.resources@[k] == reserved(b1.resources@[k], cpu, memory));
                                        }
                                    }
                                }
                                assert forall|k: int, y: u64| 0 <= k < before.resources@.len() && #[trigger] before.resources@[k].dapps@.contains(y)
                                    implies b2.resources@[k].dapps@.contains(y) by {
                                    if k == i {
                                        assert(b2.resources@[k] == reserved(b1.resources@[k], cpu, memory));
                                    }
                                }
                            }
                            let p = match self.find_resource(rid) {
                                Some(p) => p,
                                None => {
                                    proof {
                                        let i = b1.resource_pos(rid);
                                        assert(self.node_at(rid, i));
                                        assert(false);
                                    }
                                    return None;
                                },
                            };
                            self.resources[p].add_dapp(id);
                            proof {
                    crate::pallet::lemma_nodes_relisted(b2.resources@, self.resources@, self.resource_rank@, self.resource_index);
                }
                            self.dapps[pos].resource_index = rid;
                            self.dapps[pos].status = DappStatus::Online;
                            self.dapps[pos].last_heartbeat = now;
                            let (kind, command) = self.deployments[di].1.method.kind_and_command();
                            let peer = self.resources[p].peer_id.clone();
                            let ghost ev = self.events@;
                            self.events.push(Event::DeploymentDApp(peer, cpu, memory, kind, command, id));
                            assert(self.events@.subrange(0, before.events@.len() as int) =~= ev.subrange(0, before.events@.len() as int));
                            placed = true;
                            proof {
                                self.lemma_resource_pos(rid, p as int);
                                assert(self.resources@[p as int].dapps@.contains(id));
                                assert(self.node_at(rid, p as int));
                                assert(self.has_node(rid));
                                assert(self.no_more_free(&before)) by {
                                    assert forall|k: int| 0 <= k < self.resources@.len() implies
                                        (#[trigger] self.resources@[k]).config.unused_cpu <= before.resources@[k].config.unused_cpu
                                        && self.resources@[k].config.unused_memory <= before.resources@[k].config.unused_memory by {
                                        assert(b2.resources@[k].config.unused_cpu <= before.resources@[k].config.unused_cpu);
                                    }
                                }
                                assert forall|k: int, y: u64| 0 <= k < before.resources@.len() && #[trigger] before.resources@[k].dapps@.contains(y)
                                    implies self.resources@[k].dapps@.contains(y) by {
                                    assert(b2.resources@[k].dapps@.contains(y));
                                }
                                assert(self.same_node_ids(&before));
                                assert(self.dapps@[pos as int] == (DAppInfo { resource_index: rid, status: DappStatus::Online, last_heartbeat: now, ..before.dapps@[pos as int] }));
                                assert(b1 == before);
                                b1.lemma_resource_pos(rid, p as int);
                                assert(self.dapps@ =~= before.dapps@.update(pos as int,
                                    DAppInfo { resource_index: rid, status: DappStatus::Online, last_heartbeat: now, ..before.dapps@[pos as int] }));
                                assert(self.events@.drop_last() =~= before.events@);
                                assert forall|k: int| 0 <= k < before.resources@.len() && k != p
                                    implies (#[trigger] self.resources@[k]) == before.resources@[k] by {
                                    assert(b2.resources@[k] == b1.resources@[k]);
                                }
                                assert(b2.resources@[p as int] == reserved(b1.resources@[p as int], cpu, memory));
                                assert(bound(reserved(before.resources@[p as int], cpu, memory), self.resources@[p as int], id));
                                assert(before.moved(self, pos as int, now));
                            }
                        },
                        None => {},
                    }
                },
                None => {},
            }
        if !placed {
                proof {
                    assert(self.resources == before.resources);
                    match entry_of(before.deployments@, before.dapps@[pos as int].method_index) {
                        Some(dep) => {
                            assert(!self.some_node_fits(dep.cpu, dep.memory)) by {
                                if self.some_node_fits(dep.cpu, dep.memory) {
                                    let i = choose|i: int| 0 <= i < self.resources@.len() && self.resources@[i].config.fits(dep.cpu, dep.memory);
                                    assert(before.resources@[i].config.fits(dep.cpu, dep.memory));
                                }
                            }
                        },
                        None => {},
                    }
                }
                let ghost unmoved = *self;
                self.dapps[pos].status = DappStatus::Pause;
                let name = self.dapps[pos].dapp_name.clone();
                proof {
                    assert(unmoved == before);
                    assert(self.dapps@ =~= before.dapps@.update(pos as int, DAppInfo { status: DappStatus::Pause, ..before.dapps@[pos as int] }));
                    assert(before.paused(self, pos as int));
                }
                return Some(name);
            }
        None
    }

    /// Takes the workload at `pos` off its node, if that exists, then places
    /// it again as `place_again` does; returns its name when it is paused.
    pub fn redeal_one(&mut self, pos: usize, now: BlockNumber) -> (r: Option<Vec<u8>>)
        requires
            old(self).wf(),
            pos < old(self).dapps@.len(),
        ensures
            final(self).wf(),
            final(self).dapps@.len() == old(self).dapps@.len(),
            forall|k: int| 0 <= k < old(self).dapps@.len() && k != pos ==> #[trigger] final(self).dapps@[k] == old(self).dapps@[k],
            final(self).same_node_ids(old(self)),
            forall|i: int, y: u64| 0 <= i < old(self).resources@.len() && #[trigger] old(self).resources@[i].dapps@.contains(y)
                && y != old(self).dapps@[pos as int].dapp_index ==> final(self).resources@[i].dapps@.contains(y),
            final(self).resource_index == old(self).resource_index,
            final(self).user_resources == old(self).user_resources,
            final(self).deployment_index == old(self).deployment_index,
            final(self).deployments == old(self).deployments,
            final(self).dapp_index == old(self).dapp_index,
            final(self).user_dapps == old(self).user_dapps,
            final(self).events@.len() >= old(self).events@.len(),
            final(self).events@.subrange(0, old(self).events@.len() as int) == old(self).events@,
            ({
                let d = old(self).dapps@[pos as int];
                let a = final(self).dapps@[pos as int];
                match r {
                    None => {
                        &&& a == (DAppInfo { resource_index: a.resource_index, status: DappStatus::Online, last_heartbeat: now, ..d })
                        &&& final(self).has_node(a.resource_index)
                        &&& final(self).resources@[final(self).resource_pos(a.resource_index)].dapps@.contains(d.dapp_index)
                    },
                    Some(name) => {
                        &&& name@ == d.dapp_name@
                        &&& a == (DAppInfo { status: DappStatus::Pause, ..d })
                    },
                }
            }),
            exists|mid: Pallet| #[trigger] old(self).detached(&mid, pos as int) && mid.wf()
                && (r is None ==> mid.moved(final(self), pos as int, now))
                && (r is Some ==> mid.paused(final(self), pos as int)),
    {
        let ghost start = *self;
        self.detach_dapp(pos);
        let ghost mid = *self;
        let r = self.place_again(pos, now);
        proof {
            assert(start.detached(&mid, pos as int));
            assert forall|k: int| 0 <= k < self.resources@.len() implies
                (#[trigger] self.resources@[k]).index == start.resources@[k].index
                && self.resources@[k].account_id == start.resources@[k].account_id
                && self.resources@[k].status == start.resources@[k].status
                && self.resources@[k].last_heartbeat == start.resources@[k].last_heartbeat by {
                assert(mid.resources@[k].index == start.resources@[k].index);
            }
            assert forall|i: int, y: u64| 0 <= i < start.resources@.len() && #[trigger] start.resources@[i].dapps@.contains(y)
                && y != start.dapps@[pos as int].dapp_index implies self.resources@[i].dapps@.contains(y) by {
                assert(mid.resources@[i].dapps@.contains(y));
            }
            assert(self.events@.subrange(0, start.events@.len() as int) == start.events@);
        }
        r
    }

    /// One redistribution step for workload `id` (at `pos`, if any) keeps
    /// the other bindings and moves `id` out of the exceptions.
    pub proof fn lemma_except_step(&self, after: &Pallet, sb: Seq<u64>, sa: Seq<u64>, id: u64, pos: int)
        requires
            self.wf(),
            after.wf(),
            self.bindings_ok_except(sb),
            forall|x: u64| sb.contains(x) && x != id ==> sa.contains(x),
            after.dapps@.len() == self.dapps@.len(),
            forall|k: int| 0 <= k < self.dapps@.len() && k != pos ==> #[trigger] after.dapps@[k] == self.dapps@[k],
            forall|k: int| 0 <= k < self.dapps@.len() && #[trigger] self.dapps@[k].dapp_index == id ==> k == pos,
            after.same_node_ids(self),
            forall|i: int, y: u64| 0 <= i < self.resources@.len() && #[trigger] self.resources@[i].dapps@.contains(y) && y != id
                ==> after.resources@[i].dapps@.contains(y),
            0 <= pos < after.dapps@.len() && after.dapps@[pos].status == DappStatus::Online ==> after.bound_at(pos),
        ensures
            after.bindings_ok_except(sa),
    {
        assert forall|k: int| 0 <= k < after.dapps@.len() && (#[trigger] after.dapps@[k]).status == DappStatus::Online
            implies after.bound_at(k) || (sa.contains(after.dapps@[k].dapp_index) && !after.has_node(after.dapps@[k].resource_index)) by {
            if k != pos {
                assert(after.dapps@[k] == self.dapps@[k]);
                if self.bound_at(k) {
                    assert(self.dapps@[k].dapp_index != id);
                    self.lemma_bound_kept_but(after, k, k, id);
                } else {
                    assert(self.dapps@[k].dapp_index != id);
                    after.lemma_same_ids_has_node(self, self.dapps@[k].resource_index);
                }
            }
        }
    }

    /// Places again, one after the other, the listed workloads: each is taken
    /// off its node (if that still exists, which gets its shape back) and put
    /// on the node with the least free capacity that fits it. Returns, in
    /// order, the names of those that no node could take, which are left
    /// paused.
    pub fn re_deal_dapps(&mut self, ids: &Vec<u64>, now: BlockNumber) -> (failed: Vec<Vec<u8>>)
        requires
            old(self).wf(),
        ensures
            exists|trace: Seq<Pallet>, fails: Seq<Seq<Seq<u8>>>|
                #[trigger] old(self).redeal_trace(final(self), ids@, names_view(failed@), now, trace, fails),
            final(self).wf(),
            final(self).dapps@.len() == old(self).dapps@.len(),
            forall|k: int| 0 <= k < old(self).dapps@.len()
                ==> #[trigger] old(self).redistributed(final(self), k, ids@, names_view(failed@), now),
            final(self).same_node_ids(old(self)),
            final(self).resource_index == old(self).resource_index,
            final(self).user_resources == old(self).user_resources,
            final(self).deployment_index == old(self).deployment_index,
            final(self).deployments == old(self).deployments,
            final(self).dapp_index == old(self).dapp_index,
            final(self).user_dapps == old(self).user_dapps,
            final(self).events@.len() >= old(self).events@.len(),
            final(self).events@.subrange(0, old(self).events@.len() as int) == old(self).events@,
            old(self).bindings_ok_except(ids@) ==> final(self).bindings_ok(),
            old(self).names_ok() ==> final(self).names_ok(),
            old(self).owners_ok() ==> final(self).owners_ok(),
    {
        let mut failed: Vec<Vec<u8>> = Vec::new();
        let ghost s0 = *self;
        proof { lemma_ascending_distinct(self.deployments@, self.deployment_index); }
        let mut j: usize = 0;
        assert(ids@.subrange(0, ids@.len() as int) =~= ids@);
        let ghost mut trace: Seq<Pallet> = seq![*self];
        let ghost mut fails: Seq<Seq<Seq<u8>>> = seq![Seq::<Seq<u8>>::empty()];
        assert(names_view(failed@) =~= Seq::<Seq<u8>>::empty());
        while j < ids.len()
            invariant
                s0 == *old(self),
                s0.wf(),
                self.wf(),
                j <= ids@.len(),
                self.dapps@.len() == s0.dapps@.len(),
                forall|k: int| 0 <= k < s0.dapps@.len()
                    ==> #[trigger] s0.redistributed(self, k, ids@.subrange(0, j as int), names_view(failed@), now),
                self.same_node_ids(&s0),
                self.resource_index == s0.resource_index,
                self.user_resources == s0.user_resources,
                self.deployment_index == s0.deployment_index,
                self.deployments == s0.deployments,
                self.dapp_index == s0.dapp_index,
                self.user_dapps == s0.user_dapps,
                self.events@.len() >= s0.events@.len(),
                self.events@.subrange(0, s0.events@.len() as int) == s0.events@,
                s0.bindings_ok_except(ids@) ==> self.bindings_ok_except(ids@.subrange(j as int, ids@.len() as int)),
                trace.len() == j + 1,
                fails.len() == j + 1,
                trace[0] == s0,
                trace[j as int] == *self,
                fails[0] == Seq::<Seq<u8>>::empty(),
                fails[j as int] == names_view(failed@),
                forall|m: int| 0 <= m < j ==> #[trigger] trace[m].redeal_step(&trace[m + 1], ids@[m], fails[m], fails[m + 1], now),
            decreases ids@.len() - j,
        {
            let id = ids[j];
            let ghost before = *self;
            let ghost failed_before = names_view(failed@);
            let ghost done = ids@.subrange(0, j as int);
            let ghost next = ids@.subrange(0, j as int + 1);
            let ghost sb = ids@.subrange(j as int, ids@.len() as int);
            let ghost sa = ids@.subrange(j as int + 1, ids@.len() as int);
            assert forall|x: u64| sb.contains(x) && x != id implies sa.contains(x) by {
                let m = choose|m: int| 0 <= m < sb.len() && sb[m] == x;
                assert(m != 0);
                assert(sa[m - 1] == x);
            }
            assert(next =~= done.push(id));
            assert(forall|x: u64| next.contains(x) <==> (done.contains(x) || x == id)) by {
                assert forall|x: u64| next.contains(x) <==> (done.contains(x) || x == id) by {
                    if x == id { assert(next[j as int] == id); }
                    if done.contains(x) {
                        let m = choose|m: int| 0 <= m < done.len() && done[m] == x;
                        assert(next[m] == x);
                    }
                    if next.contains(x) && x != id {
                        let m = choose|m: int| 0 <= m < next.len() && next[m] == x;
                        assert(done[m] == x);
                    }
                }
            }
            let pos = match self.find_dapp(id) {
                Some(pos) => pos,
                None => {
                    proof {
                        assert forall|k: int| 0 <= k < s0.dapps@.len()
                            implies #[trigger] s0.redistributed(self, k, next, names_view(failed@), now) by {
                            assert(s0.redistributed(self, k, done, names_view(failed@), now));
                            assert(self.dapps@[k].dapp_index == s0.dapps@[k].dapp_index);
                            if s0.dapps@[k].dapp_index == id {
                                assert(self.dapp_at(id, k));
                            }
                        }
                        if s0.bindings_ok_except(ids@) {
                            assert forall|k: int| 0 <= k < self.dapps@.len() && #[trigger] self.dapps@[k].dapp_index == id implies k == -1 by {
                                assert(self.dapp_at(id, k));
                            }
                            self.lemma_except_step(self, sb, sa, id, -1);
                        }
                    }
                    proof {
                        assert(!before.has_dapp(id));
                        assert(before.redeal_step(self, id, failed_before, names_view(failed@), now));
                        trace = trace.push(*self);
                        fails = fails.push(names_view(failed@));
                    }
                    j = j + 1;
                    continue;
                },
            };
            proof { self.lemma_dapp_pos(id, pos as int); }
            let ghost d_before = self.dapps@[pos as int];
            let outcome = self.redeal_one(pos, now);
            let placed = outcome.is_none();
            let ghost m = choose|mid: Pallet| #[trigger] before.detached(&mid, pos as int) && mid.wf()
                && (outcome is None ==> mid.moved(self, pos as int, now))
                && (outcome is Some ==> mid.paused(self, pos as int));
            match outcome {
                Some(name) => {
                    failed.push(name);
                    proof {
                        let fa = names_view(failed@);
                        assert(fa[fa.len() - 1] == d_before.dapp_name@);
                    }
                },
                None => {},
            }
            proof {
                let fa = names_view(failed@);
                assert forall|x: Seq<u8>| failed_before.contains(x) implies fa.contains(x) by {
                    let m = choose|m: int| 0 <= m < failed_before.len() && failed_before[m] == x;
                    assert(fa[m] == x);
                }
                assert forall|k: int| 0 <= k < s0.dapps@.len()
                    implies #[trigger] s0.redistributed(self, k, next, fa, now) by {
                    assert(s0.redistributed(&before, k, done, failed_before, now));
                    if k != pos {
                        assert(self.dapps@[k].dapp_index != id) by {
                            if k < pos {
                                assert(self.dapps@[k].dapp_index < self.dapps@[pos as int].dapp_index);
                            } else {
                                assert(self.dapps@[pos as int].dapp_index < self.dapps@[k].dapp_index);
                            }
                        }
                        assert(s0.dapps@[k].dapp_index == before.dapps@[k].dapp_index);
                        s0.lemma_step_keeps(&before, self, k, done, next, failed_before, fa, now, id);
                    } else {
                        let d = s0.dapps@[k];
                        let bd = before.dapps@[k];
                        assert(bd.dapp_index == d.dapp_index && bd.account == d.account && bd.dapp_name == d.dapp_name
                            && bd.method_index == d.method_index);
                        assert(bd.last_heartbeat == d.last_heartbeat || bd.last_heartbeat == now);
                        if !placed {
                            assert(fa.contains(d_before.dapp_name@));
                        }
                    }
                }
            }
            proof {
                if s0.bindings_ok_except(ids@) {
                    assert forall|k: int| 0 <= k < before.dapps@.len() && #[trigger] before.dapps@[k].dapp_index == id implies k == pos by {
                        before.lemma_dapp_pos(id, k);
                    }
                    if self.dapps@[pos as int].status == DappStatus::Online {
                        assert(outcome is None);
                    }
                    before.lemma_except_step(self, sb, sa, id, pos as int);
                }
            }
            proof {
                assert(before.dapp_pos(id) == pos);
                assert(before.has_dapp(id));
                assert(before.detached(&m, pos as int));
                if placed {
                    assert(names_view(failed@) =~= failed_before);
                } else {
                    assert(names_view(failed@) =~= failed_before.push(before.dapps@[pos as int].dapp_name@));
                }
                assert(before.redeal_step(self, id, failed_before, names_view(failed@), now));
                trace = trace.push(*self);
                fails = fails.push(names_view(failed@));
            }
            j = j + 1;
        }
        assert(ids@.subrange(ids@.len() as int, ids@.len() as int) =~= Seq::<u64>::empty());
        proof {
            if s0.names_ok() {
                assert forall|k: int| 0 <= k < s0.dapps@.len() implies (#[trigger] self.dapps@[k]).account == s0.dapps@[k].account
                    && self.dapps@[k].dapp_name@ == s0.dapps@[k].dapp_name@ by {
                    assert(s0.redistributed(self, k, ids@, names_view(failed@), now));
                }
                s0.lemma_names_kept(self);
            }
            assert(s0.redeal_trace(self, ids@, names_view(failed@), now, trace, fails));
        }
        failed
    }
}

} // verus!
