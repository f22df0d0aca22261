use vstd::prelude::*;
use crate::liveness::{timed_out, timed_out_dapps, timed_out_nodes, check_heartbeat_timeout, check_and_get_heartbeat_timeout, lemma_timed_out_nodes, lemma_timed_out_dapps};
use crate::pallet::{Pallet, Event};
use crate::workloads::is_stop;
use crate::provider::{BlockNumber, ComputingResource, ResourceStatus};

verus! {

impl Pallet {
    /// What the sweep does for timed-out node `rid`: when it exists and its
    /// owner index lists it, it is taken offline as `offline_resource` does
    /// for its owner; otherwise nothing changes.
    pub open spec fn node_offline_step(&self, after: &Pallet, rid: u64, now: BlockNumber) -> bool {
        let owner = self.resources@[self.resource_pos(rid)].account_id;
        if self.has_node(rid) && self.owned_resources(owner).contains(rid) {
            exists|mid: Pallet, failed: Seq<Seq<u8>>| #[trigger] self.taken_offline(&mid, after, rid, owner, failed, now)
        } else {
            *after == *self
        }
    }

    /// `after` follows from `self` by one `timeout_step` per listed id.
    pub open spec fn timeouts_done(&self, after: &Pallet, ids: Seq<u64>) -> bool {
        exists|trace: Seq<Pallet>| trace.len() == ids.len() + 1 && trace[0] == *self
            && trace[ids.len() as int] == *after
            && forall|j: int| 0 <= j < ids.len() ==> #[trigger] trace[j].timeout_step(&trace[j + 1], ids[j])
    }

    /// `after` follows from `self` by one `node_offline_step` per listed id.
    pub open spec fn nodes_offlined(&self, after: &Pallet, ids: Seq<u64>, now: BlockNumber) -> bool {
        exists|steps: Seq<Pallet>| steps.len() == ids.len() + 1 && steps[0] == *self
            && steps[ids.len() as int] == *after
            && forall|j: int| 0 <= j < ids.len() ==> #[trigger] steps[j].node_offline_step(&steps[j + 1], ids[j], now)
    }
}

impl Pallet {
    /// What the cleanup does for workload `id`: when it exists it is torn
    /// down (record, specification, name and binding gone, capacity given
    /// back) and its stop is announced to its node, if that still exists;
    /// otherwise nothing changes.
    pub open spec fn timeout_step(&self, after: &Pallet, id: u64) -> bool {
        if self.has_dapp(id) {
            let pos = self.dapp_pos(id);
            let rid = self.dapps@[pos].resource_index;
            &&& self.torn_down(after, pos)
            &&& self.has_node(rid) ==> {
                &&& after.events@.len() == self.events@.len() + 1
                &&& after.events@.drop_last() == self.events@
                &&& is_stop(after.events@.last(), self.resources@[self.resource_pos(rid)].peer_id@, id)
            }
            &&& !self.has_node(rid) ==> after.events == self.events
        } else {
            *after == *self
        }
    }
}

impl Pallet {
    /// Every workload of `self` is, unchanged, one of `other`.
    pub open spec fn dapps_kept_from(&self, other: &Pallet) -> bool {
        forall|k: int| 0 <= k < self.dapps@.len() ==> other.dapps@.contains(#[trigger] self.dapps@[k])
    }

    /// Destroys the listed workloads, announcing each stop to its node.
    #[verifier::rlimit(40)]
    pub fn deal_timeout_dapps(&mut self, ids: &Vec<u64>)
        requires
            old(self).wf(),
        ensures
            final(self).wf(),
            final(self).dapps_kept_from(old(self)),
            forall|k: int| 0 <= k < final(self).dapps@.len() ==> !ids@.contains(#[trigger] final(self).dapps@[k].dapp_index),
            forall|j: int| 0 <= j < old(self).dapps@.len() && !ids@.contains(#[trigger] old(self).dapps@[j].dapp_index)
                ==> final(self).has_dapp(old(self).dapps@[j].dapp_index),
            final(self).same_node_ids(old(self)),
            old(self).bindings_ok() ==> final(self).bindings_ok(),
            old(self).names_ok() ==> final(self).names_ok(),
            old(self).owners_ok() ==> final(self).owners_ok(),
            old(self).timeouts_done(final(self), ids@),
    {
        let ghost s0 = *self;
        let ghost mut trace: Seq<Pallet> = seq![*self];
        let mut i: usize = 0;
        assert forall|k: int| 0 <= k < self.dapps@.len() implies s0.dapps@.contains(#[trigger] self.dapps@[k]) by {
            assert(s0.dapps@[k] == self.dapps@[k]);
        }
        assert(self.dapps_kept_from(&s0));
        assert forall|j: int| 0 <= j < s0.dapps@.len() implies self.has_dapp(#[trigger] s0.dapps@[j].dapp_index) by {
            assert(self.dapp_at(s0.dapps@[j].dapp_index, j));
        }
        while i < ids.len()
            invariant
                s0 == *old(self),
                self.wf(),
                i <= ids@.len(),
                self.dapps_kept_from(&s0),
                forall|k: int| 0 <= k < self.dapps@.len() ==> !ids@.subrange(0, i as int).contains(#[trigger] self.dapps@[k].dapp_index),
                forall|j: int| 0 <= j < s0.dapps@.len() && !ids@.subrange(0, i as int).contains(#[trigger] s0.dapps@[j].dapp_index)
                    ==> self.has_dapp(s0.dapps@[j].dapp_index),
                self.same_node_ids(&s0),
                s0.bindings_ok() ==> self.bindings_ok(),
                s0.names_ok() ==> self.names_ok(),
                s0.owners_ok() ==> self.owners_ok(),
                trace.len() == i + 1,
                trace[0] == s0,
                trace[i as int] == *self,
                forall|j: int| 0 <= j < i ==> #[trigger] trace[j].timeout_step(&trace[j + 1], ids@[j]),
            decreases ids@.len() - i,
        {
            let id = ids[i];
            let ghost start = *self;
            let ghost done = ids@.subrange(0, i as int);
            let ghost next = ids@.subrange(0, i as int + 1);
            assert forall|x: u64| next.contains(x) <==> (done.contains(x) || x == id) by {
                if x == id { assert(next[i as int] == id); }
                if done.contains(x) {
                    let m = choose|m: int| 0 <= m < done.len() && done[m] == x;
                    assert(next[m] == x);
                }
                if next.contains(x) && x != id {
                    let m = choose|m: int| 0 <= m < next.len() && next[m] == x;
                    assert(done[m] == x);
                }
            }
            match self.find_dapp(id) {
                Some(pos) => {
                    proof { self.lemma_dapp_pos(id, pos as int); }
                    let rid = self.dapps[pos].resource_index;
                    let ghost before = *self;
                    match self.find_resource(rid) {
                        Some(p) => {
                            let peer = self.resources[p].peer_id.clone();
                            self.events.push(Event::StopDApp(peer, id));
                            proof {
                                before.lemma_resource_pos(rid, p as int);
                                assert(self.events@.drop_last() =~= before.events@);
                                assert(is_stop(self.events@.last(), before.resources@[before.resource_pos(rid)].peer_id@, id));
                            }
                        },
                        None => {},
                    }
                    let ghost b1 = *self;
                    assert(b1.dapps == before.dapps && b1.resources == before.resources);
                    proof {
                        if before.bindings_ok() {
                            before.lemma_bindings_kept(&b1);
                        }
                        if before.names_ok() {
                            before.lemma_names_kept(&b1);
                        }
                        if before.owners_ok() {
                            before.lemma_owners_kept(&b1);
                        }
                        if before.owners_ok() {
                            before.lemma_owners_kept(&b1);
                        }
                    }
                    self.clear_downline_dapp_information(pos);
                    proof {
                        before.lemma_torn_down_same_start(&b1, self, pos as int);
                        assert(before.dapp_pos(id) == pos);
                        if before.has_node(rid) {
                            let q = choose|q: int| before.node_at(rid, q);
                            before.lemma_resource_pos(rid, q);
                        }
                        assert(before.timeout_step(self, id));
                        let t = self.dapps@;
                        assert(t == before.dapps@.remove(pos as int));
                        assert forall|k: int| 0 <= k < t.len() implies s0.dapps@.contains(#[trigger] t[k]) by {
                            let k2 = if k < pos { k } else { k + 1 };
                            assert(t[k] == before.dapps@[k2]);
                            assert(before.dapps@.contains(before.dapps@[k2]));
                        }
                        assert forall|k: int| 0 <= k < t.len() implies !next.contains(#[trigger] t[k].dapp_index) by {
                            let k2 = if k < pos { k } else { k + 1 };
                            assert(t[k] == before.dapps@[k2]);
                            if k2 < pos {
                                assert(before.dapps@[k2].dapp_index < before.dapps@[pos as int].dapp_index);
                            } else {
                                assert(before.dapps@[pos as int].dapp_index < before.dapps@[k2].dapp_index);
                            }
                        }
                        assert forall|j: int| 0 <= j < s0.dapps@.len() && !next.contains(#[trigger] s0.dapps@[j].dapp_index)
                            implies self.has_dapp(s0.dapps@[j].dapp_index) by {
                            let x = s0.dapps@[j].dapp_index;
                            assert(before.has_dapp(x));
                            let q = choose|q: int| before.dapp_at(x, q);
                            assert(q != pos);
                            let q2 = if q < pos { q } else { q - 1 };
                            assert(t[q2] == before.dapps@[q]);
                            assert(self.dapp_at(x, q2));
                        }
                        assert(self.same_node_ids(&s0)) by {
                            let rr = before.dapps@[pos as int].resource_index;
                            assert forall|k: int| 0 <= k < self.resources@.len() implies
                                (#[trigger] self.resources@[k]).index == s0.resources@[k].index
                                && self.resources@[k].account_id == s0.resources@[k].account_id
                                && self.resources@[k].status == s0.resources@[k].status
                                && self.resources@[k].last_heartbeat == s0.resources@[k].last_heartbeat by {
                                if b1.node_at(rr, k) {
                                    b1.lemma_resource_pos(rr, k);
                                }
                            }
                        }
                    }
                },
                None => {
                    proof {
                        assert forall|k: int| 0 <= k < self.dapps@.len() implies !next.contains(#[trigger] self.dapps@[k].dapp_index) by {
                            if self.dapps@[k].dapp_index == id {
                                assert(self.dapp_at(id, k));
                            }
                        }
                        assert forall|j: int| 0 <= j < s0.dapps@.len() && !next.contains(#[trigger] s0.dapps@[j].dapp_index)
                            implies self.has_dapp(s0.dapps@[j].dapp_index) by {}
                    }
                },
            }
            proof {
                assert(start.timeout_step(self, id));
                trace = trace.push(*self);
            }
            i = i + 1;
        }
        assert(ids@.subrange(0, ids@.len() as int) =~= ids@);
        assert(trace[ids@.len() as int] == *self);
        assert(s0.timeouts_done(self, ids@));
    }
}


/// Some node of `s` has the id, status and heartbeat of `r`.
pub open spec fn node_like_in(s: Seq<ComputingResource>, r: ComputingResource) -> bool {
    exists|j: int| 0 <= j < s.len() && #[trigger] s[j].index == r.index && s[j].status == r.status
        && s[j].last_heartbeat == r.last_heartbeat
}

impl Pallet {
    /// Takes the listed nodes offline, one after the other, placing their
    /// workloads again elsewhere; each batch of workloads that fit nowhere is
    /// announced.
    #[verifier::rlimit(40)]
    pub fn offline_timed_out(&mut self, ids: &Vec<u64>, now: BlockNumber)
        requires
            old(self).wf(),
            forall|k: int| 0 <= k < old(self).dapps@.len() ==> !timed_out(now, #[trigger] old(self).dapps@[k].last_heartbeat),
        ensures
            final(self).wf(),
            forall|k: int| 0 <= k < final(self).dapps@.len() ==> !timed_out(now, #[trigger] final(self).dapps@[k].last_heartbeat),
            final(self).dapps@.len() == old(self).dapps@.len(),
            forall|k: int| 0 <= k < final(self).dapps@.len() ==> #[trigger] final(self).dapps@[k].dapp_index == old(self).dapps@[k].dapp_index,
            forall|k: int| 0 <= k < final(self).resources@.len() ==> !ids@.contains((#[trigger] final(self).resources@[k]).index)
                || !final(self).owned_resources(final(self).resources@[k].account_id).contains(final(self).resources@[k].index),
            forall|k: int| 0 <= k < final(self).resources@.len() ==> node_like_in(old(self).resources@, #[trigger] final(self).resources@[k]),
            forall|j: int| 0 <= j < old(self).resources@.len() && !ids@.contains(#[trigger] old(self).resources@[j].index)
                ==> final(self).has_node(old(self).resources@[j].index),
            old(self).bindings_ok() ==> final(self).bindings_ok(),
            old(self).names_ok() ==> final(self).names_ok(),
            old(self).owners_ok() ==> final(self).owners_ok(),
            old(self).nodes_offlined(final(self), ids@, now),
    {
        let ghost s0 = *self;
        let ghost mut steps: Seq<Pallet> = seq![*self];
        assert forall|k: int| 0 <= k < self.resources@.len() implies node_like_in(s0.resources@, #[trigger] self.resources@[k]) by {
            assert(s0.resources@[k].index == self.resources@[k].index);
        }
        assert forall|j: int| 0 <= j < s0.resources@.len() implies self.has_node(#[trigger] s0.resources@[j].index) by {
            assert(self.node_at(s0.resources@[j].index, j));
        }
        let mut i: usize = 0;
        while i < ids.len()
            invariant
                s0 == *old(self),
                self.wf(),
                i <= ids@.len(),
                forall|k: int| 0 <= k < self.dapps@.len() ==> !timed_out(now, #[trigger] self.dapps@[k].last_heartbeat),
                self.dapps@.len() == s0.dapps@.len(),
                forall|k: int| 0 <= k < self.dapps@.len() ==> #[trigger] self.dapps@[k].dapp_index == s0.dapps@[k].dapp_index,
                forall|k: int| 0 <= k < self.resources@.len() ==> !ids@.subrange(0, i as int).contains((#[trigger] self.resources@[k]).index)
                    || !self.owned_resources(self.resources@[k].account_id).contains(self.resources@[k].index),
                forall|k: int| 0 <= k < self.resources@.len() ==> node_like_in(s0.resources@, #[trigger] self.resources@[k]),
                forall|j: int| 0 <= j < s0.resources@.len() && !ids@.subrange(0, i as int).contains(#[trigger] s0.resources@[j].index)
                    ==> self.has_node(s0.resources@[j].index),
                s0.bindings_ok() ==> self.bindings_ok(),
                s0.names_ok() ==> self.names_ok(),
                s0.owners_ok() ==> self.owners_ok(),
                steps.len() == i + 1,
                steps[0] == s0,
                steps[i as int] == *self,
                forall|j: int| 0 <= j < i ==> #[trigger] steps[j].node_offline_step(&steps[j + 1], ids@[j], now),
            decreases ids@.len() - i,
        {
            let rid = ids[i];
            let ghost done = ids@.subrange(0, i as int);
            let ghost next = ids@.subrange(0, i as int + 1);
            assert forall|x: u64| next.contains(x) <==> (done.contains(x) || x == rid) by {
                if x == rid { assert(next[i as int] == rid); }
                if done.contains(x) {
                    let m = choose|m: int| 0 <= m < done.len() && done[m] == x;
                    assert(next[m] == x);
                }
                if next.contains(x) && x != rid {
                    let m = choose|m: int| 0 <= m < next.len() && next[m] == x;
                    assert(done[m] == x);
                }
            }
            match self.find_resource(rid) {
                Some(pos) => {
                    proof { self.lemma_resource_pos(rid, pos as int); }
                    let ghost before = *self;
                    let owner = self.resources[pos].account_id;
                    proof { before.lemma_resource_pos(rid, pos as int); }
                    let res_off = self.offline_resource(owner, rid, now);
                    if res_off.is_err() {
                        proof {
                            assert(!before.owned_resources(owner).contains(rid));
                            assert forall|k: int| 0 <= k < self.resources@.len() implies !next.contains((#[trigger] self.resources@[k]).index)
                                || !self.owned_resources(self.resources@[k].account_id).contains(self.resources@[k].index) by {
                                if self.resources@[k].index == rid {
                                    self.lemma_resource_pos(rid, k);
                                }
                            }
                            assert(before.node_offline_step(self, rid, now));
                            steps = steps.push(*self);
                        }
                        i = i + 1;
                        continue;
                    }
                    let ghost pair = choose|mid: Pallet, failed: Seq<Seq<u8>>|
                        #[trigger] before.taken_offline(&mid, self, rid, owner, failed, now);
                    let ghost mid = pair.0;
                    let ghost fv = pair.1;
                    let ghost listed = before.resources@[pos as int].dapps@;
                    proof {
                        assert(before.node_offline_step(self, rid, now));
                        steps = steps.push(*self);
                        let res = self.resources@;
                        assert(mid.resources@ == before.resources@.remove(pos as int));
                        assert forall|k: int| 0 <= k < res.len() implies !next.contains((#[trigger] res[k]).index)
                            || !self.owned_resources(res[k].account_id).contains(res[k].index) by {
                            let k2 = if k < pos { k } else { k + 1 };
                            assert(mid.resources@[k] == before.resources@[k2]);
                            assert(res[k].index == before.resources@[k2].index);
                            assert(res[k].account_id == before.resources@[k2].account_id);
                            if k2 < pos {
                                assert(before.resources@[k2].index < before.resources@[pos as int].index);
                            } else {
                                assert(before.resources@[pos as int].index < before.resources@[k2].index);
                            }
                            let a = res[k].account_id;
                            assert(self.owned_resources(a) == mid.owned_resources(a));
                        }
                        assert forall|k: int| 0 <= k < res.len() implies
                            node_like_in(s0.resources@, #[trigger] res[k]) by {
                            let k2 = if k < pos { k } else { k + 1 };
                            assert(mid.resources@[k] == before.resources@[k2]);
                            assert(res[k].index == before.resources@[k2].index);
                            if k2 < pos {
                                assert(before.resources@[k2].index < before.resources@[pos as int].index);
                            } else {
                                assert(before.resources@[pos as int].index < before.resources@[k2].index);
                            }
                            assert(node_like_in(s0.resources@, before.resources@[k2]));
                            let j = choose|j: int| 0 <= j < s0.resources@.len() && #[trigger] s0.resources@[j].index == before.resources@[k2].index
                                && s0.resources@[j].status == before.resources@[k2].status
                                && s0.resources@[j].last_heartbeat == before.resources@[k2].last_heartbeat;
                            assert(s0.resources@[j].index == res[k].index);
                        }
                        assert forall|j: int| 0 <= j < s0.resources@.len() && !next.contains(#[trigger] s0.resources@[j].index)
                            implies self.has_node(s0.resources@[j].index) by {
                            let x = s0.resources@[j].index;
                            assert(before.has_node(x));
                            let q = choose|q: int| before.node_at(x, q);
                            assert(q != pos);
                            let q2 = if q < pos { q } else { q - 1 };
                            assert(mid.resources@[q2] == before.resources@[q]);
                            assert(self.node_at(x, q2));
                        }
                        assert forall|k: int| 0 <= k < self.dapps@.len() implies
                            !timed_out(now, #[trigger] self.dapps@[k].last_heartbeat)
                            && self.dapps@[k].dapp_index == s0.dapps@[k].dapp_index by {
                            assert(mid.redistributed(self, k, listed, fv, now));
                            assert(mid.dapps@[k] == before.dapps@[k]);
                        }
                        assert forall|k: int| 0 <= k < self.dapps@.len() implies
                            #[trigger] self.dapps@[k].dapp_index == s0.dapps@[k].dapp_index by {
                            assert(mid.redistributed(self, k, listed, fv, now));
                            assert(mid.dapps@[k] == before.dapps@[k]);
                            assert(before.dapps@[k].dapp_index == s0.dapps@[k].dapp_index);
                        }
                    }
                },
                None => {
                    proof {
                        assert(self.node_offline_step(self, rid, now));
                        steps = steps.push(*self);
                        assert forall|k: int| 0 <= k < self.resources@.len() implies !next.contains((#[trigger] self.resources@[k]).index)
                            || !self.owned_resources(self.resources@[k].account_id).contains(self.resources@[k].index) by {
                            if self.resources@[k].index == rid {
                                assert(self.node_at(rid, k));
                            }
                        }
                    }
                },
            }
            i = i + 1;
        }
        assert(ids@.subrange(0, ids@.len() as int) =~= ids@);
        assert(s0.nodes_offlined(self, ids@, now));
    }
}


impl Pallet {
    /// The periodic sweep at epoch `now`: workloads without a heartbeat for
    /// longer than the interval are destroyed; online nodes without one are
    /// taken offline and their workloads placed again elsewhere.
    #[verifier::rlimit(60)]
    pub fn on_initialize(&mut self, now: BlockNumber)
        requires
            old(self).wf(),
        ensures
            final(self).wf(),
            forall|k: int| 0 <= k < final(self).dapps@.len() ==> !timed_out(now, #[trigger] final(self).dapps@[k].last_heartbeat),
            forall|k: int| 0 <= k < final(self).dapps@.len() ==> old(self).has_dapp(#[trigger] final(self).dapps@[k].dapp_index),
            forall|j: int| 0 <= j < old(self).dapps@.len() && !timed_out(now, #[trigger] old(self).dapps@[j].last_heartbeat)
                ==> final(self).has_dapp(old(self).dapps@[j].dapp_index),
            forall|k: int| 0 <= k < final(self).resources@.len() && (#[trigger] final(self).resources@[k]).status == ResourceStatus::Online
                && timed_out(now, final(self).resources@[k].last_heartbeat)
                ==> !final(self).owned_resources(final(self).resources@[k].account_id).contains(final(self).resources@[k].index),
            forall|k: int| 0 <= k < final(self).resources@.len() ==> old(self).has_node(#[trigger] final(self).resources@[k].index),
            forall|j: int| 0 <= j < old(self).resources@.len() && !(#[trigger] old(self).resources@[j].status == ResourceStatus::Online
                && timed_out(now, old(self).resources@[j].last_heartbeat))
                ==> final(self).has_node(old(self).resources@[j].index),
            old(self).bindings_ok() ==> final(self).bindings_ok(),
            old(self).names_ok() ==> final(self).names_ok(),
            old(self).owners_ok() ==> final(self).owners_ok(),
            old(self).owners_ok() ==> forall|k: int| 0 <= k < final(self).resources@.len()
                ==> !((#[trigger] final(self).resources@[k]).status == ResourceStatus::Online
                    && timed_out(now, final(self).resources@[k].last_heartbeat)),
            exists|mid: Pallet| #[trigger] old(self).timeouts_done(&mid, timed_out_dapps(old(self).dapps@, now))
                && mid.nodes_offlined(final(self), timed_out_nodes(mid.resources@, now), now),
    {
        let ghost s0 = *self;
        proof { lemma_timed_out_dapps(s0.dapps@, now); }
        match check_and_get_heartbeat_timeout(now, &self.dapps) {
            Some(ids) => {
                self.deal_timeout_dapps(&ids);
            },
            None => {
                proof {
                    let e = timed_out_dapps(s0.dapps@, now);
                    assert(e.len() == 0);
                    let tr = seq![*self];
                    assert(tr.len() == e.len() + 1 && tr[0] == s0 && tr[e.len() as int] == *self);
                    assert(s0.timeouts_done(self, e));
                }
            },
        }
        let ghost s1 = *self;
        proof {
            assert forall|k: int| 0 <= k < s1.dapps@.len() implies
                !timed_out(now, #[trigger] s1.dapps@[k].last_heartbeat) && s0.has_dapp(s1.dapps@[k].dapp_index) by {
                assert(s0.dapps@.contains(s1.dapps@[k]));
                let j = choose|j: int| 0 <= j < s0.dapps@.len() && s0.dapps@[j] == s1.dapps@[k];
                assert(s0.dapp_at(s1.dapps@[k].dapp_index, j));
                if timed_out(now, s1.dapps@[k].last_heartbeat) {
                    assert(timed_out_dapps(s0.dapps@, now).contains(s1.dapps@[k].dapp_index));
                }
            }
            assert forall|k: int| 0 <= k < s1.dapps@.len() implies s0.has_dapp(#[trigger] s1.dapps@[k].dapp_index) by {
                assert(s0.dapps@.contains(s1.dapps@[k]));
                let j = choose|j: int| 0 <= j < s0.dapps@.len() && s0.dapps@[j] == s1.dapps@[k];
                assert(s0.dapp_at(s1.dapps@[k].dapp_index, j));
            }
            assert forall|j: int| 0 <= j < s0.dapps@.len() && !timed_out(now, #[trigger] s0.dapps@[j].last_heartbeat)
                implies s1.has_dapp(s0.dapps@[j].dapp_index) by {
                let x = s0.dapps@[j].dapp_index;
                if timed_out_dapps(s0.dapps@, now).contains(x) {
                    let i = choose|i: int| 0 <= i < s0.dapps@.len() && s0.dapps@[i].dapp_index == x && timed_out(now, s0.dapps@[i].last_heartbeat);
                    s0.lemma_dapp_pos(x, i);
                    s0.lemma_dapp_pos(x, j);
                }
            }
        }
        proof { lemma_timed_out_nodes(s1.resources@, now); }
        match check_heartbeat_timeout(now, &self.resources) {
            Some(ids) => {
                self.offline_timed_out(&ids, now);
            },
            None => {
                proof {
                    let e = timed_out_nodes(s1.resources@, now);
                    assert(e.len() == 0);
                    let st = seq![*self];
                    assert(st.len() == e.len() + 1 && st[0] == s1 && st[e.len() as int] == *self);
                    assert(s1.nodes_offlined(self, e, now));
                    assert forall|j: int| 0 <= j < s1.resources@.len() implies self.has_node(#[trigger] s1.resources@[j].index) by {
                        assert(self.node_at(s1.resources@[j].index, j));
                    }
                    assert forall|k: int| 0 <= k < self.resources@.len() implies node_like_in(s1.resources@, #[trigger] self.resources@[k]) by {
                        assert(s1.resources@[k].index == self.resources@[k].index);
                    }
                }
            },
        }
        proof {
            let ids = timed_out_nodes(s1.resources@, now);
            assert forall|k: int| 0 <= k < self.dapps@.len() implies old(self).has_dapp(#[trigger] self.dapps@[k].dapp_index) by {
                assert(s1.dapps@[k].dapp_index == self.dapps@[k].dapp_index);
                assert(s0.has_dapp(s1.dapps@[k].dapp_index));
            }
            assert forall|j: int| 0 <= j < s0.dapps@.len() && !timed_out(now, #[trigger] s0.dapps@[j].last_heartbeat)
                implies self.has_dapp(s0.dapps@[j].dapp_index) by {
                let x = s0.dapps@[j].dapp_index;
                assert(s1.has_dapp(x));
                let q = choose|q: int| s1.dapp_at(x, q);
                assert(self.dapps@[q].dapp_index == s1.dapps@[q].dapp_index);
                assert(self.dapp_at(x, q));
            }
            assert forall|k: int| 0 <= k < self.resources@.len() implies
                (self.resources@[k].status == ResourceStatus::Online && timed_out(now, self.resources@[k].last_heartbeat)
                ==> !self.owned_resources(self.resources@[k].account_id).contains(self.resources@[k].index))
                && s0.has_node((#[trigger] self.resources@[k]).index) by {
                let r = self.resources@[k];
                assert(node_like_in(s1.resources@, r));
                let j = choose|j: int| 0 <= j < s1.resources@.len() && #[trigger] s1.resources@[j].index == r.index
                    && s1.resources@[j].status == r.status && s1.resources@[j].last_heartbeat == r.last_heartbeat;
                assert(s0.resources@[j].index == r.index);
                assert(s0.node_at(r.index, j));
                if r.status == ResourceStatus::Online && timed_out(now, r.last_heartbeat) {
                    assert(ids.contains(r.index));
                }
            }
            assert forall|k: int| 0 <= k < self.resources@.len() implies s0.has_node(#[trigger] self.resources@[k].index) by {
                let r = self.resources@[k];
                assert(node_like_in(s1.resources@, r));
                let j = choose|j: int| 0 <= j < s1.resources@.len() && #[trigger] s1.resources@[j].index == r.index
                    && s1.resources@[j].status == r.status && s1.resources@[j].last_heartbeat == r.last_heartbeat;
                assert(s0.resources@[j].index == r.index);
                assert(s0.node_at(r.index, j));
            }
            assert forall|j: int| 0 <= j < s0.resources@.len() && !(#[trigger] s0.resources@[j].status == ResourceStatus::Online
                && timed_out(now, s0.resources@[j].last_heartbeat))
                implies self.has_node(s0.resources@[j].index) by {
                let x = s0.resources@[j].index;
                assert(s1.resources@[j].index == x);
                if ids.contains(x) {
                    let i = choose|i: int| 0 <= i < s1.resources@.len() && s1.resources@[i].index == x
                        && s1.resources@[i].status == ResourceStatus::Online && timed_out(now, s1.resources@[i].last_heartbeat);
                    s1.lemma_resource_pos(x, i);
                    s1.lemma_resource_pos(x, j);
                }
            }
        }
        proof {
            if s0.owners_ok() {
                assert forall|k: int| 0 <= k < self.resources@.len()
                    implies !((#[trigger] self.resources@[k]).status == ResourceStatus::Online
                        && timed_out(now, self.resources@[k].last_heartbeat)) by {
                    assert(self.owned_resources(self.resources@[k].account_id).contains(self.resources@[k].index));
                }
            }
        }
        assert(s0.timeouts_done(&s1, timed_out_dapps(s0.dapps@, now)));
    }
}

} // verus!
