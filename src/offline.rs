use vstd::prelude::*;
use crate::pallet::{Pallet, Error, Event, key_at, keys_distinct, entry_of, lemma_entry_at, find_key, names_view, rank_entry, rank_matches};
use crate::provider::{AccountId, BlockNumber};
use crate::rank::rank_remove_id;
use crate::registry::contains_id;
use crate::sorted::{strictly_sorted, sorted_remove};

verus! {

impl Pallet {
    /// What removing node `rid` on behalf of `who` leaves: the node, its rank
    /// entry and its place among the nodes of `who` are gone; nothing else
    /// changed.
    pub open spec fn cleared(&self, after: &Pallet, rid: u64, who: AccountId) -> bool {
        &&& after.resources@ == self.resources@.remove(self.resource_pos(rid))
        &&& forall|x: (u64, u64)| #[trigger] after.resource_rank@.contains(x)
            <==> (self.resource_rank@.contains(x) && x.1 != rid)
        &&& forall|y: u64| #[trigger] after.owned_resources(who).contains(y)
            <==> (self.owned_resources(who).contains(y) && y != rid)
        &&& forall|w: AccountId| w != who ==> #[trigger] after.owned_resources(w) == self.owned_resources(w)
        &&& after.resource_index == self.resource_index
        &&& after.deployment_index == self.deployment_index
        &&& after.deployments == self.deployments
        &&& after.dapp_index == self.dapp_index
        &&& after.dapps == self.dapps
        &&& after.user_dapps == self.user_dapps
        &&& after.events == self.events
    }

    /// Removes node `resource_index` from the rank, from the nodes of `who`
    /// and from the node table; false (and no change) when it does not exist
    /// or `who` does not list it, the owner index being inconsistent then.
    #[verifier::rlimit(40)]
    pub fn clear_downline_resource_information(&mut self, resource_index: u64, who: AccountId) -> (r: bool)
        requires
            old(self).wf(),
        ensures
            final(self).wf(),
            r == (old(self).has_node(resource_index) && old(self).owned_resources(who).contains(resource_index)),
            !r ==> *final(self) == *old(self),
            r ==> old(self).cleared(final(self), resource_index, who),
            r ==> !final(self).has_node(resource_index),
            old(self).names_ok() ==> final(self).names_ok(),
            old(self).owners_ok() ==> final(self).owners_ok(),
            r && old(self).bindings_ok() ==> final(self).bindings_ok_except(
                old(self).resources@[old(self).resource_pos(resource_index)].dapps@),
    {
        let pos = match self.find_resource(resource_index) {
            Some(pos) => pos,
            None => return false,
        };
        proof { self.lemma_resource_pos(resource_index, pos as int); }
        let p = match find_key(&self.user_resources, who) {
            Some(p) => p,
            None => {
                assert(entry_of(self.user_resources@, who) is None);
                return false;
            },
        };
        proof { lemma_entry_at(self.user_resources@, who, p as int); }
        if !contains_id(&self.user_resources[p].1, resource_index) {
            return false;
        }
        let ghost s0 = *self;
        rank_remove_id(&mut self.resource_rank, resource_index);
        let ghost old_owners = self.user_resources@;
        proof { lemma_entry_at(old_owners, who, p as int); }
        sorted_remove(&mut self.user_resources[p].1, resource_index);
        proof {
            let s = self.user_resources@;
            assert forall|i: int| 0 <= i < s.len() implies strictly_sorted((#[trigger] s[i]).1@) by {
                if i != p { assert(s[i] == old_owners[i]); }
            }
            assert(keys_distinct(s)) by {
                assert forall|i: int, j: int| 0 <= i < s.len() && 0 <= j < s.len() && i != j implies s[i].0 != s[j].0 by {
                    assert(s[i].0 == old_owners[i].0);
                    assert(s[j].0 == old_owners[j].0);
                }
            }
            lemma_entry_at(s, who, p as int);
            assert forall|w: AccountId| w != who implies entry_of(s, w) == entry_of(old_owners, w) by {
                if exists|i: int| key_at(old_owners, w, i) {
                    let q = choose|i: int| key_at(old_owners, w, i);
                    lemma_entry_at(old_owners, w, q);
                    assert(key_at(s, w, q));
                    lemma_entry_at(s, w, q);
                } else {
                    assert forall|i: int| !key_at(s, w, i) by {
                        if key_at(s, w, i) { assert(key_at(old_owners, w, i)); }
                    }
                }
            }
        }
        let ghost mid = self.resources@;
        self.resources.remove(pos);
        proof {
            let res = self.resources@;
            let rank = self.resource_rank@;
            let old_res = s0.resources@;
            assert forall|a: int, b: int| 0 <= a < b < res.len() implies res[a].index < res[b].index by {
                let a2 = if a < pos { a } else { a + 1 };
                let b2 = if b < pos { b } else { b + 1 };
                assert(res[a] == old_res[a2]);
                assert(res[b] == old_res[b2]);
            }
            assert forall|a: int| 0 <= a < res.len() implies res[a].index < self.resource_index by {
                let a2 = if a < pos { a } else { a + 1 };
                assert(res[a] == old_res[a2]);
            }
            assert forall|a: int| 0 <= a < res.len() implies (#[trigger] res[a]).config.wf() by {
                let a2 = if a < pos { a } else { a + 1 };
                assert(res[a] == old_res[a2]);
                assert(old_res[a2].config.wf());
            }
            assert forall|a: int| 0 <= a < res.len() implies strictly_sorted((#[trigger] res[a]).dapps@) by {
                let a2 = if a < pos { a } else { a + 1 };
                assert(res[a] == old_res[a2]);
                assert(strictly_sorted(old_res[a2].dapps@));
            }
            assert forall|a: int| 0 <= a < res.len() implies rank.contains(#[trigger] rank_entry(res[a])) by {
                let a2 = if a < pos { a } else { a + 1 };
                assert(res[a] == old_res[a2]);
                assert(s0.resource_rank@.contains(rank_entry(old_res[a2])));
                if a2 < pos {
                    assert(old_res[a2].index < old_res[pos as int].index);
                } else {
                    assert(old_res[pos as int].index < old_res[a2].index);
                }
            }
            assert forall|x: (u64, u64)| #[trigger] rank.contains(x) implies exists|a: int| 0 <= a < res.len() && x == rank_entry(res[a]) by {
                let q = choose|q: int| 0 <= q < old_res.len() && x == rank_entry(old_res[q]);
                assert(q != pos);
                let a = if q < pos { q } else { q - 1 };
                assert(res[a] == old_res[q]);
            }
            assert(rank_matches(rank, res));
            assert(res =~= old_res.remove(pos as int));
            assert forall|k: int| !self.node_at(resource_index, k) by {
                if self.node_at(resource_index, k) {
                    let k2 = if k < pos { k } else { k + 1 };
                    assert(old_res[k2] == res[k]);
                    if k2 < pos {
                        assert(old_res[k2].index < old_res[pos as int].index);
                    } else {
                        assert(old_res[pos as int].index < old_res[k2].index);
                    }
                }
            }
            if s0.names_ok() {
                s0.lemma_names_kept(self);
            }
            if s0.bindings_ok() {
                let listed = old_res[pos as int].dapps@;
                assert forall|k: int| 0 <= k < self.dapps@.len() && (#[trigger] self.dapps@[k]).status == crate::dapp::DappStatus::Online
                    implies self.bound_at(k) || (listed.contains(self.dapps@[k].dapp_index) && !self.has_node(self.dapps@[k].resource_index)) by {
                    assert(self.dapps@[k] == s0.dapps@[k]);
                    assert(s0.bound_at(k));
                    let r = s0.dapps@[k].resource_index;
                    let q = s0.resource_pos(r);
                    assert(s0.node_at(r, q));
                    if q == pos {
                    } else {
                        let q2 = if q < pos { q } else { q - 1 };
                        assert(res[q2] == old_res[q]);
                        assert(self.node_at(r, q2));
                        self.lemma_resource_pos(r, q2);
                    }
                }
            }
        }
        proof {
            if s0.owners_ok() {
                assert(s0.cleared(self, resource_index, who));
                s0.lemma_removed_owners(self, resource_index, who, pos as int);
            }
        }
        true
    }

    /// What taking node `rid` of `who` offline leaves: `mid` is the pool
    /// with the node removed, from which its listed workloads were placed
    /// again; `failed` names those that fit nowhere and is announced when not
    /// empty.
    pub open spec fn taken_offline(
        &self,
        mid: &Pallet,
        after: &Pallet,
        rid: u64,
        who: AccountId,
        failed: Seq<Seq<u8>>,
        now: BlockNumber,
    ) -> bool {
        &&& self.cleared(mid, rid, who)
        &&& mid.wf()
        &&& forall|k: int| 0 <= k < mid.dapps@.len() ==> #[trigger] mid.redistributed(after, k,
            self.resources@[self.resource_pos(rid)].dapps@, failed, now)
        &&& after.dapps@.len() == mid.dapps@.len()
        &&& after.same_node_ids(mid)
        &&& after.resource_index == mid.resource_index
        &&& after.user_resources == mid.user_resources
        &&& after.deployments == mid.deployments
        &&& after.user_dapps == mid.user_dapps
        &&& after.events@.subrange(0, self.events@.len() as int) == self.events@
        &&& failed.len() > 0 ==> match after.events@.last() {
            Event::DAppRedistribution(names) => names_view(names@) == failed,
            _ => false,
        }
        &&& exists|end: Pallet, trace: Seq<Pallet>, fails: Seq<Seq<Seq<u8>>>|
            #[trigger] mid.redeal_trace(&end, self.resources@[self.resource_pos(rid)].dapps@, failed, now, trace, fails)
            && after.resources == end.resources
            && after.resource_rank == end.resource_rank
            && after.dapps == end.dapps
            && (failed.len() == 0 ==> after.events == end.events)
            && (failed.len() > 0 ==> after.events@.len() == end.events@.len() + 1
                && after.events@.drop_last() == end.events@)
    }

    /// Takes node `resource_index` of `who` offline: removes it, then places
    /// its workloads again elsewhere; those that fit nowhere are paused and
    /// announced in one notification. The node goes first so that none of
    /// its workloads can land on it again. When the owner index does not
    /// list the node, nothing changes and the removal error is returned.
    pub fn offline_resource(&mut self, who: AccountId, resource_index: u64, now: BlockNumber) -> (r: Result<(), Error>)
        requires
            old(self).wf(),
        ensures
            final(self).wf(),
            !old(self).has_node(resource_index) ==> r == Err::<(), Error>(Error::InvalidResourceIndex),
            old(self).has_node(resource_index) && old(self).resources@[old(self).resource_pos(resource_index)].account_id != who
                ==> r == Err::<(), Error>(Error::ResourceNotOwnedByAccount),
            old(self).has_node(resource_index) && old(self).resources@[old(self).resource_pos(resource_index)].account_id == who
                && !old(self).owned_resources(who).contains(resource_index)
                ==> r == Err::<(), Error>(Error::ClearDownlineResourceInformation),
            r is Ok <==> (old(self).has_node(resource_index)
                && old(self).resources@[old(self).resource_pos(resource_index)].account_id == who
                && old(self).owned_resources(who).contains(resource_index)),
            r is Err ==> *final(self) == *old(self),
            old(self).owners_ok() ==> r != Err::<(), Error>(Error::ClearDownlineResourceInformation),
            r is Ok ==> !final(self).has_node(resource_index),
            old(self).bindings_ok() ==> final(self).bindings_ok(),
            old(self).names_ok() ==> final(self).names_ok(),
            old(self).owners_ok() ==> final(self).owners_ok(),
            r is Ok ==> exists|mid: Pallet, failed: Seq<Seq<u8>>|
                #[trigger] old(self).taken_offline(&mid, final(self), resource_index, who, failed, now),
    {
        let pos = match self.find_resource(resource_index) {
            Some(pos) => pos,
            None => return Err(Error::InvalidResourceIndex),
        };
        proof { self.lemma_resource_pos(resource_index, pos as int); }
        if self.resources[pos].account_id != who {
            return Err(Error::ResourceNotOwnedByAccount);
        }
        let dapps = self.resources[pos].dapps.clone();
        let ghost listed = self.resources@[pos as int].dapps@;
        assert(dapps@ == listed);
        proof {
            if self.owners_ok() {
                assert(self.owned_resources(self.resources@[pos as int].account_id).contains(self.resources@[pos as int].index));
            }
        }
        if !self.clear_downline_resource_information(resource_index, who) {
            return Err(Error::ClearDownlineResourceInformation);
        }
        let ghost mid = *self;
        let failed = self.re_deal_dapps(&dapps, now);
        let ghost mid2 = *self;
        let ghost failed_v = names_view(failed@);
        if failed.len() > 0 {
            self.events.push(Event::DAppRedistribution(failed));
            assert(self.events@.subrange(0, old(self).events@.len() as int) =~= mid2.events@.subrange(0, old(self).events@.len() as int));
        }
        proof {
            self.lemma_same_ids_has_node(&mid, resource_index);
            assert(old(self).cleared(&mid, resource_index, who));
            assert(self.resources == mid2.resources);
            assert(self.dapps == mid2.dapps);
            assert forall|k: int| 0 <= k < mid.dapps@.len() implies #[trigger] mid.redistributed(self, k,
                old(self).resources@[old(self).resource_pos(resource_index)].dapps@, failed_v, now) by {
                assert(mid.redistributed(&mid2, k, listed, failed_v, now));
                let d = mid.dapps@[k];
                let a = self.dapps@[k];
                if self.has_node(a.resource_index) {
                    let i = choose|i: int| self.node_at(a.resource_index, i);
                    self.lemma_resource_pos(a.resource_index, i);
                    assert(mid2.node_at(a.resource_index, i));
                    mid2.lemma_resource_pos(a.resource_index, i);
                }
                if mid2.has_node(a.resource_index) {
                    let i = choose|i: int| mid2.node_at(a.resource_index, i);
                    assert(self.node_at(a.resource_index, i));
                }
                assert(self.has_node(a.resource_index) == mid2.has_node(a.resource_index));
                assert forall|c: u8, m: u8| self.some_node_fits(c, m) == mid2.some_node_fits(c, m) by {
                    if mid2.some_node_fits(c, m) {
                        let i = choose|i: int| 0 <= i < mid2.resources@.len() && mid2.resources@[i].config.fits(c, m);
                        assert(self.resources@[i].config.fits(c, m));
                    }
                }
            }
            if failed_v.len() > 0 {
                assert(self.events@.drop_last() =~= mid2.events@);
            }
            assert(old(self).taken_offline(&mid, self, resource_index, who, failed_v, now));
            if old(self).bindings_ok() {
                assert(mid2.bindings_ok());
                mid2.lemma_bindings_kept(self);
            }
            if old(self).names_ok() {
                mid2.lemma_names_kept(self);
            }
        }
        Ok(())
    }
}

} // verus!
