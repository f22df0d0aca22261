use vstd::prelude::*;
use crate::dapp::{DAppInfo, bytes_lt, lemma_bytes_lt_irreflexive, lemma_bytes_lt_transitive};
use crate::deployment::DeploymentInfo;
use crate::provider::{AccountId, ComputingResource};
use crate::rank::rank_sorted;
use crate::sorted::strictly_sorted;

verus! {

/// Epochs without a heartbeat after which a node or workload has timed out.
pub const HEARTBEAT_INTERVAL: u64 = 300;

/// Failures of the public operations.
#[derive(Clone, Copy, Debug, PartialEq, Eq, Structural)]
pub enum Error {
    /// The owner already has a workload of that name.
    RepeatDAppName,
    /// No node has enough free capacity.
    InstantiateError,
    InvalidResourceIndex,
    ResourceNotOwnedByAccount,
    /// The caller owns no such workload.
    NotHaveDApp,
    InvalidDAppName,
    DAppRedistributionError,
    InvalidDAppIndex,
    ClearDownlineResourceInformation,
}

/// Notifications for subscribers, appended after the state change.
#[derive(Debug)]
pub enum Event {
    /// `(owner, resource id, cpu, memory)`
    RegisterResourceSuccess(AccountId, u64, u8, u8),
    /// `(peer id, cpu, memory, method kind, command, workload id)`
    DeploymentDApp(Vec<u8>, u8, u8, u8, Vec<u8>, u64),
    /// `(peer id, workload ids)`
    ResourceHeartbeat(Vec<u8>, Vec<u64>),
    /// `(owner, workload name)`
    DAppHeartbeat(AccountId, Vec<u8>),
    /// Names of the workloads that could not be placed again.
    DAppRedistribution(Vec<Vec<u8>>),
    /// `(owner, workload name, workload id)`
    EndDAppSuccess(AccountId, Vec<u8>, u64),
    /// `(peer id, workload id)`
    StopDApp(Vec<u8>, u64),
}

/// Position `i` of a table keyed by `u64` holds key `k`.
pub open spec fn key_at<V>(s: Seq<(u64, V)>, k: u64, i: int) -> bool {
    0 <= i < s.len() && s[i].0 == k
}

/// No key occurs twice.
pub open spec fn keys_distinct<V>(s: Seq<(u64, V)>) -> bool {
    forall|i: int, j: int| 0 <= i < s.len() && 0 <= j < s.len() && i != j ==> s[i].0 != s[j].0
}

/// Keys strictly ascend and stay below `bound`.
pub open spec fn keys_ascending<V>(s: Seq<(u64, V)>, bound: u64) -> bool {
    &&& forall|i: int, j: int| 0 <= i < j < s.len() ==> s[i].0 < s[j].0
    &&& forall|i: int| 0 <= i < s.len() ==> s[i].0 < bound
}

/// The value stored under `k`, if any.
pub open spec fn entry_of<V>(s: Seq<(u64, V)>, k: u64) -> Option<V> {
    if exists|i: int| key_at(s, k, i) {
        Some(s[choose|i: int| key_at(s, k, i)].1)
    } else {
        None
    }
}

/// With distinct keys, the entry of a key is the value at its position.
pub proof fn lemma_entry_at<V>(s: Seq<(u64, V)>, k: u64, p: int)
    requires
        keys_distinct(s),
        key_at(s, k, p),
    ensures
        entry_of(s, k) == Some(s[p].1),
{
    let q = choose|i: int| key_at(s, k, i);
    assert(key_at(s, k, q));
}

/// Finds the position of key `k`.
pub fn find_key<V>(v: &Vec<(u64, V)>, k: u64) -> (r: Option<usize>)
    ensures
        match r {
            Some(i) => key_at(v@, k, i as int),
            None => forall|i: int| 0 <= i < v@.len() ==> v@[i].0 != k,
        },
{
    let mut i: usize = 0;
    while i < v.len()
        invariant
            i <= v.len(),
            forall|j: int| 0 <= j < i ==> v@[j].0 != k,
        decreases v.len() - i,
    {
        if v[i].0 == k {
            return Some(i);
        }
        i = i + 1;
    }
    None
}

/// Rank entry of a node: its free capacity summed, then its id.
pub open spec fn rank_entry(r: ComputingResource) -> (u64, u64) {
    (r.config.score() as u64, r.index)
}

/// `a` comes no later than `b` in rank order.
pub open spec fn entry_le(a: (u64, u64), b: (u64, u64)) -> bool {
    a.0 < b.0 || (a.0 == b.0 && a.1 <= b.1)
}

/// The rank holds exactly the current entry of every node.
pub open spec fn rank_matches(rank: Seq<(u64, u64)>, res: Seq<ComputingResource>) -> bool {
    &&& forall|i: int| 0 <= i < res.len() ==> rank.contains(#[trigger] rank_entry(res[i]))
    &&& forall|x: (u64, u64)| #[trigger] rank.contains(x) ==> exists|i: int| 0 <= i < res.len() && x == rank_entry(res[i])
}

/// Nodes ascending by id, ids below the next id, capacities within totals.
pub open spec fn nodes_wf(res: Seq<ComputingResource>, next: u64) -> bool {
    &&& forall|i: int, j: int| 0 <= i < j < res.len() ==> res[i].index < res[j].index
    &&& forall|i: int| 0 <= i < res.len() ==> res[i].index < next
    &&& forall|i: int| 0 <= i < res.len() ==> (#[trigger] res[i]).config.wf()
    &&& forall|i: int| 0 <= i < res.len() ==> strictly_sorted((#[trigger] res[i]).dapps@)
}

/// Workloads ascending by id, ids below the next id.
pub open spec fn dapps_wf(d: Seq<DAppInfo>, next: u64) -> bool {
    &&& forall|i: int, j: int| 0 <= i < j < d.len() ==> d[i].dapp_index < d[j].dapp_index
    &&& forall|i: int| 0 <= i < d.len() ==> d[i].dapp_index < next
}

/// Names pairwise different.
pub open spec fn names_distinct(s: Seq<Vec<u8>>) -> bool {
    forall|i: int, j: int| 0 <= i < s.len() && 0 <= j < s.len() && i != j ==> s[i]@ != s[j]@
}

/// Names strictly ascending in lexicographic order.
pub open spec fn names_sorted(s: Seq<Vec<u8>>) -> bool {
    forall|i: int, j: int| 0 <= i < j < s.len() ==> bytes_lt(s[i]@, s[j]@)
}

/// Sorted names are pairwise different.
pub proof fn lemma_sorted_distinct(s: Seq<Vec<u8>>)
    requires
        names_sorted(s),
    ensures
        names_distinct(s),
{
    assert forall|i: int, j: int| 0 <= i < s.len() && 0 <= j < s.len() && i != j implies s[i]@ != s[j]@ by {
        lemma_bytes_lt_irreflexive(s[i]@);
        if i > j {
            assert(bytes_lt(s[j]@, s[i]@));
        }
    }
}

/// The names as byte sequences.
pub open spec fn names_view(s: Seq<Vec<u8>>) -> Seq<Seq<u8>> {
    s.map_values(|n: Vec<u8>| n@)
}

/// The node pool, the workloads and their indexes, and the notifications
/// emitted so far.
pub struct Pallet {
    /// Id that the next registered node gets.
    pub resource_index: u64,
    pub resources: Vec<ComputingResource>,
    /// Owner to the ids of the nodes it registered, ascending.
    pub user_resources: Vec<(AccountId, Vec<u64>)>,
    /// `(score, id)` of every node, ascending.
    pub resource_rank: Vec<(u64, u64)>,
    pub deployment_index: u64,
    pub deployments: Vec<(u64, DeploymentInfo)>,
    pub dapp_index: u64,
    pub dapps: Vec<DAppInfo>,
    /// Owner to the names of its workloads.
    pub user_dapps: Vec<(AccountId, Vec<Vec<u8>>)>,
    pub events: Vec<Event>,
}

impl Pallet {
    /// Well-formedness: nodes ascend by id below the next id with capacity
    /// within totals; the rank is sorted and holds exactly the current entry
    /// of every node; specifications and workloads ascend by id below their
    /// next ids; owner indexes have one entry per owner, with ascending node
    /// ids and names in strictly ascending lexicographic order.
    pub open spec fn wf(&self) -> bool {
        &&& nodes_wf(self.resources@, self.resource_index)
        &&& rank_sorted(self.resource_rank@)
        &&& rank_matches(self.resource_rank@, self.resources@)
        &&& keys_ascending(self.deployments@, self.deployment_index)
        &&& dapps_wf(self.dapps@, self.dapp_index)
        &&& keys_distinct(self.user_resources@)
        &&& forall|i: int| 0 <= i < self.user_resources@.len()
            ==> strictly_sorted((#[trigger] self.user_resources@[i]).1@)
        &&& keys_distinct(self.user_dapps@)
        &&& forall|i: int| 0 <= i < self.user_dapps@.len()
            ==> names_distinct((#[trigger] self.user_dapps@[i]).1@)
        &&& forall|i: int| 0 <= i < self.user_dapps@.len()
            ==> names_sorted((#[trigger] self.user_dapps@[i]).1@)
    }

    /// Position `i` holds node `id`.
    pub open spec fn node_at(&self, id: u64, i: int) -> bool {
        0 <= i < self.resources@.len() && self.resources@[i].index == id
    }

    /// Node `id` exists.
    pub open spec fn has_node(&self, id: u64) -> bool {
        exists|i: int| self.node_at(id, i)
    }

    /// Position `i` holds workload `id`.
    pub open spec fn dapp_at(&self, id: u64, i: int) -> bool {
        0 <= i < self.dapps@.len() && self.dapps@[i].dapp_index == id
    }

    /// Workload `id` exists.
    pub open spec fn has_dapp(&self, id: u64) -> bool {
        exists|i: int| self.dapp_at(id, i)
    }

    /// Ids of the nodes that `who` registered.
    pub open spec fn owned_resources(&self, who: AccountId) -> Seq<u64> {
        match entry_of(self.user_resources@, who) {
            Some(v) => v@,
            None => Seq::empty(),
        }
    }

    /// Whether `who` has an entry in the name index at all.
    pub open spec fn has_name_entry(&self, who: AccountId) -> bool {
        entry_of(self.user_dapps@, who) is Some
    }

    /// Names of the workloads of `who`.
    pub open spec fn owned_names(&self, who: AccountId) -> Seq<Seq<u8>> {
        match entry_of(self.user_dapps@, who) {
            Some(v) => names_view(v@),
            None => Seq::empty(),
        }
    }

    /// Some node can take a request of that shape now.
    pub open spec fn some_node_fits(&self, cpu: u8, memory: u8) -> bool {
        exists|i: int| 0 <= i < self.resources@.len() && self.resources@[i].config.fits(cpu, memory)
    }

    /// All that is left when the node table and the rank are set aside.
    pub open spec fn same_but_nodes(&self, other: &Pallet) -> bool {
        &&& self.resource_index == other.resource_index
        &&& self.user_resources == other.user_resources
        &&& self.deployment_index == other.deployment_index
        &&& self.deployments == other.deployments
        &&& self.dapp_index == other.dapp_index
        &&& self.dapps == other.dapps
        &&& self.user_dapps == other.user_dapps
        &&& self.events == other.events
    }

    /// An empty pool.
    pub fn new() -> (p: Self)
        ensures
            p.wf(),
            p.bindings_ok(),
            p.names_ok(),
            p.owners_ok(),
            p.resources@.len() == 0,
            p.dapps@.len() == 0,
            p.deployments@.len() == 0,
            p.user_resources@.len() == 0,
            p.user_dapps@.len() == 0,
            p.resource_rank@.len() == 0,
            p.events@.len() == 0,
            p.resource_index == 0 && p.deployment_index == 0 && p.dapp_index == 0,
    {
        Pallet {
            resource_index: 0,
            resources: Vec::new(),
            user_resources: Vec::new(),
            resource_rank: Vec::new(),
            deployment_index: 0,
            deployments: Vec::new(),
            dapp_index: 0,
            dapps: Vec::new(),
            user_dapps: Vec::new(),
            events: Vec::new(),
        }
    }

    /// Position of node `id`.
    pub fn find_resource(&self, id: u64) -> (r: Option<usize>)
        ensures
            match r {
                Some(i) => self.node_at(id, i as int),
                None => !self.has_node(id),
            },
    {
        let mut i: usize = 0;
        while i < self.resources.len()
            invariant
                i <= self.resources@.len(),
                forall|j: int| 0 <= j < i ==> self.resources@[j].index != id,
            decreases self.resources@.len() - i,
        {
            if self.resources[i].index == id {
                return Some(i);
            }
            i = i + 1;
        }
        None
    }

    /// Position of workload `id`.
    pub fn find_dapp(&self, id: u64) -> (r: Option<usize>)
        ensures
            match r {
                Some(i) => self.dapp_at(id, i as int),
                None => !self.has_dapp(id),
            },
    {
        let mut i: usize = 0;
        while i < self.dapps.len()
            invariant
                i <= self.dapps@.len(),
                forall|j: int| 0 <= j < i ==> self.dapps@[j].dapp_index != id,
            decreases self.dapps@.len() - i,
        {
            if self.dapps[i].dapp_index == id {
                return Some(i);
            }
            i = i + 1;
        }
        None
    }
}

} // verus!

verus! {

impl Pallet {
    /// Position of node `id` (meaningful when it exists).
    pub open spec fn resource_pos(&self, id: u64) -> int {
        choose|i: int| self.node_at(id, i)
    }

    /// Position of workload `id` (meaningful when it exists).
    pub open spec fn dapp_pos(&self, id: u64) -> int {
        choose|i: int| self.dapp_at(id, i)
    }

    /// Node ids are unique, so `resource_pos` finds the one position.
    pub proof fn lemma_resource_pos(&self, id: u64, i: int)
        requires
            self.wf(),
            self.node_at(id, i),
        ensures
            self.resource_pos(id) == i,
    {
        let q = self.resource_pos(id);
        assert(self.node_at(id, q));
        if q < i {
            assert(self.resources@[q].index < self.resources@[i].index);
        } else if q > i {
            assert(self.resources@[i].index < self.resources@[q].index);
        }
    }

    /// Workload ids are unique, so `dapp_pos` finds the one position.
    pub proof fn lemma_dapp_pos(&self, id: u64, i: int)
        requires
            self.wf(),
            self.dapp_at(id, i),
        ensures
            self.dapp_pos(id) == i,
    {
        let q = self.dapp_pos(id);
        assert(self.dapp_at(id, q));
        if q < i {
            assert(self.dapps@[q].dapp_index < self.dapps@[i].dapp_index);
        } else if q > i {
            assert(self.dapps@[i].dapp_index < self.dapps@[q].dapp_index);
        }
    }
}

} // verus!

verus! {

/// Ascending keys are distinct.
pub proof fn lemma_ascending_distinct<V>(s: Seq<(u64, V)>, bound: u64)
    requires
        keys_ascending(s, bound),
    ensures
        keys_distinct(s),
{
    assert forall|i: int, j: int| 0 <= i < s.len() && 0 <= j < s.len() && i != j implies s[i].0 != s[j].0 by {
        if i < j {
            assert(s[i].0 < s[j].0);
        } else {
            assert(s[j].0 < s[i].0);
        }
    }
}

/// Removing position `j` of a table with distinct keys removes exactly its key.
pub proof fn lemma_entry_after_remove<V>(s: Seq<(u64, V)>, j: int)
    requires
        keys_distinct(s),
        0 <= j < s.len(),
    ensures
        keys_distinct(s.remove(j)),
        forall|k: u64| #[trigger] entry_of(s.remove(j), k) == if k == s[j].0 { None } else { entry_of(s, k) },
{
    let t = s.remove(j);
    assert forall|a: int, b: int| 0 <= a < t.len() && 0 <= b < t.len() && a != b implies t[a].0 != t[b].0 by {
        let a2 = if a < j { a } else { a + 1 };
        let b2 = if b < j { b } else { b + 1 };
        assert(t[a] == s[a2]);
        assert(t[b] == s[b2]);
    }
    assert forall|k: u64| #[trigger] entry_of(t, k) == if k == s[j].0 { None } else { entry_of(s, k) } by {
        if k == s[j].0 {
            assert forall|i: int| !key_at(t, k, i) by {
                if key_at(t, k, i) {
                    let i2 = if i < j { i } else { i + 1 };
                    assert(t[i] == s[i2]);
                }
            }
        } else if exists|i: int| key_at(s, k, i) {
            let i = choose|i: int| key_at(s, k, i);
            lemma_entry_at(s, k, i);
            assert(i != j);
            let i2 = if i < j { i } else { i - 1 };
            assert(t[i2] == s[i]);
            assert(key_at(t, k, i2));
            lemma_entry_at(t, k, i2);
        } else {
            assert forall|i: int| !key_at(t, k, i) by {
                if key_at(t, k, i) {
                    let i2 = if i < j { i } else { i + 1 };
                    assert(t[i] == s[i2]);
                    assert(key_at(s, k, i2));
                }
            }
        }
    }
}

/// Replacing the value at position `p` keeps every other key's entry.
pub proof fn lemma_entry_after_set<V>(s: Seq<(u64, V)>, p: int, v: V)
    requires
        keys_distinct(s),
        0 <= p < s.len(),
    ensures
        keys_distinct(s.update(p, (s[p].0, v))),
        forall|k: u64| #[trigger] entry_of(s.update(p, (s[p].0, v)), k) == if k == s[p].0 { Some(v) } else { entry_of(s, k) },
{
    let t = s.update(p, (s[p].0, v));
    assert forall|a: int, b: int| 0 <= a < t.len() && 0 <= b < t.len() && a != b implies t[a].0 != t[b].0 by {
        assert(t[a].0 == s[a].0);
        assert(t[b].0 == s[b].0);
    }
    assert forall|k: u64| #[trigger] entry_of(t, k) == if k == s[p].0 { Some(v) } else { entry_of(s, k) } by {
        if k == s[p].0 {
            assert(key_at(t, k, p));
            lemma_entry_at(t, k, p);
        } else if exists|i: int| key_at(s, k, i) {
            let i = choose|i: int| key_at(s, k, i);
            lemma_entry_at(s, k, i);
            assert(key_at(t, k, i));
            lemma_entry_at(t, k, i);
        } else {
            assert forall|i: int| !key_at(t, k, i) by {
                if key_at(t, k, i) {
                    assert(key_at(s, k, i));
                }
            }
        }
    }
}

} // verus!

verus! {

impl Pallet {
    /// Workload at position `k` is bound to an existing node that lists it.
    pub open spec fn bound_at(&self, k: int) -> bool {
        let d = self.dapps@[k];
        &&& self.has_node(d.resource_index)
        &&& self.resources@[self.resource_pos(d.resource_index)].dapps@.contains(d.dapp_index)
    }

    /// Every online workload is bound to an existing node that lists it.
    pub open spec fn bindings_ok(&self) -> bool {
        forall|k: int| 0 <= k < self.dapps@.len() && (#[trigger] self.dapps@[k]).status == crate::dapp::DappStatus::Online
            ==> self.bound_at(k)
    }

    /// As `bindings_ok`, except for listed workloads whose node is gone.
    pub open spec fn bindings_ok_except(&self, ids: Seq<u64>) -> bool {
        forall|k: int| 0 <= k < self.dapps@.len() && (#[trigger] self.dapps@[k]).status == crate::dapp::DappStatus::Online
            ==> self.bound_at(k) || (ids.contains(self.dapps@[k].dapp_index) && !self.has_node(self.dapps@[k].resource_index))
    }

    /// A binding survives a change that keeps the nodes before it at their
    /// positions with their ids and at least their workloads.
    pub proof fn lemma_bound_kept(&self, after: &Pallet, k: int, ka: int)
        requires
            self.wf(),
            after.wf(),
            0 <= k < self.dapps@.len(),
            0 <= ka < after.dapps@.len(),
            self.bound_at(k),
            after.dapps@[ka].dapp_index == self.dapps@[k].dapp_index,
            after.dapps@[ka].resource_index == self.dapps@[k].resource_index,
            after.resources@.len() >= self.resources@.len(),
            forall|i: int| 0 <= i < self.resources@.len() ==> (#[trigger] after.resources@[i]).index == self.resources@[i].index,
            forall|i: int, y: u64| 0 <= i < self.resources@.len() && #[trigger] self.resources@[i].dapps@.contains(y)
                ==> after.resources@[i].dapps@.contains(y),
        ensures
            after.bound_at(ka),
    {
        let r = self.dapps@[k].resource_index;
        let i = self.resource_pos(r);
        assert(self.node_at(r, i));
        assert(after.node_at(r, i));
        after.lemma_resource_pos(r, i);
        assert(self.resources@[i].dapps@.contains(self.dapps@[k].dapp_index));
    }

    /// Bindings survive a change that keeps every workload's id, node and
    /// status and the nodes at their positions with at least their workloads.
    pub proof fn lemma_bindings_kept(&self, after: &Pallet)
        requires
            self.wf(),
            after.wf(),
            self.bindings_ok(),
            after.dapps@.len() == self.dapps@.len(),
            forall|k: int| 0 <= k < self.dapps@.len() ==> {
                &&& (#[trigger] after.dapps@[k]).dapp_index == self.dapps@[k].dapp_index
                &&& after.dapps@[k].resource_index == self.dapps@[k].resource_index
                &&& after.dapps@[k].status == self.dapps@[k].status
            },
            after.resources@.len() >= self.resources@.len(),
            forall|i: int| 0 <= i < self.resources@.len() ==> (#[trigger] after.resources@[i]).index == self.resources@[i].index,
            forall|i: int, y: u64| 0 <= i < self.resources@.len() && #[trigger] self.resources@[i].dapps@.contains(y)
                ==> after.resources@[i].dapps@.contains(y),
        ensures
            after.bindings_ok(),
    {
        assert forall|k: int| 0 <= k < after.dapps@.len() && (#[trigger] after.dapps@[k]).status == crate::dapp::DappStatus::Online
            implies after.bound_at(k) by {
            assert(self.dapps@[k].status == crate::dapp::DappStatus::Online);
            self.lemma_bound_kept(after, k, k);
        }
    }
}


impl Pallet {
    /// As `lemma_bound_kept`, where the nodes may lose workload `skip`, which
    /// is not the one at `k`.
    pub proof fn lemma_bound_kept_but(&self, after: &Pallet, k: int, ka: int, skip: u64)
        requires
            self.wf(),
            after.wf(),
            0 <= k < self.dapps@.len(),
            0 <= ka < after.dapps@.len(),
            self.bound_at(k),
            self.dapps@[k].dapp_index != skip,
            after.dapps@[ka].dapp_index == self.dapps@[k].dapp_index,
            after.dapps@[ka].resource_index == self.dapps@[k].resource_index,
            after.resources@.len() >= self.resources@.len(),
            forall|i: int| 0 <= i < self.resources@.len() ==> (#[trigger] after.resources@[i]).index == self.resources@[i].index,
            forall|i: int, y: u64| 0 <= i < self.resources@.len() && #[trigger] self.resources@[i].dapps@.contains(y) && y != skip
                ==> after.resources@[i].dapps@.contains(y),
        ensures
            after.bound_at(ka),
    {
        let r = self.dapps@[k].resource_index;
        let i = self.resource_pos(r);
        assert(self.node_at(r, i));
        assert(after.node_at(r, i));
        after.lemma_resource_pos(r, i);
        assert(self.resources@[i].dapps@.contains(self.dapps@[k].dapp_index));
    }
}

} // verus!

verus! {

impl Pallet {
    /// Every workload's name is listed for its owner, and no owner has two
    /// workloads of one name.
    pub open spec fn names_ok(&self) -> bool {
        &&& forall|k: int| 0 <= k < self.dapps@.len()
            ==> self.owned_names((#[trigger] self.dapps@[k]).account).contains(self.dapps@[k].dapp_name@)
        &&& forall|k: int, j: int| 0 <= k < self.dapps@.len() && 0 <= j < self.dapps@.len() && k != j
            && (#[trigger] self.dapps@[k]).account == (#[trigger] self.dapps@[j]).account
            ==> self.dapps@[k].dapp_name@ != self.dapps@[j].dapp_name@
    }

    /// The names invariant survives a change that keeps the name index and
    /// every workload's owner and name.
    pub proof fn lemma_names_kept(&self, after: &Pallet)
        requires
            self.names_ok(),
            after.user_dapps == self.user_dapps,
            after.dapps@.len() == self.dapps@.len(),
            forall|k: int| 0 <= k < self.dapps@.len() ==> (#[trigger] after.dapps@[k]).account == self.dapps@[k].account
                && after.dapps@[k].dapp_name@ == self.dapps@[k].dapp_name@,
        ensures
            after.names_ok(),
    {
        assert forall|k: int| 0 <= k < after.dapps@.len()
            implies after.owned_names((#[trigger] after.dapps@[k]).account).contains(after.dapps@[k].dapp_name@) by {
            assert(self.owned_names(self.dapps@[k].account).contains(self.dapps@[k].dapp_name@));
        }
        assert forall|k: int, j: int| 0 <= k < after.dapps@.len() && 0 <= j < after.dapps@.len() && k != j
            && (#[trigger] after.dapps@[k]).account == (#[trigger] after.dapps@[j]).account
            implies after.dapps@[k].dapp_name@ != after.dapps@[j].dapp_name@ by {
            assert(self.dapps@[k].account == self.dapps@[j].account);
        }
    }
}


/// Nodes that keep their ids and capacities, with workload lists still
/// ascending, keep the node invariant and their rank entries.
pub proof fn lemma_nodes_relisted(before: Seq<ComputingResource>, after: Seq<ComputingResource>, rank: Seq<(u64, u64)>, next: u64)
    requires
        nodes_wf(before, next),
        rank_matches(rank, before),
        after.len() == before.len(),
        forall|k: int| 0 <= k < after.len() ==> (#[trigger] after[k]).index == before[k].index
            && after[k].config == before[k].config && strictly_sorted(after[k].dapps@),
    ensures
        nodes_wf(after, next),
        rank_matches(rank, after),
{
    assert forall|k: int| 0 <= k < after.len() implies rank_entry(after[k]) == rank_entry(before[k]) by {}
    assert forall|k: int| 0 <= k < after.len() implies (#[trigger] after[k]).config.wf() by {
        assert(before[k].config.wf());
    }
    assert forall|k: int| 0 <= k < after.len() implies rank.contains(#[trigger] rank_entry(after[k])) by {
        assert(rank.contains(rank_entry(before[k])));
    }
    assert forall|x: (u64, u64)| #[trigger] rank.contains(x) implies exists|k: int| 0 <= k < after.len() && x == rank_entry(after[k]) by {
        let k = choose|k: int| 0 <= k < before.len() && x == rank_entry(before[k]);
        assert(x == rank_entry(after[k]));
    }
}


/// Byte sequences strictly ascending in lexicographic order.
pub open spec fn seqs_sorted(s: Seq<Seq<u8>>) -> bool {
    forall|i: int, j: int| 0 <= i < j < s.len() ==> bytes_lt(s[i], s[j])
}

/// Two strictly ascending lists with the same members are equal.
pub proof fn lemma_sorted_same_members(a: Seq<Seq<u8>>, b: Seq<Seq<u8>>)
    requires
        seqs_sorted(a),
        seqs_sorted(b),
        forall|y: Seq<u8>| a.contains(y) <==> b.contains(y),
    ensures
        a == b,
    decreases a.len(),
{
    if a.len() == 0 {
        if b.len() > 0 {
            assert(b.contains(b[0]));
        }
        assert(a =~= b);
    } else {
        assert(a.contains(a[0]));
        let m = choose|m: int| 0 <= m < b.len() && b[m] == a[0];
        assert(b.contains(b[0]));
        let n = choose|n: int| 0 <= n < a.len() && a[n] == b[0];
        lemma_bytes_lt_irreflexive(a[0]);
        if m > 0 && n > 0 {
            lemma_bytes_lt_transitive(a[0], b[0], a[0]);
        }
        assert(a[0] == b[0]);
        let a1 = a.drop_first();
        let b1 = b.drop_first();
        assert forall|y: Seq<u8>| a1.contains(y) <==> b1.contains(y) by {
            if a1.contains(y) {
                let k = choose|k: int| 0 <= k < a1.len() && a1[k] == y;
                assert(a[k + 1] == y);
                assert(bytes_lt(a[0], y));
                lemma_bytes_lt_irreflexive(y);
                assert(b.contains(y));
                let j = choose|j: int| 0 <= j < b.len() && b[j] == y;
                assert(j != 0);
                assert(b1[j - 1] == y);
            }
            if b1.contains(y) {
                let k = choose|k: int| 0 <= k < b1.len() && b1[k] == y;
                assert(b[k + 1] == y);
                assert(bytes_lt(b[0], y));
                lemma_bytes_lt_irreflexive(y);
                assert(a.contains(y));
                let j = choose|j: int| 0 <= j < a.len() && a[j] == y;
                assert(j != 0);
                assert(a1[j - 1] == y);
            }
        }
        lemma_sorted_same_members(a1, b1);
        assert(a =~= b) by {
            assert forall|i: int| 0 <= i < a.len() implies a[i] == b[i] by {
                if i > 0 { assert(a[i] == a1[i - 1]); assert(b[i] == b1[i - 1]); }
            }
        }
    }
}

impl Pallet {
    /// Every owner's names are strictly ascending.
    pub proof fn lemma_owned_names_sorted(&self, w: AccountId)
        requires
            self.wf(),
        ensures
            seqs_sorted(self.owned_names(w)),
    {
        if exists|i: int| key_at(self.user_dapps@, w, i) {
            let i = choose|i: int| key_at(self.user_dapps@, w, i);
            lemma_entry_at(self.user_dapps@, w, i);
            assert(names_sorted(self.user_dapps@[i].1@));
        }
    }
}

} // verus!

verus! {

impl Pallet {
    /// Every node is listed among the nodes of its owner.
    pub open spec fn owners_ok(&self) -> bool {
        forall|k: int| 0 <= k < self.resources@.len()
            ==> self.owned_resources((#[trigger] self.resources@[k]).account_id).contains(self.resources@[k].index)
    }

    /// The owner invariant survives a change that keeps the owner index and
    /// every node's id and owner at its position.
    pub proof fn lemma_owners_kept(&self, after: &Pallet)
        requires
            self.owners_ok(),
            after.user_resources == self.user_resources,
            after.resources@.len() == self.resources@.len(),
            forall|k: int| 0 <= k < self.resources@.len() ==> (#[trigger] after.resources@[k]).index == self.resources@[k].index
                && after.resources@[k].account_id == self.resources@[k].account_id,
        ensures
            after.owners_ok(),
    {
        assert forall|k: int| 0 <= k < after.resources@.len()
            implies after.owned_resources((#[trigger] after.resources@[k]).account_id).contains(after.resources@[k].index) by {
            assert(self.owned_resources(self.resources@[k].account_id).contains(self.resources@[k].index));
        }
    }
}


impl Pallet {
    /// Adding a node that is listed under its owner keeps the owner invariant.
    pub proof fn lemma_added_owners(&self, after: &Pallet, node: ComputingResource)
        requires
            self.owners_ok(),
            after.resources@ == self.resources@.push(node),
            forall|y: u64| #[trigger] after.owned_resources(node.account_id).contains(y)
                <==> (self.owned_resources(node.account_id).contains(y) || y == node.index),
            forall|w: AccountId| w != node.account_id ==> after.owned_resources(w) == self.owned_resources(w),
        ensures
            after.owners_ok(),
    {
        assert forall|k: int| 0 <= k < after.resources@.len()
            implies after.owned_resources((#[trigger] after.resources@[k]).account_id).contains(after.resources@[k].index) by {
            if k < self.resources@.len() {
                assert(after.resources@[k] == self.resources@[k]);
                assert(self.owned_resources(self.resources@[k].account_id).contains(self.resources@[k].index));
            }
        }
    }

    /// Removing node `rid` together with its place under `who` keeps the
    /// owner invariant.
    pub proof fn lemma_removed_owners(&self, after: &Pallet, rid: u64, who: AccountId, pos: int)
        requires
            self.wf(),
            self.owners_ok(),
            self.node_at(rid, pos),
            after.resources@ == self.resources@.remove(pos),
            forall|y: u64| #[trigger] after.owned_resources(who).contains(y)
                <==> (self.owned_resources(who).contains(y) && y != rid),
            forall|w: AccountId| w != who ==> #[trigger] after.owned_resources(w) == self.owned_resources(w),
        ensures
            after.owners_ok(),
    {
        assert forall|k: int| 0 <= k < after.resources@.len()
            implies after.owned_resources((#[trigger] after.resources@[k]).account_id).contains(after.resources@[k].index) by {
            let k2 = if k < pos { k } else { k + 1 };
            assert(after.resources@[k] == self.resources@[k2]);
            assert(self.owned_resources(self.resources@[k2].account_id).contains(self.resources@[k2].index));
            if k2 < pos {
                assert(self.resources@[k2].index < self.resources@[pos].index);
            } else {
                assert(self.resources@[pos].index < self.resources@[k2].index);
            }
        }
    }
}

} // verus!
