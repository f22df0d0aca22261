use vstd::prelude::*;
use crate::pallet::Pallet;
use crate::provider::ComputingResource;

verus! {

/// The initial node set and the id that the next registered node gets.
pub struct GenesisConfig {
    pub resource: Vec<(u64, ComputingResource)>,
    pub resource_index: u64,
}

impl Default for GenesisConfig {
    fn default() -> (g: Self)
        ensures
            g.resource@.len() == 0,
            g.resource_index == 0,
    {
        GenesisConfig { resource: Vec::new(), resource_index: 0 }
    }
}

impl GenesisConfig {
    /// Each node is stored under its own id, ids ascend and stay below the
    /// next id, capacities are within totals and no workload is bound yet.
    pub open spec fn valid(&self) -> bool {
        let s = self.resource@;
        &&& forall|i: int| 0 <= i < s.len() ==> (#[trigger] s[i]).0 == s[i].1.index
        &&& forall|i: int, j: int| 0 <= i < j < s.len() ==> s[i].0 < s[j].0
        &&& forall|i: int| 0 <= i < s.len() ==> (#[trigger] s[i]).0 < self.resource_index
        &&& forall|i: int| 0 <= i < s.len() ==> (#[trigger] s[i]).1.config.wf()
        &&& forall|i: int| 0 <= i < s.len() ==> (#[trigger] s[i]).1.dapps@.len() == 0
    }

    /// Decides `valid`.
    pub fn is_valid(&self) -> (r: bool)
        ensures
            r == self.valid(),
    {
        let mut i: usize = 0;
        while i < self.resource.len()
            invariant
                i <= self.resource@.len(),
                forall|k: int| 0 <= k < i ==> (#[trigger] self.resource@[k]).0 == self.resource@[k].1.index,
                forall|k: int, j: int| 0 <= k < j < i ==> self.resource@[k].0 < self.resource@[j].0,
                forall|k: int| 0 <= k < i ==> (#[trigger] self.resource@[k]).0 < self.resource_index,
                forall|k: int| 0 <= k < i ==> (#[trigger] self.resource@[k]).1.config.wf(),
                forall|k: int| 0 <= k < i ==> (#[trigger] self.resource@[k]).1.dapps@.len() == 0,
            decreases self.resource@.len() - i,
        {
            let e = &self.resource[i];
            let c = e.1.config;
            if e.0 != e.1.index || e.0 >= self.resource_index || e.1.dapps.len() != 0
                || c.unused_cpu > c.total_cpu || c.unused_memory > c.total_memory {
                return false;
            }
            if i > 0 && self.resource[i - 1].0 >= e.0 {
                return false;
            }
            assert forall|k: int, j: int| 0 <= k < j < i + 1 implies self.resource@[k].0 < self.resource@[j].0 by {
                if j == i && k < i - 1 {
                    assert(self.resource@[k].0 < self.resource@[i - 1].0);
                }
            }
            i = i + 1;
        }
        true
    }

    /// Seeds a pool with the configured nodes, each ranked and listed under
    /// its owner; `None` when the seed is not `valid`.
    pub fn build(self) -> (r: Option<Pallet>)
        ensures
            r is Some <==> self.valid(),
            r matches Some(p) ==> {
                &&& p.wf()
                &&& p.bindings_ok()
                &&& p.names_ok()
                &&& p.owners_ok()
                &&& p.resources@ == self.resource@.map_values(|e: (u64, ComputingResource)| e.1)
                &&& p.resource_index == self.resource_index
                &&& p.dapps@.len() == 0
                &&& p.deployments@.len() == 0
                &&& p.user_dapps@.len() == 0
                &&& p.events@.len() == 0
                &&& p.dapp_index == 0
                &&& p.deployment_index == 0
            },
    {
        if !self.is_valid() {
            return None;
        }
        let ghost orig = self.resource@;
        let next = self.resource_index;
        let count = self.resource.len();
        let mut rest = self.resource;
        let mut p = Pallet::new();
        let ghost n = orig.len();
        let mut i: usize = 0;
        while rest.len() > 0
            invariant
                n == orig.len(),
                n == count,
                i <= n,
                rest@ == orig.subrange(i as int, n as int),
                p.wf(),
                p.bindings_ok(),
                p.names_ok(),
                p.owners_ok(),
                p.resources@ == orig.subrange(0, i as int).map_values(|e: (u64, ComputingResource)| e.1),
                i == 0 ==> p.resource_index == 0,
                i > 0 ==> p.resource_index == orig[i - 1].0 + 1,
                p.dapps@.len() == 0,
                p.deployments@.len() == 0,
                p.user_dapps@.len() == 0,
                p.events@.len() == 0,
                p.dapp_index == 0,
                p.deployment_index == 0,
                forall|k: int| 0 <= k < n ==> (#[trigger] orig[k]).0 == orig[k].1.index,
                forall|k: int, j: int| 0 <= k < j < n ==> orig[k].0 < orig[j].0,
                forall|k: int| 0 <= k < n ==> (#[trigger] orig[k]).0 < next,
                forall|k: int| 0 <= k < n ==> (#[trigger] orig[k]).1.config.wf(),
                forall|k: int| 0 <= k < n ==> (#[trigger] orig[k]).1.dapps@.len() == 0,
            decreases rest@.len(),
        {
            let (_, node) = rest.remove(0);
            assert(node == orig[i as int].1);
            assert(node.dapps@ =~= Seq::<u64>::empty());
            let ghost before = p.resources@;
            p.add_node(node);
            i = i + 1;
            assert(rest@ =~= orig.subrange(i as int, n as int));
            assert(p.resources@ =~= orig.subrange(0, i as int).map_values(|e: (u64, ComputingResource)| e.1)) by {
                assert(before =~= orig.subrange(0, i - 1).map_values(|e: (u64, ComputingResource)| e.1));
            }
        }
        assert(orig.subrange(0, n as int) =~= orig);
        proof {
            if n > 0 {
                assert(orig[n - 1].0 < next);
            }
        }
        let ghost seeded = p;
        p.resource_index = next;
        proof {
            seeded.lemma_bindings_kept(&p);
            seeded.lemma_names_kept(&p);
            seeded.lemma_owners_kept(&p);
        }
        Some(p)
    }
}

} // verus!
