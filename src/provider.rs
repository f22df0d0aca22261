use vstd::prelude::*;
use crate::sorted::{strictly_sorted, sorted_insert, sorted_remove};

verus! {

/// Identity of an account (a provider or a workload owner).
pub type AccountId = u64;

/// Monotonic time, counted in scheduling epochs.
pub type BlockNumber = u64;

/// Capacity of a compute node: totals and what is still free.
#[derive(Clone, Copy, Debug, PartialEq, Eq, Structural, Default)]
pub struct ResourceConfig {
    pub total_cpu: u8,
    pub total_memory: u8,
    pub unused_cpu: u8,
    pub unused_memory: u8,
}

impl ResourceConfig {
    /// Free capacity never exceeds the totals.
    pub open spec fn wf(&self) -> bool {
        self.unused_cpu <= self.total_cpu && self.unused_memory <= self.total_memory
    }

    /// Both dimensions of a request fit in what is free.
    pub open spec fn fits(&self, cpu: u8, memory: u8) -> bool {
        cpu <= self.unused_cpu && memory <= self.unused_memory
    }

    /// Rank score: the free capacity summed over both dimensions.
    pub open spec fn score(&self) -> int {
        self.unused_cpu + self.unused_memory
    }

    /// CPU in use (zero where the free part claims more than the total).
    pub open spec fn used_cpu(&self) -> int {
        if self.unused_cpu <= self.total_cpu { self.total_cpu - self.unused_cpu } else { 0 }
    }

    /// Memory in use (zero where the free part claims more than the total).
    pub open spec fn used_memory(&self) -> int {
        if self.unused_memory <= self.total_memory {
            self.total_memory - self.unused_memory
        } else {
            0
        }
    }

    pub fn new(total_cpu: u8, total_memory: u8) -> (r: Self)
        ensures
            r.total_cpu == total_cpu,
            r.total_memory == total_memory,
            r.unused_cpu == total_cpu,
            r.unused_memory == total_memory,
            r.wf(),
    {
        ResourceConfig { total_cpu, total_memory, unused_cpu: total_cpu, unused_memory: total_memory }
    }

    /// Reserves `cpu` and `memory` when both fit; otherwise changes nothing.
    pub fn use_resource(&mut self, cpu: u8, memory: u8) -> (ok: bool)
        ensures
            ok == old(self).fits(cpu, memory),
            ok ==> final(self).unused_cpu == old(self).unused_cpu - cpu,
            ok ==> final(self).unused_memory == old(self).unused_memory - memory,
            ok ==> final(self).total_cpu == old(self).total_cpu,
            ok ==> final(self).total_memory == old(self).total_memory,
            !ok ==> *final(self) == *old(self),
            old(self).wf() ==> final(self).wf(),
    {
        if cpu > self.unused_cpu || memory > self.unused_memory {
            return false;
        }
        self.unused_cpu = self.unused_cpu.saturating_sub(cpu);
        self.unused_memory = self.unused_memory.saturating_sub(memory);
        true
    }

    /// Gives back `cpu` and `memory` when no more than is in use is returned;
    /// otherwise changes nothing.
    pub fn release_resource(&mut self, cpu: u8, memory: u8) -> (ok: bool)
        ensures
            ok == (cpu <= old(self).used_cpu() && memory <= old(self).used_memory()),
            ok ==> final(self).unused_cpu == old(self).unused_cpu + cpu,
            ok ==> final(self).unused_memory == old(self).unused_memory + memory,
            ok ==> final(self).total_cpu == old(self).total_cpu,
            ok ==> final(self).total_memory == old(self).total_memory,
            !ok ==> *final(self) == *old(self),
            old(self).wf() ==> final(self).wf(),
    {
        let used_cpu = self.total_cpu.saturating_sub(self.unused_cpu);
        let used_memory = self.total_memory.saturating_sub(self.unused_memory);
        if cpu > used_cpu || memory > used_memory {
            return false;
        }
        self.unused_cpu = self.unused_cpu.saturating_add(cpu);
        self.unused_memory = self.unused_memory.saturating_add(memory);
        true
    }
}

/// Whether a node is reachable.
#[derive(Clone, Copy, Debug, PartialEq, Eq, Structural)]
pub enum ResourceStatus {
    Online,
    Offline,
}

impl Default for ResourceStatus {
    fn default() -> (r: Self)
        ensures
            r == ResourceStatus::Online,
    {
        ResourceStatus::Online
    }
}

/// A compute node contributed by a provider.
#[derive(Debug)]
pub struct ComputingResource {
    pub index: u64,
    pub account_id: AccountId,
    pub peer_id: Vec<u8>,
    pub public_ip: Vec<u8>,
    pub config: ResourceConfig,
    /// Workloads bound to this node, ascending.
    pub dapps: Vec<u64>,
    pub status: ResourceStatus,
    pub last_heartbeat: BlockNumber,
}

impl ComputingResource {
    pub fn new(
        index: u64,
        account_id: AccountId,
        peer_id: Vec<u8>,
        public_ip: Vec<u8>,
        config: ResourceConfig,
        dapps: Vec<u64>,
        status: ResourceStatus,
        last_heartbeat: BlockNumber,
    ) -> (r: Self)
        ensures
            r.index == index,
            r.account_id == account_id,
            r.peer_id@ == peer_id@,
            r.public_ip@ == public_ip@,
            r.config == config,
            r.dapps@ == dapps@,
            r.status == status,
            r.last_heartbeat == last_heartbeat,
    {
        ComputingResource {
            index,
            account_id,
            peer_id,
            public_ip,
            config,
            dapps,
            status,
            last_heartbeat,
        }
    }

    /// Binds a workload to this node; false when it was bound already.
    pub fn add_dapp(&mut self, dapp_index: u64) -> (added: bool)
        requires
            strictly_sorted(old(self).dapps@),
        ensures
            strictly_sorted(final(self).dapps@),
            added == !old(self).dapps@.contains(dapp_index),
            forall|y: u64| #[trigger] final(self).dapps@.contains(y)
                <==> (old(self).dapps@.contains(y) || y == dapp_index),
            final(self).index == old(self).index,
            final(self).account_id == old(self).account_id,
            final(self).peer_id == old(self).peer_id,
            final(self).public_ip == old(self).public_ip,
            final(self).config == old(self).config,
            final(self).status == old(self).status,
            final(self).last_heartbeat == old(self).last_heartbeat,
    {
        sorted_insert(&mut self.dapps, dapp_index)
    }

    /// Unbinds a workload from this node; false when it was not bound.
    pub fn remove_dapp(&mut self, dapp_index: u64) -> (removed: bool)
        requires
            strictly_sorted(old(self).dapps@),
        ensures
            strictly_sorted(final(self).dapps@),
            removed == old(self).dapps@.contains(dapp_index),
            forall|y: u64| #[trigger] final(self).dapps@.contains(y)
                <==> (old(self).dapps@.contains(y) && y != dapp_index),
            final(self).index == old(self).index,
            final(self).account_id == old(self).account_id,
            final(self).peer_id == old(self).peer_id,
            final(self).public_ip == old(self).public_ip,
            final(self).config == old(self).config,
            final(self).status == old(self).status,
            final(self).last_heartbeat == old(self).last_heartbeat,
    {
        sorted_remove(&mut self.dapps, dapp_index)
    }
}

} // verus!
