use vstd::prelude::*;
use crate::provider::AccountId;

verus! {

/// How a workload is launched.
#[derive(Debug)]
pub enum DeploymentMethod {
    /// A container image and port, `image:port`.
    Cli(Vec<u8>),
    /// A content id on IPFS.
    Ipfs(Vec<u8>),
}

impl DeploymentMethod {
    /// Discriminant carried in placement notifications: 1 for `Cli`, 2 for `Ipfs`.
    pub open spec fn kind(&self) -> u8 {
        match self {
            DeploymentMethod::Cli(_) => 1,
            DeploymentMethod::Ipfs(_) => 2,
        }
    }

    /// The launch command: image and port, or content id.
    pub open spec fn command(&self) -> Seq<u8> {
        match self {
            DeploymentMethod::Cli(c) => c@,
            DeploymentMethod::Ipfs(c) => c@,
        }
    }

    /// The discriminant and a copy of the launch command.
    pub fn kind_and_command(&self) -> (r: (u8, Vec<u8>))
        ensures
            r.0 == self.kind(),
            r.1@ == self.command(),
    {
        match self {
            DeploymentMethod::Cli(c) => (1, c.clone()),
            DeploymentMethod::Ipfs(c) => (2, c.clone()),
        }
    }
}

/// The resource shape and launch method requested for a workload.
#[derive(Debug)]
pub struct DeploymentInfo {
    pub account: AccountId,
    pub method: DeploymentMethod,
    pub cpu: u8,
    pub memory: u8,
    pub replicas: u8,
    pub available: u8,
}

impl DeploymentInfo {
    pub fn new(
        account: AccountId,
        method: DeploymentMethod,
        cpu: u8,
        memory: u8,
        replicas: u8,
        available: u8,
    ) -> (r: Self)
        ensures
            r.account == account,
            r.method == method,
            r.cpu == cpu,
            r.memory == memory,
            r.replicas == replicas,
            r.available == available,
    {
        DeploymentInfo { account, method, cpu, memory, replicas, available }
    }
}

} // verus!
