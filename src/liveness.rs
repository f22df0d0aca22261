use vstd::prelude::*;
use crate::dapp::DAppInfo;
use crate::pallet::HEARTBEAT_INTERVAL;
use crate::provider::{BlockNumber, ComputingResource, ResourceStatus};

verus! {

/// More than the heartbeat interval has passed since `last`.
pub open spec fn timed_out(now: BlockNumber, last: BlockNumber) -> bool {
    now - last > HEARTBEAT_INTERVAL
}

/// Ids of the online nodes of `s` that have timed out, in order.
pub open spec fn timed_out_nodes(s: Seq<ComputingResource>, now: BlockNumber) -> Seq<u64>
    decreases s.len(),
{
    if s.len() == 0 {
        Seq::empty()
    } else {
        let rest = timed_out_nodes(s.drop_last(), now);
        if s.last().status == ResourceStatus::Online && timed_out(now, s.last().last_heartbeat) {
            rest.push(s.last().index)
        } else {
            rest
        }
    }
}

/// Ids of the workloads of `s` that have timed out, in order.
pub open spec fn timed_out_dapps(s: Seq<DAppInfo>, now: BlockNumber) -> Seq<u64>
    decreases s.len(),
{
    if s.len() == 0 {
        Seq::empty()
    } else {
        let rest = timed_out_dapps(s.drop_last(), now);
        if timed_out(now, s.last().last_heartbeat) {
            rest.push(s.last().dapp_index)
        } else {
            rest
        }
    }
}

fn is_timed_out(now: BlockNumber, last: BlockNumber) -> (r: bool)
    ensures
        r == timed_out(now, last),
{
    now.saturating_sub(last) > HEARTBEAT_INTERVAL
}

/// The online nodes whose last heartbeat is more than the interval before
/// `now`; `None` when there are none.
pub fn check_heartbeat_timeout(now: BlockNumber, resources: &Vec<ComputingResource>) -> (r: Option<Vec<u64>>)
    ensures
        match r {
            Some(ids) => ids@ == timed_out_nodes(resources@, now) && ids@.len() > 0,
            None => timed_out_nodes(resources@, now).len() == 0,
        },
{
    let mut ret: Vec<u64> = Vec::new();
    let mut i: usize = 0;
    while i < resources.len()
        invariant
            i <= resources@.len(),
            ret@ == timed_out_nodes(resources@.subrange(0, i as int), now),
        decreases resources@.len() - i,
    {
        proof {
            let next = resources@.subrange(0, i as int + 1);
            assert(next.drop_last() =~= resources@.subrange(0, i as int));
            assert(next.last() == resources@[i as int]);
        }
        let online = match resources[i].status {
            ResourceStatus::Online => true,
            ResourceStatus::Offline => false,
        };
        if online && is_timed_out(now, resources[i].last_heartbeat) {
            ret.push(resources[i].index);
        }
        i = i + 1;
    }
    assert(resources@.subrange(0, resources@.len() as int) =~= resources@);
    if ret.len() == 0 {
        return None;
    }
    Some(ret)
}

/// The workloads whose last heartbeat is more than the interval before
/// `now`; `None` when there are none.
pub fn check_and_get_heartbeat_timeout(now: BlockNumber, dapps: &Vec<DAppInfo>) -> (r: Option<Vec<u64>>)
    ensures
        match r {
            Some(ids) => ids@ == timed_out_dapps(dapps@, now) && ids@.len() > 0,
            None => timed_out_dapps(dapps@, now).len() == 0,
        },
{
    let mut ret: Vec<u64> = Vec::new();
    let mut i: usize = 0;
    while i < dapps.len()
        invariant
            i <= dapps@.len(),
            ret@ == timed_out_dapps(dapps@.subrange(0, i as int), now),
        decreases dapps@.len() - i,
    {
        proof {
            let next = dapps@.subrange(0, i as int + 1);
            assert(next.drop_last() =~= dapps@.subrange(0, i as int));
            assert(next.last() == dapps@[i as int]);
        }
        if is_timed_out(now, dapps[i].last_heartbeat) {
            ret.push(dapps[i].dapp_index);
        }
        i = i + 1;
    }
    assert(dapps@.subrange(0, dapps@.len() as int) =~= dapps@);
    if ret.len() == 0 {
        return None;
    }
    Some(ret)
}


/// A node id is reported exactly when an online node with that id has timed out.
pub proof fn lemma_timed_out_nodes(s: Seq<ComputingResource>, now: BlockNumber)
    ensures
        forall|x: u64| #[trigger] timed_out_nodes(s, now).contains(x) <==> exists|i: int| 0 <= i < s.len()
            && s[i].index == x && s[i].status == ResourceStatus::Online && timed_out(now, s[i].last_heartbeat),
    decreases s.len(),
{
    if s.len() > 0 {
        let t = s.drop_last();
        lemma_timed_out_nodes(t, now);
        let rest = timed_out_nodes(t, now);
        assert forall|x: u64| #[trigger] timed_out_nodes(s, now).contains(x) <==> exists|i: int| 0 <= i < s.len()
            && s[i].index == x && s[i].status == ResourceStatus::Online && timed_out(now, s[i].last_heartbeat) by {
            let last = s.last();
            let hit = last.status == ResourceStatus::Online && timed_out(now, last.last_heartbeat);
            if timed_out_nodes(s, now).contains(x) {
                if hit && x == last.index {
                    assert(s[s.len() - 1] == last);
                } else {
                    if hit {
                        let m = choose|m: int| 0 <= m < rest.push(last.index).len() && rest.push(last.index)[m] == x;
                        assert(rest[m] == x);
                    }
                    assert(rest.contains(x));
                    let i = choose|i: int| 0 <= i < t.len() && t[i].index == x && t[i].status == ResourceStatus::Online && timed_out(now, t[i].last_heartbeat);
                    assert(s[i] == t[i]);
                }
            }
            if exists|i: int| 0 <= i < s.len() && s[i].index == x && s[i].status == ResourceStatus::Online && timed_out(now, s[i].last_heartbeat) {
                let i = choose|i: int| 0 <= i < s.len() && s[i].index == x && s[i].status == ResourceStatus::Online && timed_out(now, s[i].last_heartbeat);
                if i == s.len() - 1 {
                    assert(rest.push(last.index)[rest.len() as int] == x);
                } else {
                    assert(t[i] == s[i]);
                    assert(rest.contains(x));
                    if hit {
                        let m = choose|m: int| 0 <= m < rest.len() && rest[m] == x;
                        assert(rest.push(last.index)[m] == x);
                    }
                }
            }
        }
    }
}

/// A workload id is reported exactly when a workload with that id has timed out.
pub proof fn lemma_timed_out_dapps(s: Seq<DAppInfo>, now: BlockNumber)
    ensures
        forall|x: u64| #[trigger] timed_out_dapps(s, now).contains(x) <==> exists|i: int| 0 <= i < s.len()
            && s[i].dapp_index == x && timed_out(now, s[i].last_heartbeat),
    decreases s.len(),
{
    if s.len() > 0 {
        let t = s.drop_last();
        lemma_timed_out_dapps(t, now);
        let rest = timed_out_dapps(t, now);
        assert forall|x: u64| #[trigger] timed_out_dapps(s, now).contains(x) <==> exists|i: int| 0 <= i < s.len()
            && s[i].dapp_index == x && timed_out(now, s[i].last_heartbeat) by {
            let last = s.last();
            let hit = timed_out(now, last.last_heartbeat);
            if timed_out_dapps(s, now).contains(x) {
                if hit && x == last.dapp_index {
                    assert(s[s.len() - 1] == last);
                } else {
                    if hit {
                        let m = choose|m: int| 0 <= m < rest.push(last.dapp_index).len() && rest.push(last.dapp_index)[m] == x;
                        assert(rest[m] == x);
                    }
                    assert(rest.contains(x));
                    let i = choose|i: int| 0 <= i < t.len() && t[i].dapp_index == x && timed_out(now, t[i].last_heartbeat);
                    assert(s[i] == t[i]);
                }
            }
            if exists|i: int| 0 <= i < s.len() && s[i].dapp_index == x && timed_out(now, s[i].last_heartbeat) {
                let i = choose|i: int| 0 <= i < s.len() && s[i].dapp_index == x && timed_out(now, s[i].last_heartbeat);
                if i == s.len() - 1 {
                    assert(rest.push(last.dapp_index)[rest.len() as int] == x);
                } else {
                    assert(t[i] == s[i]);
                    assert(rest.contains(x));
                    if hit {
                        let m = choose|m: int| 0 <= m < rest.len() && rest[m] == x;
                        assert(rest.push(last.dapp_index)[m] == x);
                    }
                }
            }
        }
    }
}

} // verus!
