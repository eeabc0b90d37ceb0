//! How agents gather resource from the board's deposits and hand it to their spawners.

use vstd::prelude::*;
use super::behavior_nodes::NodeResult;
use crate::spawner::SPAWNER_MAX_RESOURCE;

verus! {

/// The most resource an agent carries.
pub const AGENT_MAX_RESOURCE: i32 = 100;

/// The most resource that moves in one tick.
pub const TRANSFER_PER_TICK: i32 = 10;

/// The sum of the amounts.
pub open spec fn total(s: Seq<i32>) -> int
    decreases s.len(),
{
    if s.len() == 0 {
        0
    } else {
        total(s.drop_last()) + s.last()
    }
}

/// Changing one amount changes the sum by as much.
pub proof fn lemma_total_update(s: Seq<i32>, i: int, v: i32)
    requires
        0 <= i < s.len(),
    ensures
        total(s.update(i, v)) == total(s) - s[i] + v,
    decreases s.len(),
{
    if i < s.len() - 1 {
        lemma_total_update(s.drop_last(), i, v);
        assert(s.update(i, v).drop_last() =~= s.drop_last().update(i, v));
    } else {
        assert(s.update(i, v).drop_last() =~= s.drop_last());
    }
}

/// The least of three.
pub open spec fn min3(a: int, b: int, c: int) -> int {
    if a <= b && a <= c { a } else if b <= c { b } else { c }
}

/// The first index below `n` where `p` holds, if any.
pub open spec fn first_where(n: int, p: spec_fn(int) -> bool) -> Option<int> {
    if exists|i: int| 0 <= i < n && #[trigger] p(i) {
        Some(choose|i: int| 0 <= i < n && #[trigger] p(i) && forall|j: int| 0 <= j < i ==> !#[trigger] p(j))
    } else {
        None
    }
}

/// A deposit that an agent can take from: within reach and not empty.
pub open spec fn can_collect(amounts: Seq<i32>, in_reach: Seq<bool>) -> spec_fn(int) -> bool {
    |i: int| in_reach[i] && 0 < amounts[i]
}

/// A spawner that an agent can give to: one of its team within reach, and not full.
pub open spec fn can_deposit(resources: Seq<i32>, eligible: Seq<bool>) -> spec_fn(int) -> bool {
    |i: int| eligible[i] && resources[i] < SPAWNER_MAX_RESOURCE
}

proof fn lemma_first_where(n: int, p: spec_fn(int) -> bool, k: int)
    requires
        0 <= k <= n,
        forall|j: int| 0 <= j < k ==> !#[trigger] p(j),
    ensures
        k < n && p(k) ==> first_where(n, p) == Some(k),
        k == n ==> first_where(n, p) is None,
{
    if k < n && p(k) {
        let c = choose|i: int| 0 <= i < n && #[trigger] p(i) && forall|j: int| 0 <= j < i ==> !#[trigger] p(j);
        assert(0 <= c < n && p(c) && forall|j: int| 0 <= j < c ==> !#[trigger] p(j));
        if c < k {
            assert(!p(c));
        }
        if c > k {
            assert(!p(k));
        }
    }
}

/// An agent holding `held` takes resource from the first deposit within reach that has any,
/// at most 10 a tick and up to what it can carry. It fails when it carries all it can, runs
/// while it takes, and succeeds when no deposit within reach has anything left. What it takes
/// leaves the deposit: the sum of the two stays the same.
pub fn collect_resource(held: &mut i32, amounts: &mut Vec<i32>, in_reach: &[bool]) -> (res: NodeResult)
    requires
        AGENT_MAX_RESOURCE - i32::MAX <= *old(held),
        in_reach.len() == old(amounts).len(),
    ensures
        *final(held) + total(final(amounts)@) == *old(held) + total(old(amounts)@),
        if AGENT_MAX_RESOURCE <= *old(held) {
            &&& res == NodeResult::Fail
            &&& *final(held) == *old(held)
            &&& final(amounts)@ == old(amounts)@
        } else {
            match first_where(old(amounts).len() as int, can_collect(old(amounts)@, in_reach@)) {
                Some(i) => {
                    let moved = min3(old(amounts)@[i] as int, AGENT_MAX_RESOURCE - *old(held), TRANSFER_PER_TICK as int);
                    &&& res == NodeResult::Running
                    &&& *final(held) == *old(held) + moved
                    &&& final(amounts)@ == old(amounts)@.update(i, (old(amounts)@[i] - moved) as i32)
                },
                None => {
                    &&& res == NodeResult::Success
                    &&& *final(held) == *old(held)
                    &&& final(amounts)@ == old(amounts)@
                },
            }
        },
{
    if AGENT_MAX_RESOURCE <= *held {
        return NodeResult::Fail;
    }
    let ghost p = can_collect(amounts@, in_reach@);
    let mut i: usize = 0;
    while i < amounts.len()
        invariant
            AGENT_MAX_RESOURCE - i32::MAX <= *held < AGENT_MAX_RESOURCE,
            *held == *old(held),
            amounts@ == old(amounts)@,
            in_reach.len() == amounts.len(),
            p == can_collect(old(amounts)@, in_reach@),
            i <= amounts.len(),
            forall|j: int| 0 <= j < i ==> !#[trigger] p(j),
        decreases amounts.len() - i,
    {
        if in_reach[i] && 0 < amounts[i] {
            let a = amounts[i];
            let room = AGENT_MAX_RESOURCE - *held;
            let mut moved = if a < room { a } else { room };
            if TRANSFER_PER_TICK < moved {
                moved = TRANSFER_PER_TICK;
            }
            proof {
                lemma_first_where(amounts.len() as int, p, i as int);
                lemma_total_update(amounts@, i as int, (a - moved) as i32);
            }
            amounts.set(i, a - moved);
            *held = *held + moved;
            return NodeResult::Running;
        }
        i += 1;
    }
    proof {
        lemma_first_where(amounts.len() as int, p, i as int);
    }
    NodeResult::Success
}

/// An agent holding `held` hands resource to the first spawner that `eligible` marks (of its
/// team and within reach) that is not full, at most 10 a tick and up to what the spawner can
/// hold. It fails when it holds nothing, succeeds once it has handed over all it held or
/// when no such spawner is there, and runs otherwise. The sum of what the agent and the
/// spawners hold stays the same.
pub fn deposit_resource(held: &mut i32, resources: &mut Vec<i32>, eligible: &[bool]) -> (res: NodeResult)
    requires
        0 <= *old(held),
        eligible.len() == old(resources).len(),
        forall|i: int| 0 <= i < old(resources).len() ==> SPAWNER_MAX_RESOURCE - i32::MAX <= #[trigger] old(resources)@[i],
    ensures
        *final(held) + total(final(resources)@) == *old(held) + total(old(resources)@),
        if *old(held) == 0 {
            &&& res == NodeResult::Fail
            &&& *final(held) == *old(held)
            &&& final(resources)@ == old(resources)@
        } else {
            match first_where(old(resources).len() as int, can_deposit(old(resources)@, eligible@)) {
                Some(i) => {
                    let moved = min3(*old(held) as int, SPAWNER_MAX_RESOURCE - old(resources)@[i], TRANSFER_PER_TICK as int);
                    &&& *final(held) == *old(held) - moved
                    &&& final(resources)@ == old(resources)@.update(i, (old(resources)@[i] + moved) as i32)
                    &&& res == if *final(held) == 0 { NodeResult::Success } else { NodeResult::Running }
                },
                None => {
                    &&& res == NodeResult::Success
                    &&& *final(held) == *old(held)
                    &&& final(resources)@ == old(resources)@
                },
            }
        },
{
    if *held == 0 {
        return NodeResult::Fail;
    }
    let ghost p = can_deposit(resources@, eligible@);
    let mut i: usize = 0;
    while i < resources.len()
        invariant
            0 < *held,
            *held == *old(held),
            resources@ == old(resources)@,
            eligible.len() == resources.len(),
            forall|j: int| 0 <= j < resources.len() ==> SPAWNER_MAX_RESOURCE - i32::MAX <= #[trigger] resources@[j],
            p == can_deposit(old(resources)@, eligible@),
            i <= resources.len(),
            forall|j: int| 0 <= j < i ==> !#[trigger] p(j),
        decreases resources.len() - i,
    {
        if eligible[i] && resources[i] < SPAWNER_MAX_RESOURCE {
            let r = resources[i];
            let room = SPAWNER_MAX_RESOURCE - r;
            let mut moved = if *held < room { *held } else { room };
            if TRANSFER_PER_TICK < moved {
                moved = TRANSFER_PER_TICK;
            }
            proof {
                lemma_first_where(resources.len() as int, p, i as int);
                lemma_total_update(resources@, i as int, (r + moved) as i32);
            }
            resources.set(i, r + moved);
            *held = *held - moved;
            if *held == 0 {
                return NodeResult::Success;
            } else {
                return NodeResult::Running;
            }
        }
        i += 1;
    }
    proof {
        lemma_first_where(resources.len() as int, p, i as int);
    }
    NodeResult::Success
}

} // verus!
