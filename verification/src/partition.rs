//! Splitting the request budget of a run over its connections.
//!
//! Nothing is dropped: every worker gets the whole part of
//! `requests / connections`, and the first `requests % connections` workers
//! get one request more.

use vstd::arithmetic::div_mod::lemma_fundamental_div_mod;
use vstd::prelude::*;

verus! {

/// The share of the budget that one worker executes.
#[derive(Clone, Copy, Debug, PartialEq, Eq, Structural)]
pub struct WorkAssignment {
    /// The worker, counted from zero.
    pub worker_id: u16,
    /// How many requests the worker issues, one after the other.
    pub request_count: u64,
}

/// The number of requests that worker `worker` gets out of `requests`, when
/// there are `connections` workers.
pub open spec fn share(requests: int, connections: int, worker: int) -> int {
    requests / connections + if worker < requests % connections {
        1int
    } else {
        0int
    }
}

/// What the first `k` workers get together.
pub open spec fn shares_upto(requests: int, connections: int, k: int) -> int
    decreases k,
{
    if k <= 0 {
        0
    } else {
        shares_upto(requests, connections, k - 1) + share(requests, connections, k - 1)
    }
}

/// The requests of a whole plan.
pub open spec fn assigned_total(plan: Seq<WorkAssignment>) -> int
    decreases plan.len(),
{
    if plan.len() == 0 {
        0
    } else {
        assigned_total(plan.drop_last()) + plan.last().request_count
    }
}

/// `plan` is the way in which `requests` are split over `connections`
/// workers: one assignment per worker, in the order of the workers, each
/// with its share.
pub open spec fn is_partition(plan: Seq<WorkAssignment>, requests: int, connections: int) -> bool {
    &&& plan.len() == connections
    &&& forall|i: int|
        0 <= i < plan.len() ==> (#[trigger] plan[i]).worker_id == i && plan[i].request_count
            == share(requests, connections, i)
}

/// The first `k` workers get `k` times the whole part of
/// `requests / connections`, and one request each of the remainder as far as
/// it goes.
pub proof fn lemma_shares_upto(requests: int, connections: int, k: int)
    requires
        0 <= requests,
        0 < connections,
        0 <= k <= connections,
    ensures
        shares_upto(requests, connections, k) == k * (requests / connections) + if k <= requests
            % connections {
            k
        } else {
            requests % connections
        },
    decreases k,
{
    if k > 0 {
        lemma_shares_upto(requests, connections, k - 1);
        let base = requests / connections;
        assert(k * base == (k - 1) * base + base) by (nonlinear_arith);
    } else {
        assert(0 * (requests / connections) == 0);
    }
}

/// The shares of all workers add up to the budget, and no two shares differ
/// by more than one request.
pub proof fn lemma_shares_exhaust_budget(requests: int, connections: int)
    requires
        0 <= requests,
        0 < connections,
    ensures
        shares_upto(requests, connections, connections) == requests,
        forall|i: int|
            0 <= i < connections ==> requests / connections <= #[trigger] share(
                requests,
                connections,
                i,
            ) <= requests / connections + 1,
{
    lemma_shares_upto(requests, connections, connections);
    lemma_fundamental_div_mod(requests, connections);
}

/// A partition assigns what the shares add up to.
pub proof fn lemma_partition_total(plan: Seq<WorkAssignment>, requests: int, connections: int)
    requires
        0 <= requests,
        0 < connections,
        is_partition(plan, requests, connections),
    ensures
        assigned_total(plan) == requests,
{
    lemma_plan_prefix_total(plan, requests, connections, plan.len() as int);
    assert(plan.take(plan.len() as int) =~= plan);
    lemma_shares_exhaust_budget(requests, connections);
}

/// The first `k` assignments of a plan that gives every worker its share
/// assign what the first `k` shares add up to.
proof fn lemma_plan_prefix_total(
    plan: Seq<WorkAssignment>,
    requests: int,
    connections: int,
    k: int,
)
    requires
        0 <= k <= plan.len(),
        forall|i: int|
            0 <= i < plan.len() ==> (#[trigger] plan[i]).request_count == share(
                requests,
                connections,
                i,
            ),
    ensures
        assigned_total(plan.take(k)) == shares_upto(requests, connections, k),
    decreases k,
{
    if k > 0 {
        lemma_plan_prefix_total(plan, requests, connections, k - 1);
        assert(plan.take(k).drop_last() =~= plan.take(k - 1));
        assert(plan.take(k).last() == plan[k - 1]);
    }
}

/// Splits `requests` over `connections` workers.
///
/// The plan holds one assignment per worker, in the order of the workers.
/// Together the assignments make up the whole budget, and each of them is
/// the whole part of `requests / connections` or one more.
pub fn partition(requests: u64, connections: u16) -> (plan: Vec<WorkAssignment>)
    requires
        connections >= 1,
    ensures
        is_partition(plan@, requests as int, connections as int),
        assigned_total(plan@) == requests,
        forall|i: int|
            0 <= i < plan@.len() ==> requests / (connections as u64) <= (
            #[trigger] plan@[i]).request_count <= requests / (connections as u64) + 1,
{
    let base: u64 = requests / connections as u64;
    let extra: u64 = requests % connections as u64;
    let mut plan: Vec<WorkAssignment> = Vec::new();
    let mut worker: u16 = 0;
    proof {
        lemma_fundamental_div_mod(requests as int, connections as int);
        assert(base < u64::MAX || extra == 0) by (nonlinear_arith)
            requires
                requests == connections * base + extra,
                requests <= u64::MAX,
                connections >= 1,
                extra >= 0,
                base >= 0,
        ;
    }
    while worker < connections
        invariant
            worker <= connections,
            connections >= 1,
            base == requests / (connections as u64),
            extra == requests % (connections as u64),
            base < u64::MAX || extra == 0,
            plan@.len() == worker,
            forall|i: int|
                0 <= i < plan@.len() ==> (#[trigger] plan@[i]).worker_id == i
                    && plan@[i].request_count == share(requests as int, connections as int, i),
        decreases connections - worker,
    {
        let request_count: u64 = if (worker as u64) < extra {
            base + 1
        } else {
            base
        };
        plan.push(WorkAssignment { worker_id: worker, request_count });
        worker += 1;
    }
    proof {
        lemma_partition_total(plan@, requests as int, connections as int);
        lemma_shares_exhaust_budget(requests as int, connections as int);
    }
    plan
}

} // verus!
