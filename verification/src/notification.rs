//! Progress, as the workers tell it and as the one observer adds it up.

use std::collections::HashMap;
use vstd::prelude::*;
use vstd::std_specs::hash::group_hash_axioms;
use crate::partition::{assigned_total, lemma_shares_exhaust_budget, share, shares_upto, WorkAssignment};

verus! {

/// What a worker sends after a request has completed: how many of its
/// requests are done by now.
#[derive(Clone, Copy, Debug, PartialEq, Eq, Structural)]
pub struct NotificationTask {
    /// The worker that sends the message, counted from zero.
    pub connection_id: u16,
    /// The number of requests that the worker has completed so far.
    pub progress_count: u64,
}

/// One more than the largest number a worker can have.
pub const WORKERS_LIMIT: u32 = 65_536;

/// The progress that `worker` reported last; zero, if it has not reported.
pub open spec fn latest(counters: Map<u16, u64>, worker: u16) -> int {
    if counters.contains_key(worker) {
        counters[worker] as int
    } else {
        0
    }
}

/// The sum of the latest progress of the workers below `k`.
pub open spec fn progress_below(counters: Map<u16, u64>, k: int) -> int
    decreases k,
{
    if k <= 0 {
        0
    } else {
        progress_below(counters, k - 1) + latest(counters, (k - 1) as u16)
    }
}

/// The sum of the latest progress of all workers.
pub open spec fn progress_total(counters: Map<u16, u64>) -> int {
    progress_below(counters, WORKERS_LIMIT as int)
}

/// The counters after the messages have come in, one after the other: each
/// message replaces the counter of its worker.
pub open spec fn replay(counters: Map<u16, u64>, messages: Seq<NotificationTask>) -> Map<u16, u64>
    decreases messages.len(),
{
    if messages.len() == 0 {
        counters
    } else {
        replay(counters, messages.drop_last()).insert(
            messages.last().connection_id,
            messages.last().progress_count,
        )
    }
}

/// How many of the first `k` messages come from `worker`.
pub open spec fn sent_before(messages: Seq<NotificationTask>, k: int, worker: u16) -> int
    decreases k,
{
    if k <= 0 {
        0
    } else {
        sent_before(messages, k - 1, worker) + if messages[k - 1].connection_id == worker {
            1int
        } else {
            0int
        }
    }
}

/// The messages are those of a run: every worker counts its own requests
/// from one upwards, whatever the order in which the messages of different
/// workers come.
pub open spec fn is_run_stream(messages: Seq<NotificationTask>) -> bool {
    forall|k: int|
        0 <= k < messages.len() ==> (#[trigger] messages[k]).progress_count == sent_before(
            messages,
            k,
            messages[k].connection_id,
        ) + 1
}

/// Every counter belongs to a worker of the plan and stays within the
/// share of that worker.
pub open spec fn within_plan(counters: Map<u16, u64>, plan: Seq<WorkAssignment>) -> bool {
    forall|worker: u16| #[trigger]
        counters.contains_key(worker) ==> worker < plan.len() && counters[worker]
            <= plan[worker as int].request_count
}

/// The sum of the latest progress is not negative and has a bound.
pub proof fn lemma_progress_bounds(counters: Map<u16, u64>, k: int)
    requires
        0 <= k,
    ensures
        0 <= progress_below(counters, k) <= k * u64::MAX,
    decreases k,
{
    if k > 0 {
        lemma_progress_bounds(counters, k - 1);
    }
}

/// A message changes the sum by the difference between the new counter of
/// its worker and the old one.
pub proof fn lemma_progress_insert(counters: Map<u16, u64>, worker: u16, count: u64, k: int)
    requires
        0 <= k <= WORKERS_LIMIT,
    ensures
        progress_below(counters.insert(worker, count), k) == progress_below(counters, k) + if worker
            < k {
            count - latest(counters, worker)
        } else {
            0
        },
    decreases k,
{
    if k > 0 {
        lemma_progress_insert(counters, worker, count, k - 1);
    }
}

/// No worker has reported more than all workers together.
pub proof fn lemma_latest_within_total(counters: Map<u16, u64>, worker: u16)
    ensures
        0 <= latest(counters, worker) <= progress_total(counters),
{
    lemma_progress_insert(counters, worker, 0, WORKERS_LIMIT as int);
    lemma_progress_bounds(counters.insert(worker, 0), WORKERS_LIMIT as int);
}

/// Counters that stay within a plan add up to no more than the plan
/// assigns.
pub proof fn lemma_progress_within_plan(counters: Map<u16, u64>, plan: Seq<WorkAssignment>)
    requires
        within_plan(counters, plan),
    ensures
        progress_total(counters) <= assigned_total(plan),
{
    lemma_within_plan_below(counters, plan, WORKERS_LIMIT as int);
    if plan.len() <= WORKERS_LIMIT {
        assert(plan.take(plan.len() as int) =~= plan);
    } else {
        lemma_assigned_prefix(plan, WORKERS_LIMIT as int);
    }
}

/// The first assignments of a plan assign no more than the whole plan,
/// and nothing less than nothing.
proof fn lemma_assigned_prefix(plan: Seq<WorkAssignment>, k: int)
    requires
        0 <= k <= plan.len(),
    ensures
        0 <= assigned_total(plan.take(k)) <= assigned_total(plan),
    decreases plan.len() - k,
{
    if k == plan.len() {
        assert(plan.take(k) =~= plan);
        lemma_assigned_nonnegative(plan);
    } else {
        lemma_assigned_prefix(plan, k + 1);
        assert(plan.take(k + 1).drop_last() =~= plan.take(k));
        lemma_assigned_nonnegative(plan.take(k));
    }
}

/// A plan assigns nothing less than nothing.
proof fn lemma_assigned_nonnegative(plan: Seq<WorkAssignment>)
    ensures
        0 <= assigned_total(plan),
    decreases plan.len(),
{
    if plan.len() > 0 {
        lemma_assigned_nonnegative(plan.drop_last());
    }
}

/// The workers below `k` have reported no more than the plan assigns to
/// them.
proof fn lemma_within_plan_below(counters: Map<u16, u64>, plan: Seq<WorkAssignment>, k: int)
    requires
        within_plan(counters, plan),
        0 <= k <= WORKERS_LIMIT,
    ensures
        progress_below(counters, k) <= assigned_total(
            plan.take(
                if k <= plan.len() {
                    k
                } else {
                    plan.len() as int
                },
            ),
        ),
    decreases k,
{
    if k > 0 {
        lemma_within_plan_below(counters, plan, k - 1);
        let worker = (k - 1) as u16;
        if k <= plan.len() {
            assert(plan.take(k).drop_last() =~= plan.take(k - 1));
            assert(counters.contains_key(worker) ==> counters[worker]
                <= plan[worker as int].request_count);
        } else {
            assert(!counters.contains_key(worker));
        }
    } else {
        assert(plan.take(0) =~= Seq::<WorkAssignment>::empty());
    }
}

/// After the first `k` messages of a run, every worker stands at the
/// number of messages it has sent, and the sum of all counters is `k`:
/// the observer sees the numbers 1, 2, 3 and so on, whatever the order in
/// which the workers take their turns.
pub proof fn lemma_run_stream_counts_up(messages: Seq<NotificationTask>, k: int)
    requires
        is_run_stream(messages),
        0 <= k <= messages.len(),
    ensures
        forall|worker: u16| #[trigger]
            latest(replay(Map::empty(), messages.take(k)), worker) == sent_before(
                messages,
                k,
                worker,
            ),
        progress_total(replay(Map::empty(), messages.take(k))) == k,
    decreases k,
{
    let now = replay(Map::<u16, u64>::empty(), messages.take(k));
    if k == 0 {
        assert(messages.take(0) =~= Seq::<NotificationTask>::empty());
        lemma_progress_empty(WORKERS_LIMIT as int);
    } else {
        lemma_run_stream_counts_up(messages, k - 1);
        let before = replay(Map::<u16, u64>::empty(), messages.take(k - 1));
        let message = messages[k - 1];
        assert(messages.take(k).drop_last() =~= messages.take(k - 1));
        assert(messages.take(k).last() == message);
        assert(now == before.insert(message.connection_id, message.progress_count));
        assert(latest(before, message.connection_id) == sent_before(
            messages,
            k - 1,
            message.connection_id,
        ));
        lemma_progress_insert(
            before,
            message.connection_id,
            message.progress_count,
            WORKERS_LIMIT as int,
        );
        assert forall|worker: u16| #[trigger]
            latest(now, worker) == sent_before(messages, k, worker) by {
            assert(latest(before, worker) == sent_before(messages, k - 1, worker));
        }
    }
}

/// No counters, no progress.
proof fn lemma_progress_empty(k: int)
    ensures
        progress_below(Map::<u16, u64>::empty(), k) == 0,
    decreases k,
{
    if k > 0 {
        lemma_progress_empty(k - 1);
    }
}

/// Counters that stand at the shares of the workers add up to what the
/// shares of the workers below `k` add up to.
proof fn lemma_progress_of_shares(
    counters: Map<u16, u64>,
    requests: int,
    connections: int,
    k: int,
)
    requires
        0 <= requests,
        0 < connections <= WORKERS_LIMIT,
        0 <= k <= WORKERS_LIMIT,
        forall|worker: u16| #[trigger]
            latest(counters, worker) == if worker < connections {
                share(requests, connections, worker as int)
            } else {
                0
            },
    ensures
        progress_below(counters, k) == shares_upto(
            requests,
            connections,
            if k <= connections {
                k
            } else {
                connections
            },
        ),
    decreases k,
{
    if k > 0 {
        lemma_progress_of_shares(counters, requests, connections, k - 1);
        let worker = (k - 1) as u16;
        assert(latest(counters, worker) == if worker < connections {
            share(requests, connections, worker as int)
        } else {
            0
        });
    }
}

/// The messages of a whole run count every request of the budget: when
/// each worker of the run has reported each request of its share, and
/// nobody else has reported anything, there were as many messages as the
/// run has requests, the sum of all counters stands at that number, and no
/// worker has put in more than its share.
pub proof fn lemma_run_stream_reaches_budget(
    messages: Seq<NotificationTask>,
    requests: int,
    connections: int,
)
    requires
        0 <= requests,
        0 < connections <= WORKERS_LIMIT,
        is_run_stream(messages),
        forall|worker: u16| #[trigger]
            sent_before(messages, messages.len() as int, worker) == if worker < connections {
                share(requests, connections, worker as int)
            } else {
                0
            },
    ensures
        messages.len() == requests,
        progress_total(replay(Map::empty(), messages)) == requests,
        forall|worker: u16| #[trigger]
            latest(replay(Map::empty(), messages), worker) <= requests / connections + 1,
{
    let end = replay(Map::<u16, u64>::empty(), messages);
    lemma_run_stream_counts_up(messages, messages.len() as int);
    assert(messages.take(messages.len() as int) =~= messages);
    assert forall|worker: u16| #[trigger]
        latest(end, worker) == if worker < connections {
            share(requests, connections, worker as int)
        } else {
            0
        } by {
        assert(latest(end, worker) == sent_before(messages, messages.len() as int, worker));
    }
    lemma_progress_of_shares(end, requests, connections, WORKERS_LIMIT as int);
    lemma_shares_exhaust_budget(requests, connections);
    assert forall|worker: u16| #[trigger]
        latest(end, worker) <= requests / connections + 1 by {
        if worker < connections {
            assert(share(requests, connections, worker as int) <= requests / connections + 1);
        } else {
            vstd::arithmetic::div_mod::lemma_div_pos_is_pos(requests, connections);
        }
    }
}

/// The counters of the observer: for every worker that has reported, the
/// progress it reported last. Only the task that drains the channel owns
/// the table, so nothing in it needs a lock.
pub struct ProgressTable {
    counters: HashMap<u16, u64>,
    total: u128,
}

impl ProgressTable {
    /// The progress each worker reported last, by worker.
    pub closed spec fn counters(&self) -> Map<u16, u64> {
        self.counters@
    }

    /// The table is in the shape that every operation keeps.
    pub closed spec fn wf(&self) -> bool {
        self.total == progress_total(self.counters@)
    }

    /// What `wf` says: the table knows the sum of its counters, and the
    /// sum is small enough to be held.
    pub proof fn lemma_wf(&self)
        requires
            self.wf(),
        ensures
            0 <= progress_total(self.counters()) <= WORKERS_LIMIT * u64::MAX,
    {
        lemma_progress_bounds(self.counters@, WORKERS_LIMIT as int);
    }

    /// The table before any worker has reported.
    pub fn new() -> (table: ProgressTable)
        ensures
            table.wf(),
            table.counters() == Map::<u16, u64>::empty(),
            progress_total(table.counters()) == 0,
    {
        proof {
            lemma_progress_empty(WORKERS_LIMIT as int);
        }
        ProgressTable { counters: HashMap::new(), total: 0 }
    }

    /// Takes note of one message and returns the number of requests that
    /// are done over all workers.
    ///
    /// Every message replaces the counter of its worker; a worker that has
    /// not reported before gets its counter now. What comes back is the sum
    /// of the counters of all workers. The messages of different workers may
    /// come in any order.
    pub fn record(&mut self, update: NotificationTask) -> (done: u128)
        requires
            old(self).wf(),
        ensures
            final(self).wf(),
            final(self).counters() == old(self).counters().insert(
                update.connection_id,
                update.progress_count,
            ),
            final(self).counters() == replay(old(self).counters(), seq![update]),
            done == progress_total(final(self).counters()),
            done == progress_total(old(self).counters()) - latest(
                old(self).counters(),
                update.connection_id,
            ) + update.progress_count,
    {
        broadcast use group_hash_axioms;

        proof {
            lemma_progress_insert(
                self.counters@,
                update.connection_id,
                update.progress_count,
                WORKERS_LIMIT as int,
            );
            lemma_latest_within_total(self.counters@, update.connection_id);
            lemma_progress_bounds(
                self.counters@.insert(update.connection_id, update.progress_count),
                WORKERS_LIMIT as int,
            );
            let one = seq![update];
            assert(one.drop_last() =~= Seq::<NotificationTask>::empty());
            assert(replay(self.counters@, one.drop_last()) == self.counters@);
        }
        let previous: u64 = match self.counters.insert(update.connection_id, update.progress_count) {
            Some(count) => count,
            None => 0,
        };
        self.total = self.total - previous as u128 + update.progress_count as u128;
        self.total
    }

    /// The number of requests that are done over all workers.
    pub fn completed(&self) -> (done: u128)
        requires
            self.wf(),
        ensures
            done == progress_total(self.counters()),
    {
        self.total
    }
}

} // verus!
