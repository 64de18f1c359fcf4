//! The run itself: the workers that issue the requests of their share one
//! after the other, and the orchestrator that accounts for every worker
//! exactly once before it puts the report together.
//!
//! Neither of them issues a request or waits for anything. A worker is told
//! the outcome of each request and answers with the progress to report; the
//! orchestrator is told which worker has joined or failed. The driver in
//! between owns the connections, the clock and the channel.

use std::time::Duration;
use vstd::prelude::*;
use vstd::string::StringSliceAdditionalSpecFns;
use crate::input_params::{
    check_target_url,
    is_absolute,
    uri_parts,
    valid_connections,
    ValidationError,
    CONNECTIONS_LIMIT,
    MIN_CONNECTIONS,
};
use crate::notification::NotificationTask;
use crate::partition::{
    assigned_total,
    is_partition,
    lemma_shares_exhaust_budget,
    partition,
    share,
    shares_upto,
    WorkAssignment,
};
use crate::report::report_of;
pub use crate::report::Report;
pub use crate::statistics::Statistics;
use crate::samples::{
    count_of,
    latencies_of,
    well_grouped,
    SampleRecord,
    SampleSet,
};

verus! {

/// What a run is asked to do.
#[derive(Debug)]
pub struct RunSettings {
    /// The number of requests of the whole run.
    pub requests: u64,
    /// The number of workers, each with a connection of its own.
    pub connections: u16,
    /// Where every request goes.
    pub target_url: String,
}

/// The verdict on the settings of a run: the first of them that is not
/// acceptable, in the order connections, requests, target.
pub open spec fn settings_verdict(connections: u16, requests: u64, target_url: Seq<char>) -> Option<
    ValidationError,
> {
    if !valid_connections(connections as int) {
        Some(ValidationError::Connections)
    } else if requests < 1 {
        Some(ValidationError::Requests)
    } else if !is_absolute(uri_parts(target_url)) {
        Some(ValidationError::TargetUrl)
    } else {
        None
    }
}

impl RunSettings {
    /// Checks the settings: the number of connections lies in
    /// `MIN_CONNECTIONS .. CONNECTIONS_LIMIT`, there is at least one
    /// request, and the target is an absolute URI.
    pub fn validate(&self) -> (r: Result<(), ValidationError>)
        ensures
            match r {
                Ok(()) => settings_verdict(self.connections, self.requests, self.target_url@)
                    is None,
                Err(e) => settings_verdict(self.connections, self.requests, self.target_url@)
                    == Some(e),
            },
    {
        if self.connections < MIN_CONNECTIONS || self.connections >= CONNECTIONS_LIMIT {
            return Err(ValidationError::Connections);
        }
        if self.requests < 1 {
            return Err(ValidationError::Requests);
        }
        check_target_url(self.target_url.as_str())
    }
}

/// Why a run has no report.
#[derive(Clone, Copy, Debug, PartialEq, Eq, Structural)]
pub enum RunError {
    /// A summary names a worker that the run does not have.
    UnknownWorker(u16),
    /// A second summary came in for the same worker.
    AlreadyJoined(u16),
    /// A summary does not account for every request of the worker's share.
    Incomplete(u16),
    /// The worker could not set up its connection. Of several such workers
    /// this is the one that was reported first.
    WorkerFailed(u16),
    /// The run was closed before this worker had joined. Of several such
    /// workers this is the one with the smallest number.
    WorkerMissing(u16),
}

/// A worker as plain values.
pub struct WorkerView {
    pub assignment: WorkAssignment,
    pub completed: nat,
    pub samples: Seq<(u16, Seq<u32>)>,
}

/// One worker of the run: it owns one connection and issues the requests of
/// its share one after the other. A request that fails is recorded like any
/// other and the worker goes on.
pub struct ConnectionWorker {
    assignment: WorkAssignment,
    completed: u64,
    samples: SampleSet,
}

impl View for ConnectionWorker {
    type V = WorkerView;

    closed spec fn view(&self) -> WorkerView {
        WorkerView {
            assignment: self.assignment,
            completed: self.completed as nat,
            samples: self.samples@,
        }
    }
}

impl ConnectionWorker {
    /// The worker is in the shape that every operation keeps: it holds one
    /// sample for each request that it has completed, and has completed no
    /// more requests than its share.
    pub closed spec fn wf(&self) -> bool {
        &&& self.samples.wf()
        &&& self.samples.count() == self.completed
        &&& self.completed <= self.assignment.request_count
    }

    /// Every request of the share is done.
    pub open spec fn done(&self) -> bool {
        self@.completed == self@.assignment.request_count
    }

    /// What `wf` says, over the view.
    pub proof fn lemma_wf(&self)
        requires
            self.wf(),
        ensures
            well_grouped(self@.samples),
            count_of(self@.samples) == self@.completed,
            self@.completed <= self@.assignment.request_count,
    {
    }

    /// The worker for `assignment`, before its first request.
    pub fn new(assignment: WorkAssignment) -> (worker: ConnectionWorker)
        ensures
            worker.wf(),
            worker@.assignment == assignment,
            worker@.completed == 0,
            worker@.samples.len() == 0,
    {
        ConnectionWorker { assignment, completed: 0, samples: SampleSet::new() }
    }

    /// Whether every request of the share is done.
    pub fn is_done(&self) -> (b: bool)
        requires
            self.wf(),
        ensures
            b == self.done(),
    {
        self.completed == self.assignment.request_count
    }

    /// The number of requests that are still to be issued.
    pub fn remaining(&self) -> (n: u64)
        requires
            self.wf(),
        ensures
            n == self@.assignment.request_count - self@.completed,
    {
        self.assignment.request_count - self.completed
    }

    /// Takes the outcome of the request that has just completed, and hands
    /// back the progress to report.
    ///
    /// As long as the share is not used up, the sample is kept under its
    /// classifier, behind the earlier ones, and the message carries the
    /// number of requests that this worker has completed by now. That
    /// number never exceeds the share. Once the share is used up, nothing
    /// is recorded and there is nothing to report.
    pub fn record(&mut self, sample: SampleRecord) -> (update: Option<NotificationTask>)
        requires
            old(self).wf(),
        ensures
            final(self).wf(),
            final(self)@.assignment == old(self)@.assignment,
            old(self).done() ==> update is None && final(self)@ == old(self)@,
            !old(self).done() ==> {
                &&& update == Some(
                    NotificationTask {
                        connection_id: old(self)@.assignment.worker_id,
                        progress_count: (old(self)@.completed + 1) as u64,
                    },
                )
                &&& final(self)@.completed == old(self)@.completed + 1
                &&& final(self)@.completed <= old(self)@.assignment.request_count
                &&& latencies_of(final(self)@.samples, sample.code) == latencies_of(
                    old(self)@.samples,
                    sample.code,
                ).push(sample.latency)
                &&& forall|other: u16|
                    other != sample.code ==> latencies_of(final(self)@.samples, other)
                        == latencies_of(old(self)@.samples, other)
            },
    {
        if self.completed == self.assignment.request_count {
            return None;
        }
        self.samples.push(sample);
        self.completed = self.completed + 1;
        proof {
            assert forall|other: u16| other != sample.code implies latencies_of(
                self@.samples,
                other,
            ) == latencies_of(old(self)@.samples, other) by {
                assert(self.samples.latencies(other) == old(self).samples.latencies(other));
            }
        }
        Some(
            NotificationTask {
                connection_id: self.assignment.worker_id,
                progress_count: self.completed,
            },
        )
    }

    /// Closes the worker and hands out what it has to show.
    pub fn finish(self, wall_duration: Duration) -> (summary: WorkerSummary)
        requires
            self.wf(),
        ensures
            summary.wf(),
            summary@.assignment == self@.assignment,
            summary@.completed == self@.completed,
            summary@.samples == self@.samples,
            summary.wall_duration_spec() == wall_duration,
    {
        WorkerSummary {
            assignment: self.assignment,
            completed: self.completed,
            samples: self.samples,
            wall_duration,
        }
    }
}

/// What a worker has to show when it is done: its samples, and how long it
/// was at work.
pub struct WorkerSummary {
    assignment: WorkAssignment,
    completed: u64,
    samples: SampleSet,
    wall_duration: Duration,
}

impl View for WorkerSummary {
    type V = WorkerView;

    closed spec fn view(&self) -> WorkerView {
        WorkerView {
            assignment: self.assignment,
            completed: self.completed as nat,
            samples: self.samples@,
        }
    }
}

impl WorkerSummary {
    /// The summary holds one sample for each request that was completed,
    /// and no more requests were completed than the share holds.
    pub closed spec fn wf(&self) -> bool {
        &&& self.samples.wf()
        &&& self.samples.count() == self.completed
        &&& self.completed <= self.assignment.request_count
    }

    /// The time the worker was at work.
    pub closed spec fn wall_duration_spec(&self) -> Duration {
        self.wall_duration
    }

    /// What `wf` says, over the view.
    pub proof fn lemma_wf(&self)
        requires
            self.wf(),
        ensures
            well_grouped(self@.samples),
            count_of(self@.samples) == self@.completed,
            self@.completed <= self@.assignment.request_count,
    {
    }

    /// The worker that the summary is of.
    pub fn worker_id(&self) -> (id: u16)
        ensures
            id == self@.assignment.worker_id,
    {
        self.assignment.worker_id
    }

    /// The number of requests that the worker completed.
    pub fn completed(&self) -> (n: u64)
        ensures
            n == self@.completed,
    {
        self.completed
    }

    /// The time the worker was at work.
    #[verifier::when_used_as_spec(wall_duration_spec)]
    pub fn wall_duration(&self) -> (d: Duration)
        ensures
            d == self.wall_duration_spec(),
    {
        self.wall_duration
    }
}

/// The requests of the workers that have joined.
pub open spec fn joined_budget(joined: Seq<bool>, requests: int, connections: int) -> int
    decreases joined.len(),
{
    if joined.len() == 0 {
        0
    } else {
        joined_budget(joined.drop_last(), requests, connections) + if joined.last() {
            share(requests, connections, joined.len() - 1)
        } else {
            0
        }
    }
}

/// The worker with the smallest number that has not joined, if there is one.
pub open spec fn first_missing(joined: Seq<bool>) -> Option<int> {
    if exists|i: int| 0 <= i < joined.len() && !joined[i] {
        Some(choose|i: int| 0 <= i < joined.len() && !joined[i] && forall|j: int| 0 <= j < i ==> joined[j])
    } else {
        None
    }
}

/// A worker that joins adds its share to the requests of those that have
/// joined.
proof fn lemma_budget_join(joined: Seq<bool>, requests: int, connections: int, at: int)
    requires
        0 <= at < joined.len(),
        !joined[at],
    ensures
        joined_budget(joined.update(at, true), requests, connections) == joined_budget(
            joined,
            requests,
            connections,
        ) + share(requests, connections, at),
    decreases joined.len(),
{
    let after = joined.update(at, true);
    if at == joined.len() - 1 {
        assert(after.drop_last() =~= joined.drop_last());
    } else {
        lemma_budget_join(joined.drop_last(), requests, connections, at);
        assert(after.drop_last() =~= joined.drop_last().update(at, true));
    }
}

/// The workers that have joined hold no more requests than all workers
/// together, and exactly as many once all have joined.
proof fn lemma_budget_bound(joined: Seq<bool>, requests: int, connections: int)
    requires
        0 <= requests,
        0 < connections,
    ensures
        0 <= joined_budget(joined, requests, connections) <= shares_upto(
            requests,
            connections,
            joined.len() as int,
        ),
        (forall|i: int| 0 <= i < joined.len() ==> joined[i]) ==> joined_budget(
            joined,
            requests,
            connections,
        ) == shares_upto(requests, connections, joined.len() as int),
    decreases joined.len(),
{
    if joined.len() > 0 {
        lemma_budget_bound(joined.drop_last(), requests, connections);
        let k = joined.len() - 1;
        vstd::arithmetic::div_mod::lemma_div_pos_is_pos(requests, connections);
        assert(share(requests, connections, k) >= 0);
        if forall|i: int| 0 <= i < joined.len() ==> joined[i] {
            assert forall|i: int| 0 <= i < joined.drop_last().len() implies joined.drop_last()[i] by {
                assert(joined[i]);
            }
        }
    }
}

/// A run as plain values.
pub struct OrchestratorView {
    pub requests: u64,
    pub connections: u16,
    pub joined: Seq<bool>,
    pub samples: Seq<(u16, Seq<u32>)>,
    pub failed: Option<u16>,
}

/// The verdict on a summary that comes in: nothing, where it is taken; else
/// why it is turned down.
pub open spec fn join_verdict(run: OrchestratorView, summary: WorkerView) -> Option<RunError> {
    let id = summary.assignment.worker_id;
    if id >= run.connections {
        Some(RunError::UnknownWorker(id))
    } else if run.joined[id as int] {
        Some(RunError::AlreadyJoined(id))
    } else if summary.assignment.request_count != share(
        run.requests as int,
        run.connections as int,
        id as int,
    ) || summary.completed != summary.assignment.request_count {
        Some(RunError::Incomplete(id))
    } else {
        None
    }
}

/// `after` is the run `before` with the worker of `summary` joined: the
/// worker counts as joined, and its samples stand behind those that the run
/// held under the same classifier.
pub open spec fn joined_with(
    before: OrchestratorView,
    after: OrchestratorView,
    summary: WorkerView,
) -> bool {
    &&& after.requests == before.requests
    &&& after.connections == before.connections
    &&& after.failed == before.failed
    &&& after.joined == before.joined.update(summary.assignment.worker_id as int, true)
    &&& well_grouped(after.samples)
    &&& forall|code: u16| #[trigger]
        latencies_of(after.samples, code) == latencies_of(before.samples, code) + latencies_of(
            summary.samples,
            code,
        )
    &&& count_of(after.samples) == count_of(before.samples) + summary.completed
}

/// `after` is the run `before` with the failure of a worker noted: of
/// several failures, the first is kept.
pub open spec fn failed_with(
    before: OrchestratorView,
    after: OrchestratorView,
    worker_id: u16,
) -> bool {
    &&& after.requests == before.requests
    &&& after.connections == before.connections
    &&& after.joined == before.joined
    &&& after.samples == before.samples
    &&& after.failed == match before.failed {
        Some(first) => Some(first),
        None => Some(worker_id),
    }
}

/// Why a run in this state has no report, if it has none.
pub open spec fn finish_verdict(run: OrchestratorView) -> Option<RunError> {
    match run.failed {
        Some(id) => Some(RunError::WorkerFailed(id)),
        None => match first_missing(run.joined) {
            Some(i) => Some(RunError::WorkerMissing(i as u16)),
            None => None,
        },
    }
}

/// The run as a whole: it hands out the shares, takes the summary of every
/// worker exactly once, and puts the report together when all have joined.
pub struct RunOrchestrator {
    requests: u64,
    connections: u16,
    joined: Vec<bool>,
    samples: SampleSet,
    collected: u64,
    failed: Option<u16>,
}

impl View for RunOrchestrator {
    type V = OrchestratorView;

    closed spec fn view(&self) -> OrchestratorView {
        OrchestratorView {
            requests: self.requests,
            connections: self.connections,
            joined: self.joined@,
            samples: self.samples@,
            failed: self.failed,
        }
    }
}

impl RunOrchestrator {
    /// The run is in the shape that every operation keeps: it knows of each
    /// worker whether it has joined, and holds exactly the requests of the
    /// workers that have.
    pub closed spec fn wf(&self) -> bool {
        &&& self.connections >= 1
        &&& self.joined@.len() == self.connections
        &&& self.samples.wf()
        &&& self.samples.count() == self.collected
        &&& self.collected == joined_budget(
            self.joined@,
            self.requests as int,
            self.connections as int,
        )
    }

    /// What `wf` says, over the view.
    pub proof fn lemma_wf(&self)
        requires
            self.wf(),
        ensures
            self@.connections >= 1,
            self@.joined.len() == self@.connections,
            well_grouped(self@.samples),
            count_of(self@.samples) == joined_budget(
                self@.joined,
                self@.requests as int,
                self@.connections as int,
            ),
            count_of(self@.samples) <= self@.requests,
    {
        lemma_budget_bound(self.joined@, self.requests as int, self.connections as int);
        lemma_shares_exhaust_budget(self.requests as int, self.connections as int);
    }

    /// Opens a run with the given settings, if they are acceptable. No
    /// worker has joined yet.
    pub fn new(settings: &RunSettings) -> (r: Result<RunOrchestrator, ValidationError>)
        ensures
            match r {
                Ok(run) => {
                    &&& settings_verdict(
                        settings.connections,
                        settings.requests,
                        settings.target_url@,
                    ) is None
                    &&& run.wf()
                    &&& run@.requests == settings.requests
                    &&& run@.connections == settings.connections
                    &&& run@.joined == Seq::new(settings.connections as nat, |i: int| false)
                    &&& run@.samples.len() == 0
                    &&& run@.failed is None
                },
                Err(e) => settings_verdict(
                    settings.connections,
                    settings.requests,
                    settings.target_url@,
                ) == Some(e),
            },
    {
        match settings.validate() {
            Ok(()) => {},
            Err(e) => {
                return Err(e);
            },
        }
        let mut joined: Vec<bool> = Vec::new();
        let mut i: u16 = 0;
        while i < settings.connections
            invariant
                i <= settings.connections,
                joined@ == Seq::new(i as nat, |k: int| false),
                joined_budget(joined@, settings.requests as int, settings.connections as int)
                    == 0,
            decreases settings.connections - i,
        {
            let ghost before = joined@;
            joined.push(false);
            proof {
                assert(joined@.drop_last() =~= before);
                assert(joined@ =~= Seq::new((i + 1) as nat, |k: int| false));
            }
            i += 1;
        }
        Ok(
            RunOrchestrator {
                requests: settings.requests,
                connections: settings.connections,
                joined,
                samples: SampleSet::new(),
                collected: 0,
                failed: None,
            },
        )
    }

    /// The shares of the workers: one assignment per worker, which together
    /// make up the budget of the run.
    pub fn assignments(&self) -> (plan: Vec<WorkAssignment>)
        requires
            self.wf(),
        ensures
            is_partition(plan@, self@.requests as int, self@.connections as int),
            assigned_total(plan@) == self@.requests,
    {
        partition(self.requests, self.connections)
    }

    /// Takes the summary of a worker that is done.
    ///
    /// The summary is taken when it is of a worker of this run that has not
    /// joined before, and accounts for every request of that worker's
    /// share. Its samples then go behind those that the run holds under the
    /// same classifier. A summary that is turned down changes nothing.
    pub fn join(&mut self, summary: WorkerSummary) -> (r: Result<(), RunError>)
        requires
            old(self).wf(),
            summary.wf(),
        ensures
            final(self).wf(),
            match r {
                Ok(()) => join_verdict(old(self)@, summary@) is None && joined_with(
                    old(self)@,
                    final(self)@,
                    summary@,
                ),
                Err(e) => join_verdict(old(self)@, summary@) == Some(e) && final(self)@ == old(
                    self,
                )@,
            },
    {
        let id: u16 = summary.assignment.worker_id;
        if id >= self.connections {
            return Err(RunError::UnknownWorker(id));
        }
        if self.joined[id as usize] {
            return Err(RunError::AlreadyJoined(id));
        }
        let base: u64 = self.requests / self.connections as u64;
        let extra: u64 = self.requests % self.connections as u64;
        proof {
            lemma_budget_join(
                self.joined@,
                self.requests as int,
                self.connections as int,
                id as int,
            );
            lemma_budget_bound(
                self.joined@.update(id as int, true),
                self.requests as int,
                self.connections as int,
            );
            lemma_shares_exhaust_budget(self.requests as int, self.connections as int);
        }
        let due: u64 = if (id as u64) < extra {
            base + 1
        } else {
            base
        };
        if summary.assignment.request_count != due || summary.completed != due {
            return Err(RunError::Incomplete(id));
        }
        self.joined.set(id as usize, true);
        self.collected = self.collected + summary.completed;
        self.samples.absorb(summary.samples);
        proof {
            assert forall|code: u16| #[trigger]
                latencies_of(self@.samples, code) == latencies_of(old(self)@.samples, code)
                    + latencies_of(summary@.samples, code) by {
                assert(self.samples.latencies(code) == old(self).samples.latencies(code)
                    + summary.samples.latencies(code));
            }
        }
        Ok(())
    }

    /// Takes note that a worker could not set up its connection. Only the
    /// first such worker is remembered; the run will have no report.
    pub fn fail(&mut self, worker_id: u16)
        requires
            old(self).wf(),
        ensures
            final(self).wf(),
            failed_with(old(self)@, final(self)@, worker_id),
    {
        if self.failed.is_none() {
            self.failed = Some(worker_id);
        }
    }

    /// Takes note of how the task of one worker ended: with a summary, or
    /// without one where the worker could not do its work.
    ///
    /// A summary that can be taken is taken as by `join`. In every other
    /// case the worker counts as failed, as by `fail`.
    pub fn settle(&mut self, worker_id: u16, outcome: Option<WorkerSummary>)
        requires
            old(self).wf(),
            outcome matches Some(summary) ==> summary.wf(),
        ensures
            final(self).wf(),
            match outcome {
                Some(summary) => if join_verdict(old(self)@, summary@) is None {
                    joined_with(old(self)@, final(self)@, summary@)
                } else {
                    failed_with(old(self)@, final(self)@, worker_id)
                },
                None => failed_with(old(self)@, final(self)@, worker_id),
            },
    {
        match outcome {
            Some(summary) => {
                if self.join(summary).is_err() {
                    self.fail(worker_id);
                }
            },
            None => self.fail(worker_id),
        }
    }

    /// Closes the run, which took `elapsed`, and puts the report together.
    ///
    /// There is a report exactly when no worker failed and every worker has
    /// joined. It then accounts for every request of the budget.
    pub fn finish(self, elapsed: Duration) -> (r: Result<Report, RunError>)
        requires
            self.wf(),
        ensures
            match r {
                Ok(report) => {
                    &&& finish_verdict(self@) is None
                    &&& report@ == report_of(elapsed, self@.samples)
                    &&& report@.total_requests == self@.requests
                    &&& report@.successful_requests + report@.failed_requests
                        == self@.requests
                },
                Err(e) => finish_verdict(self@) == Some(e),
            },
    {
        if let Some(id) = self.failed {
            return Err(RunError::WorkerFailed(id));
        }
        let mut worker: u16 = 0;
        while worker < self.connections
            invariant
                worker <= self.connections,
                self.joined@.len() == self.connections,
                self.failed is None,
                forall|j: int| 0 <= j < worker ==> self.joined@[j],
            decreases self.connections - worker,
        {
            if !self.joined[worker as usize] {
                proof {
                    let joined = self.joined@;
                    let here = worker as int;
                    assert(0 <= here < joined.len() && !joined[here] && forall|j: int|
                        0 <= j < here ==> joined[j]);
                    let first = choose|i: int|
                        0 <= i < joined.len() && !joined[i] && forall|j: int|
                            0 <= j < i ==> joined[j];
                    if first < worker {
                        assert(joined[first]);
                    } else if worker < first {
                        assert(joined[worker as int]);
                    }
                }
                return Err(RunError::WorkerMissing(worker));
            }
            worker += 1;
        }
        proof {
            lemma_budget_bound(self.joined@, self.requests as int, self.connections as int);
            lemma_shares_exhaust_budget(self.requests as int, self.connections as int);
        }
        Ok(Report::new(elapsed, &self.samples))
    }
}

} // verus!
