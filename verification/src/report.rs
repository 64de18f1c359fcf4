//! The result of a run, and its form as a table of comma-separated values.

use std::time::Duration;
use vstd::prelude::*;
use vstd::string::StringSliceAdditionalSpecFns;
use crate::decimal::{
    decimal_digits,
    hundredths_digits,
    push_decimal,
    push_hundredths,
    push_text,
};
use vstd::seq_lib::to_multiset_len;
use crate::samples::{
    count_of,
    has_code,
    latencies_of,
    lemma_count_bounds,
    lemma_seen_means_present,
    lemma_same_samples_same_figures,
    statistics_list,
    well_grouped,
    SampleSet,
    TRANSPORT_ERROR,
};
use crate::statistics::{Statistics, StatisticsView};

verus! {

/// A report as unbounded numbers.
pub struct ReportView {
    pub elapsed: Duration,
    pub total_requests: nat,
    pub successful_requests: nat,
    pub failed_requests: nat,
    pub stats: Seq<StatisticsView>,
}

/// The report of a run that took `elapsed` and whose latencies, kept apart
/// by classifier, are `groups`: every sample counts as one request, a
/// request has failed when it got no response, and every classifier that
/// was seen has its figures, in ascending order of the classifiers.
pub open spec fn report_of(elapsed: Duration, groups: Seq<(u16, Seq<u32>)>) -> ReportView {
    let failed = latencies_of(groups, TRANSPORT_ERROR).len();
    ReportView {
        elapsed,
        total_requests: count_of(groups),
        successful_requests: (count_of(groups) - failed) as nat,
        failed_requests: failed,
        stats: statistics_list(groups),
    }
}

/// In every report, each request has either succeeded or failed.
pub proof fn lemma_requests_balance(elapsed: Duration, groups: Seq<(u16, Seq<u32>)>)
    requires
        well_grouped(groups),
    ensures
        report_of(elapsed, groups).successful_requests + report_of(
            elapsed,
            groups,
        ).failed_requests == report_of(elapsed, groups).total_requests,
{
    lemma_count_bounds(groups, TRANSPORT_ERROR);
}

/// The requests that a list of figures accounts for.
pub open spec fn requests_in(stats: Seq<StatisticsView>) -> nat
    decreases stats.len(),
{
    if stats.len() == 0 {
        0
    } else {
        requests_in(stats.drop_last()) + stats.last().requests
    }
}

/// The figures of a report account for every request: the requests of all
/// classifiers add up to the requests of the run.
pub proof fn lemma_figures_account_for_every_request(
    elapsed: Duration,
    groups: Seq<(u16, Seq<u32>)>,
)
    ensures
        requests_in(report_of(elapsed, groups).stats) == report_of(elapsed, groups).total_requests,
    decreases groups.len(),
{
    if groups.len() > 0 {
        lemma_figures_account_for_every_request(elapsed, groups.drop_last());
        assert(statistics_list(groups).drop_last() =~= statistics_list(groups.drop_last()));
    }
}

/// Every classifier of the list has at least one request, and the
/// classifiers ascend, so that none comes twice.
pub open spec fn listed_once(stats: Seq<StatisticsView>) -> bool {
    &&& forall|i: int, j: int|
        0 <= i < j < stats.len() ==> (#[trigger] stats[i]).code < (#[trigger] stats[j]).code
    &&& forall|i: int| 0 <= i < stats.len() ==> (#[trigger] stats[i]).requests >= 1
}

/// A report lists exactly the classifiers that were seen, each of them
/// once, in ascending order.
pub proof fn lemma_report_lists_each_classifier_once(
    elapsed: Duration,
    groups: Seq<(u16, Seq<u32>)>,
)
    requires
        well_grouped(groups),
    ensures
        listed_once(report_of(elapsed, groups).stats),
        forall|code: u16|
            latencies_of(groups, code).len() > 0 <==> exists|i: int|
                0 <= i < report_of(elapsed, groups).stats.len() && (#[trigger] report_of(
                    elapsed,
                    groups,
                ).stats[i]).code == code,
{
    let stats = report_of(elapsed, groups).stats;
    assert forall|i: int, j: int| 0 <= i < j < stats.len() implies (#[trigger] stats[i]).code < (
    #[trigger] stats[j]).code by {
        assert(groups[i].0 < groups[j].0);
    }
    assert forall|i: int| 0 <= i < stats.len() implies (#[trigger] stats[i]).requests >= 1 by {
        assert(groups[i].1.len() > 0);
    }
    assert forall|code: u16|
        latencies_of(groups, code).len() > 0 <==> exists|i: int|
            0 <= i < stats.len() && (#[trigger] stats[i]).code == code by {
        lemma_seen_means_present(groups, code);
        if has_code(groups, code) {
            let i = choose|i: int| 0 <= i < groups.len() && (#[trigger] groups[i]).0 == code;
            assert(stats[i].code == code);
        }
        if exists|i: int| 0 <= i < stats.len() && (#[trigger] stats[i]).code == code {
            let i = choose|i: int| 0 <= i < stats.len() && (#[trigger] stats[i]).code == code;
            assert(groups[i].0 == code);
        }
    }
}

/// A report depends on nothing but the time the run took and the samples
/// that were taken: two reports that are put together from the same are
/// equal.
pub proof fn lemma_report_is_determined(
    first: Report,
    second: Report,
    elapsed: Duration,
    groups: Seq<(u16, Seq<u32>)>,
)
    requires
        first@ == report_of(elapsed, groups),
        second@ == report_of(elapsed, groups),
    ensures
        first@ == second@,
{
}

/// The order in which the samples arrive does not matter to the report,
/// and so neither does the order in which the workers join: runs that took
/// equally long and hold the same samples under every classifier have the
/// same report.
pub proof fn lemma_report_ignores_arrival_order(
    elapsed: Duration,
    a: Seq<(u16, Seq<u32>)>,
    b: Seq<(u16, Seq<u32>)>,
)
    requires
        well_grouped(a),
        well_grouped(b),
        forall|code: u16|
            latencies_of(a, code).to_multiset() == latencies_of(b, code).to_multiset(),
    ensures
        report_of(elapsed, a) == report_of(elapsed, b),
{
    lemma_same_samples_same_figures(a, b);
    to_multiset_len(latencies_of(a, TRANSPORT_ERROR));
    to_multiset_len(latencies_of(b, TRANSPORT_ERROR));
}

/// The views of a list of figures.
pub open spec fn views_of(stats: Seq<Statistics>) -> Seq<StatisticsView> {
    Seq::new(stats.len(), |i: int| stats[i]@)
}

/// The first row of the table: the names of the columns.
pub open spec fn csv_header() -> Seq<u8> {
    "status_code,requests,min_latency_us,max_latency_us,mean_latency_us,std_deviation_us,p90_us,p99_us\n".spec_bytes()
}

/// The row of one classifier: the classifier and the number of requests as
/// whole numbers, then the latencies in microseconds with two decimal
/// places, separated by commas and closed by a line feed.
pub open spec fn csv_row(s: StatisticsView) -> Seq<u8> {
    decimal_digits(s.code as nat).push(0x2c) + decimal_digits(s.requests).push(0x2c)
        + hundredths_digits(s.min as nat).push(0x2c) + hundredths_digits(s.max as nat).push(0x2c)
        + hundredths_digits(s.mean as nat).push(0x2c) + hundredths_digits(s.sd as nat).push(0x2c)
        + hundredths_digits(s.p90 as nat).push(0x2c) + hundredths_digits(s.p99 as nat).push(0x0a)
}

/// The rows of all classifiers, in their order.
pub open spec fn csv_rows(stats: Seq<StatisticsView>) -> Seq<u8>
    decreases stats.len(),
{
    if stats.len() == 0 {
        Seq::empty()
    } else {
        csv_rows(stats.drop_last()) + csv_row(stats.last())
    }
}

/// The whole table: the header, then one row per classifier.
pub open spec fn csv_of(stats: Seq<StatisticsView>) -> Seq<u8> {
    csv_header() + csv_rows(stats)
}

/// Appends the row of one classifier to `out`.
fn push_row(out: &mut Vec<u8>, stats: &Statistics)
    ensures
        final(out)@ == old(out)@ + csv_row(stats@),
{
    push_decimal(out, stats.code as u64);
    out.push(0x2c);
    push_decimal(out, stats.requests);
    out.push(0x2c);
    push_hundredths(out, stats.min);
    out.push(0x2c);
    push_hundredths(out, stats.max);
    out.push(0x2c);
    push_hundredths(out, stats.mean);
    out.push(0x2c);
    push_hundredths(out, stats.sd);
    out.push(0x2c);
    push_hundredths(out, stats.p90);
    out.push(0x2c);
    push_hundredths(out, stats.p99);
    out.push(0x0a);
    proof {
        assert(out@ =~= old(out)@ + csv_row(stats@));
    }
}

/// The result of a run. It is put together once, when all workers have
/// joined, and only read after that.
#[derive(Debug)]
pub struct Report {
    elapsed: Duration,
    total_requests: u64,
    successful_requests: u64,
    failed_requests: u64,
    stats: Vec<Statistics>,
}

impl View for Report {
    type V = ReportView;

    closed spec fn view(&self) -> ReportView {
        ReportView {
            elapsed: self.elapsed,
            total_requests: self.total_requests as nat,
            successful_requests: self.successful_requests as nat,
            failed_requests: self.failed_requests as nat,
            stats: views_of(self.stats@),
        }
    }
}

impl Report {
    #[verifier::type_invariant]
    spec fn shaped(self) -> bool {
        &&& self.successful_requests + self.failed_requests == self.total_requests
        &&& requests_in(views_of(self.stats@)) == self.total_requests
        &&& listed_once(views_of(self.stats@))
    }

    /// Puts the report together from the time the run took and the samples
    /// of all its workers.
    pub fn new(elapsed: Duration, samples: &SampleSet) -> (report: Report)
        requires
            samples.wf(),
            samples.count() <= u64::MAX,
        ensures
            report@ == report_of(elapsed, samples@),
            report@.successful_requests + report@.failed_requests == report@.total_requests,
    {
        proof {
            lemma_count_bounds(samples@, TRANSPORT_ERROR);
        }
        let total_requests: u64 = samples.len();
        let failed_requests: u64 = samples.count_under(TRANSPORT_ERROR) as u64;
        let stats = samples.statistics();
        proof {
            assert(views_of(stats@) =~= statistics_list(samples@));
            lemma_figures_account_for_every_request(elapsed, samples@);
            lemma_report_lists_each_classifier_once(elapsed, samples@);
        }
        Report {
            elapsed,
            total_requests,
            successful_requests: total_requests - failed_requests,
            failed_requests,
            stats,
        }
    }

    /// The time from before the first worker started until the last one had
    /// finished.
    pub fn get_elapsed(&self) -> (elapsed: Duration)
        ensures
            elapsed == self@.elapsed,
    {
        self.elapsed
    }

    /// The number of requests that completed, with a response or without.
    pub fn get_requests_count(&self) -> (n: u64)
        ensures
            n == self@.total_requests,
            n == self@.successful_requests + self@.failed_requests,
    {
        proof {
            use_type_invariant(self);
        }
        self.total_requests
    }

    /// The number of requests that got a response, whatever its status.
    pub fn get_successful_requests(&self) -> (n: u64)
        ensures
            n == self@.successful_requests,
            n + self@.failed_requests == self@.total_requests,
    {
        proof {
            use_type_invariant(self);
        }
        self.successful_requests
    }

    /// The number of requests that got no response.
    pub fn get_failed_requests(&self) -> (n: u64)
        ensures
            n == self@.failed_requests,
            self@.successful_requests + n == self@.total_requests,
    {
        proof {
            use_type_invariant(self);
        }
        self.failed_requests
    }

    /// The figures of every classifier that was seen, in ascending order of
    /// the classifiers.
    pub fn get_stats(&self) -> (stats: Vec<Statistics>)
        ensures
            views_of(stats@) == self@.stats,
            listed_once(self@.stats),
            requests_in(self@.stats) == self@.total_requests,
    {
        proof {
            use_type_invariant(self);
        }
        let mut stats: Vec<Statistics> = Vec::new();
        let mut i: usize = 0;
        while i < self.stats.len()
            invariant
                i <= self.stats.len(),
                stats@ == self.stats@.take(i as int),
            decreases self.stats.len() - i,
        {
            stats.push(self.stats[i]);
            proof {
                assert(self.stats@.take(i + 1) =~= self.stats@.take(i as int).push(
                    self.stats@[i as int],
                ));
            }
            i += 1;
        }
        proof {
            assert(self.stats@.take(i as int) =~= self.stats@);
        }
        stats
    }

    /// The report as a table of comma-separated values: a header, then one
    /// row per classifier.
    pub fn to_csv(&self) -> (csv: Vec<u8>)
        ensures
            csv@ == csv_of(self@.stats),
    {
        let mut csv: Vec<u8> = Vec::new();
        push_text(
            &mut csv,
            "status_code,requests,min_latency_us,max_latency_us,mean_latency_us,std_deviation_us,p90_us,p99_us\n",
        );
        let ghost all = views_of(self.stats@);
        let mut i: usize = 0;
        proof {
            assert(all.take(0) =~= Seq::empty());
            assert(csv@ =~= csv_header() + csv_rows(all.take(0)));
        }
        while i < self.stats.len()
            invariant
                i <= self.stats.len(),
                all == views_of(self.stats@),
                csv@ == csv_header() + csv_rows(all.take(i as int)),
            decreases self.stats.len() - i,
        {
            push_row(&mut csv, &self.stats[i]);
            proof {
                assert(all.take(i + 1).drop_last() =~= all.take(i as int));
                assert(all.take(i + 1).last() == self.stats@[i as int]@);
                assert(csv@ =~= csv_header() + csv_rows(all.take(i + 1)));
            }
            i += 1;
        }
        proof {
            assert(all.take(i as int) =~= all);
        }
        csv
    }
}

} // verus!
