use http_load_gen::report::Report;
use http_load_gen::samples::{classify, SampleRecord, SampleSet, TRANSPORT_ERROR};
use http_load_gen::statistics::aggregate;
use std::time::Duration;

fn set_of(samples: &[(u16, u32)]) -> SampleSet {
    let mut set = SampleSet::new();
    for (code, latency) in samples {
        set.push(SampleRecord { code: *code, latency: *latency });
    }
    set
}

#[test]
fn table_of_an_empty_report() {
    let report = Report::new(Duration::from_secs(1), &SampleSet::new());
    assert_eq!(report.get_requests_count(), 0);
    assert_eq!(report.get_stats().len(), 0);
    assert_eq!(
        String::from_utf8(report.to_csv()).unwrap(),
        "status_code,requests,min_latency_us,max_latency_us,mean_latency_us,std_deviation_us,p90_us,p99_us\n"
    );
}

#[test]
fn table_with_one_row_per_classifier() {
    let set = set_of(&[(500, 7), (200, 10), (200, 20), (0, 1), (200, 30), (200, 40), (500, 8)]);
    let report = Report::new(Duration::from_secs(1), &set);
    let expected = "status_code,requests,min_latency_us,max_latency_us,mean_latency_us,std_deviation_us,p90_us,p99_us\n\
                    0,1,1.00,1.00,1.00,0.00,1.00,1.00\n\
                    200,4,10.00,40.00,25.00,11.18,40.00,40.00\n\
                    500,2,7.00,8.00,7.50,0.50,8.00,8.00\n";
    assert_eq!(String::from_utf8(report.to_csv()).unwrap(), expected);
}

#[test]
fn report_counts_failures_apart() {
    let set = set_of(&[(500, 7), (TRANSPORT_ERROR, 10), (200, 20), (TRANSPORT_ERROR, 1)]);
    let report = Report::new(Duration::from_millis(20), &set);
    assert_eq!(report.get_requests_count(), 4);
    assert_eq!(report.get_failed_requests(), 2);
    assert_eq!(report.get_successful_requests(), 2);
    assert_eq!(report.get_elapsed(), Duration::from_millis(20));
}

#[test]
fn report_figures_are_those_of_each_classifier() {
    let set = set_of(&[(301, 5), (200, 9), (301, 2), (200, 4), (301, 11)]);
    let report = Report::new(Duration::ZERO, &set);
    assert_eq!(
        report.get_stats(),
        vec![aggregate(200, &vec![9, 4]), aggregate(301, &vec![5, 2, 11])]
    );
    assert_eq!(set.statistics(), report.get_stats());
}

#[test]
fn report_from_the_same_samples_is_the_same() {
    let set = set_of(&[(301, 5), (200, 9), (301, 2), (200, 4), (301, 11)]);
    let first = Report::new(Duration::from_millis(5), &set);
    let second = Report::new(Duration::from_millis(5), &set);
    assert_eq!(first.get_stats(), second.get_stats());
    assert_eq!(first.get_requests_count(), second.get_requests_count());
    assert_eq!(first.get_successful_requests(), second.get_successful_requests());
    assert_eq!(first.get_failed_requests(), second.get_failed_requests());
    assert_eq!(first.to_csv(), second.to_csv());
}

#[test]
fn sets_count_by_classifier() {
    let mut set = set_of(&[(301, 5), (200, 9), (301, 2)]);
    assert_eq!(set.len(), 3);
    assert_eq!(set.count_under(301), 2);
    assert_eq!(set.count_under(200), 1);
    assert_eq!(set.count_under(404), 0);
    assert_eq!(set.count_under(0), 0);
    assert_eq!(set.count_under(u16::MAX), 0);
    set.push(classify(None, 3));
    assert_eq!(set.count_under(TRANSPORT_ERROR), 1);
    assert_eq!(set.len(), 4);
}

#[test]
fn sets_absorb_each_other() {
    let mut left = set_of(&[(301, 5), (200, 9), (301, 2)]);
    let right = set_of(&[(404, 1), (200, 4), (100, 8), (301, 11)]);
    left.absorb(right);
    assert_eq!(left.len(), 7);
    assert_eq!(left.count_under(100), 1);
    assert_eq!(left.count_under(200), 2);
    assert_eq!(left.count_under(301), 3);
    assert_eq!(left.count_under(404), 1);
    assert_eq!(
        left.statistics(),
        vec![
            aggregate(100, &vec![8]),
            aggregate(200, &vec![9, 4]),
            aggregate(301, &vec![5, 2, 11]),
            aggregate(404, &vec![1]),
        ]
    );
    left.absorb(SampleSet::new());
    assert_eq!(left.len(), 7);
    let mut empty = SampleSet::new();
    empty.absorb(left);
    assert_eq!(empty.len(), 7);
    assert_eq!(empty.count_under(301), 3);
}
