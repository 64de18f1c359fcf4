use http_load_gen::partition::{partition, WorkAssignment};

#[test]
fn even_split() {
    let plan = partition(1000, 4);
    assert_eq!(plan.len(), 4);
    for (i, assignment) in plan.iter().enumerate() {
        assert_eq!(*assignment, WorkAssignment { worker_id: i as u16, request_count: 250 });
    }
}

#[test]
fn remainder_goes_to_the_first_workers() {
    let plan = partition(10, 4);
    let counts: Vec<u64> = plan.iter().map(|a| a.request_count).collect();
    assert_eq!(counts, vec![3, 3, 2, 2]);
    let ids: Vec<u16> = plan.iter().map(|a| a.worker_id).collect();
    assert_eq!(ids, vec![0, 1, 2, 3]);
}

#[test]
fn nothing_is_dropped() {
    for connections in [1u16, 2, 3, 7, 64, 999, 64999] {
        for requests in [0u64, 1, 2, 10, 1000, 64998, 64999, 65000, 1_000_003, u64::MAX] {
            let plan = partition(requests, connections);
            assert_eq!(plan.len(), connections as usize);
            let sum: u128 = plan.iter().map(|a| a.request_count as u128).sum();
            assert_eq!(sum, requests as u128);
            let base = requests / connections as u64;
            for assignment in &plan {
                assert!(assignment.request_count == base || assignment.request_count == base + 1);
            }
        }
    }
}

#[test]
fn fewer_requests_than_workers() {
    let plan = partition(2, 5);
    let counts: Vec<u64> = plan.iter().map(|a| a.request_count).collect();
    assert_eq!(counts, vec![1, 1, 0, 0, 0]);
}

#[test]
fn one_worker_takes_all() {
    assert_eq!(partition(1, 1), vec![WorkAssignment { worker_id: 0, request_count: 1 }]);
    assert_eq!(
        partition(u64::MAX, 1),
        vec![WorkAssignment { worker_id: 0, request_count: u64::MAX }]
    );
}

#[test]
fn same_input_same_plan() {
    assert_eq!(partition(12345, 67), partition(12345, 67));
}
