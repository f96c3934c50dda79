use nomad_core::budget::{
    RequestBudget, MAX_IN_FLIGHT_REQUESTS, MAX_REQUESTS_PER_WINDOW, REQUEST_WINDOW_NANOS,
};
use nomad_core::stats::NomadServeStatsInner;
use nomad_core::NomadServeStats;

#[test]
fn request_budget_bounds_in_flight_concurrency() {
    let mut budget = RequestBudget::new(0);
    let mut guards = Vec::new();
    for _ in 0..MAX_IN_FLIGHT_REQUESTS {
        guards.push(budget.try_acquire(0).expect("admit under cap"));
    }
    assert!(
        budget.try_acquire(0).is_none(),
        "must reject over concurrency"
    );
    for guard in guards {
        budget.release(guard);
    }
    assert!(
        budget.try_acquire(0).is_some(),
        "must admit again after in-flight drain"
    );
}

#[test]
fn request_budget_bounds_window_count() {
    let mut budget = RequestBudget::new(0);
    for _ in 0..MAX_REQUESTS_PER_WINDOW {
        // Released immediately so in-flight stays under the concurrency cap;
        // the count of the fixed window still accumulates.
        let permit = budget.try_acquire(0);
        assert!(permit.is_some());
        budget.release(permit.unwrap());
    }
    assert!(budget.try_acquire(0).is_none(), "must reject over window");
}

#[test]
fn a_new_window_admits_again() {
    let start = 5_000;
    let mut budget = RequestBudget::new(start);
    for _ in 0..MAX_REQUESTS_PER_WINDOW {
        let permit = budget.try_acquire(start).unwrap();
        budget.release(permit);
    }
    assert!(budget.try_acquire(start + REQUEST_WINDOW_NANOS - 1).is_none());
    assert!(budget.try_acquire(start + REQUEST_WINDOW_NANOS).is_some());
}

#[test]
fn a_new_window_does_not_free_requests_in_flight() {
    let mut budget = RequestBudget::new(0);
    let permits: Vec<_> = (0..MAX_IN_FLIGHT_REQUESTS)
        .map(|_| budget.try_acquire(0).unwrap())
        .collect();
    assert!(budget.try_acquire(REQUEST_WINDOW_NANOS * 3).is_none());
    for permit in permits {
        budget.release(permit);
    }
    assert!(budget.try_acquire(REQUEST_WINDOW_NANOS * 3).is_some());
}

#[test]
fn a_clock_that_goes_back_opens_no_window() {
    let mut budget = RequestBudget::new(1_000);
    for _ in 0..MAX_REQUESTS_PER_WINDOW {
        let permit = budget.try_acquire(1_000).unwrap();
        budget.release(permit);
    }
    assert!(budget.try_acquire(0).is_none());
}

#[test]
fn bounds_have_their_values() {
    assert_eq!(MAX_IN_FLIGHT_REQUESTS, 8);
    assert_eq!(MAX_REQUESTS_PER_WINDOW, 60);
    assert_eq!(REQUEST_WINDOW_NANOS, 10_000_000_000);
}

#[test]
fn counters_count() {
    let mut stats = NomadServeStatsInner::new();
    assert_eq!(stats.snapshot(), NomadServeStats::default());
    assert_eq!(stats.snapshot().last_request_ms, None);
    stats.count_request(7);
    stats.count_request(9);
    stats.count_page();
    stats.count_file();
    stats.count_miss();
    assert_eq!(
        stats.snapshot(),
        NomadServeStats {
            request_count: 2,
            page_hits: 1,
            file_hits: 1,
            not_found_count: 1,
            last_request_ms: Some(9),
        }
    );
}
