use portscan::scan::{
    target_range, ScanEngine, DEFAULT_POOL_SIZE, DEFAULT_TIMEOUT_MS, MAX_PORT_NUMBER,
    MIN_PORT_NUMBER,
};

/// Drive one full sweep of `[lo, hi]`: dispatch as the pool allows, finish
/// probes out of dispatch order, and report each port open exactly when it
/// is listed in `open`.
fn sweep(lo: u16, hi: u16, pool: usize, open: &[u16]) -> Vec<u16> {
    let mut engine = ScanEngine::new(lo, hi, pool);
    let mut in_flight: Vec<u16> = Vec::new();
    while !engine.is_done() {
        while let Some(port) = engine.next_probe() {
            in_flight.push(port);
        }
        // complete a probe from the middle of the queue, so outcomes come
        // back in neither dispatch order nor reverse order
        let port = in_flight.remove(in_flight.len() / 2);
        let accepted = engine.record_outcome(port, open.contains(&port));
        assert!(accepted);
    }
    engine.open_ports().clone()
}

#[test]
fn all_closed_range_yields_empty_results() {
    let results = sweep(4000, 4200, 16, &[]);
    assert_eq!(results, Vec::<u16>::new());
}

#[test]
fn open_ports_come_back_exactly_and_in_ascending_order() {
    // synthetic listeners on three ports among closed neighbours
    let results = sweep(8070, 8099, 8, &[8089, 8072, 8080]);
    assert_eq!(results, vec![8072, 8080, 8089]);
}

#[test]
fn repeating_a_scan_yields_identical_results() {
    let open = [1025, 1027, 1111];
    let first = sweep(1024, 1200, 32, &open);
    let second = sweep(1024, 1200, 32, &open);
    assert_eq!(first, second);
}

#[test]
fn contended_completion_produces_no_duplicates() {
    // a large pool with every port open: many probes are in flight at
    // once and every completion mutates the result collection
    let lo = 20000;
    let hi = 22000;
    let all: Vec<u16> = (lo..=hi).collect();
    let results = sweep(lo, hi, 1024, &all);
    assert_eq!(results.len(), all.len());
    for w in results.windows(2) {
        assert!(w[0] < w[1], "results must be strictly ascending");
    }
    assert_eq!(results, all);
}

#[test]
fn duplicate_reports_are_refused() {
    let mut engine = ScanEngine::new(10, 20, 4);
    let p1 = engine.next_probe().unwrap();
    let p2 = engine.next_probe().unwrap();
    assert_eq!(p1, 10);
    assert_eq!(p2, 11);
    assert!(engine.record_outcome(p1, true));
    // a second worker reporting the same port changes nothing
    assert!(!engine.record_outcome(p1, true));
    assert!(!engine.record_outcome(p1, false));
    // a port never dispatched is refused as well
    assert!(!engine.record_outcome(15, true));
    assert!(!engine.record_outcome(9, true));
    assert!(engine.record_outcome(p2, false));
    assert_eq!(engine.open_ports(), &vec![10]);
}

#[test]
fn single_port_run_makes_exactly_one_probe() {
    let (lo, hi) = target_range(8080);
    assert_eq!((lo, hi), (8080, 8080));
    let mut engine = ScanEngine::new(lo, hi, DEFAULT_POOL_SIZE);
    let first = engine.next_probe();
    assert_eq!(first, Some(8080));
    // the range is exhausted after the one probe
    assert_eq!(engine.next_probe(), None);
    assert!(engine.record_outcome(8080, true));
    assert!(engine.is_done());
    assert!(engine.open_ports().len() <= 1);
    assert_eq!(engine.open_ports(), &vec![8080]);

    let closed = sweep(8080, 8080, DEFAULT_POOL_SIZE, &[]);
    assert!(closed.len() <= 1);
    assert_eq!(closed, Vec::<u16>::new());
}

#[test]
fn no_port_argument_means_the_full_range() {
    assert_eq!(target_range(0), (MIN_PORT_NUMBER, MAX_PORT_NUMBER));
    assert_eq!(target_range(443), (443, 443));
}

#[test]
fn full_range_sweep_terminates_with_bounded_pool() {
    let results = sweep(
        MIN_PORT_NUMBER,
        MAX_PORT_NUMBER,
        DEFAULT_POOL_SIZE,
        &[22, 80, 443, 65535],
    );
    assert_eq!(results, vec![22, 80, 443, 65535]);
}

#[test]
fn pool_bound_caps_in_flight_probes() {
    let mut engine = ScanEngine::new(0, 1000, 3);
    assert_eq!(engine.next_probe(), Some(0));
    assert_eq!(engine.next_probe(), Some(1));
    assert_eq!(engine.next_probe(), Some(2));
    // the pool is full: nothing more is handed out
    assert!(!engine.can_dispatch());
    assert_eq!(engine.next_probe(), None);
    // one outcome comes back, one more probe may fly
    assert!(engine.record_outcome(1, false));
    assert!(engine.can_dispatch());
    assert_eq!(engine.next_probe(), Some(3));
    assert_eq!(engine.next_probe(), None);
}

#[test]
fn default_timeout_matches_the_normalized_total() {
    // one second plus eight hundred milliseconds
    assert_eq!(DEFAULT_TIMEOUT_MS, 1800);
}
