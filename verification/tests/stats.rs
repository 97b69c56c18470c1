use elevator::stats::Stats;
use elevator::Person;

#[test]
fn new_saturates_the_kept_time() {
    let s = Stats::new(1_000, 0, 1024);
    assert_eq!(s.max_time_len, 1_024_000);
    let s = Stats::new(u64::MAX / 2, 0, 3);
    assert_eq!(s.max_time_len, u64::MAX);
    assert_eq!(s.len(), 0);
}

#[test]
fn tick_adds_windows_until_past_until() {
    let mut s = Stats::new(1_000, 0, 1024);
    s.tick(2_500);
    assert_eq!(s.len(), 3);
    assert_eq!(s.end(), 3_000);
    s.tick(3_000);
    assert_eq!(s.len(), 4);
    assert_eq!(s.end(), 4_000);
}

#[test]
fn tick_drops_old_windows() {
    let mut s = Stats::new(1_000, 0, 4);
    s.tick(10_500);
    // Windows starting more than 4000 ms before 10500 are gone.
    assert_eq!(s.start, 7_000);
    assert_eq!(s.end(), 11_000);
    assert_eq!(s.len(), 4);
}

#[test]
fn add_counts_and_records_latency() {
    let mut s = Stats::new(1_000, 0, 1024);
    let p = Person { src: 0, dest: 3, req_time: 200 };
    s.add(1_500, &p);
    s.add(1_700, &p);
    s.add(2_100, &p);
    assert_eq!(s.len(), 3);
    assert_eq!(s.served.iter().copied().collect::<Vec<_>>(), vec![0, 2, 1]);
    assert_eq!(s.latencies[1], vec![1_300, 1_500]);
    assert_eq!(s.latencies[2], vec![1_900]);
    // The last window is still filling and does not count.
    assert_eq!(s.throughput(), vec![0, 2]);
}

#[test]
fn trim_and_reset() {
    let mut s = Stats::new(1_000, 0, 1024);
    s.tick(9_999);
    assert_eq!(s.len(), 10);
    s.trim(4);
    assert_eq!(s.len(), 4);
    assert_eq!(s.start, 6_000);
    s.reset(12_345, 2_000);
    assert_eq!(s.len(), 0);
    assert_eq!(s.start, 12_345);
    assert_eq!(s.window, 2_000);
    assert_eq!(s.throughput(), Vec::<usize>::new());
}
