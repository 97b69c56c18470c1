use elevator::policies::Simple;
use elevator::policy::{Decision, Policy};
use elevator::stats::Stats;
use elevator::traffic::{Delay, Duration, Nothing, Random, Spiky, Then, Traffic};
use elevator::Building;

#[test]
fn simple() {
    let mut building = Building::builder().floors(10).elevators(2).build();
    let mut policy = Simple::default();
    // 0.1 people per second: one request every 10000 ms.
    let mut traffic = Random::new(10, vec![5], vec![5], 10_000);
    let mut stats = Stats::new(1_000, 0, 1024);
    let mut decision = Decision::new(building.elevators.len());

    building.run(10_000, &mut policy, &mut decision, &mut traffic, &mut stats);
}

#[test]
fn sample_distribution_no_exclude() {
    const N: usize = 100_000;
    const EPS: f64 = 0.02;
    let mut rng = fastrand::Rng::with_seed(12345);
    let mut weights = vec![5, 15, 3, 1];
    const NUM: usize = 5;
    let prefix_sum = Random::prefix_sum(NUM, weights.clone());
    let mut counts = [0usize; NUM];
    for _ in 0..N {
        let floor = Random::sample(&mut rng, &prefix_sum, None);
        counts[floor] += 1;
    }

    weights.resize(NUM, 1);
    let total: u64 = weights.iter().sum();
    let expected: Vec<f64> = (0..NUM).map(|i| weights[i] as f64 / total as f64).collect();

    for i in 0..NUM {
        let observed = counts[i] as f64 / N as f64;

        assert!(
            (observed - expected[i]).abs() < EPS,
            "floor={i}: got {observed}, expected {}",
            expected[i]
        );
    }
}

#[test]
fn test_sample_with_exclude() {
    sample_with_exclude(5, vec![5, 15, 3, 1], 1);
    sample_with_exclude(5, vec![5], 1);
}

fn sample_with_exclude(num: usize, mut weights: Vec<u64>, exclude: usize) {
    const N: usize = 50_000;
    const EPS: f64 = 0.02;
    let mut rng = fastrand::Rng::with_seed(12345);
    let prefix_sum = Random::prefix_sum(num, weights.clone());
    let mut counts = vec![0usize; num];
    for _ in 0..N {
        let floor = Random::sample(&mut rng, &prefix_sum, Some(exclude));
        counts[floor] += 1;
    }

    weights.resize(num, 1);
    let total: u64 = weights.iter().sum::<u64>() - weights[exclude];
    let expected: Vec<f64> =
        (0..num).map(|i| if i == exclude { 0.0 } else { weights[i] as f64 / total as f64 }).collect();
    for i in 0..num {
        let observed = counts[i] as f64 / N as f64;
        assert!(
            (observed - expected[i]).abs() < EPS,
            "floor={i}: got {observed}, expected {}",
            expected[i]
        );
    }
}

#[test]
fn prefix_sums_pad_with_ones() {
    assert_eq!(Random::prefix_sum(5, vec![5, 15, 3, 1]), vec![5, 20, 23, 24, 25]);
    assert_eq!(Random::prefix_sum(3, vec![]), vec![1, 2, 3]);
}

#[test]
fn pick_finds_where_the_draw_falls() {
    let p = vec![5, 20, 23, 24, 25];
    assert_eq!(Random::pick(&p, None, 0), 0);
    assert_eq!(Random::pick(&p, None, 4), 0);
    assert_eq!(Random::pick(&p, None, 5), 1);
    assert_eq!(Random::pick(&p, None, 24), 4);
    // Leaving out floor 1 skips its 15.
    assert_eq!(Random::pick(&p, Some(1), 5), 2);
    assert_eq!(Random::pick(&p, Some(1), 9), 4);
    assert_eq!(Random::pick(&p, Some(0), 0), 1);
}

#[test]
fn requests_are_between_different_floors() {
    let mut t = Random::new(4, vec![1, 100], vec![], 250);
    assert_eq!(t.when(), 250);
    for i in 0..1_000 {
        let (s, d) = t.next(i);
        assert!(s < 4 && d < 4 && s != d);
    }
    t.scale(10);
    assert_eq!(t.when(), 10);
    assert_eq!(t.name(), "Random");
}

#[test]
fn delay_starts_after_its_time() {
    let t = Delay::new(100, Random::new(4, vec![1, 1, 1, 1], vec![], 250));
    assert_eq!(t.when(), 350);
}

#[test]
fn duration_stops_at_its_time() {
    let t = Duration::new(100, Random::new(4, vec![1, 1, 1, 1], vec![], 250));
    assert_eq!(t.when(), u64::MAX);
    let t = Duration::new(1_000, Random::new(4, vec![1, 1, 1, 1], vec![], 250));
    assert_eq!(t.when(), 250);
}

#[test]
fn then_hands_over_after_its_time() {
    let mut b = Building::builder().floors(4).elevators(1).build();
    let mut p = Simple::new(&b);
    let mut d = Decision::new(1);
    let mut t = Then::new(5, Nothing, Random::new(4, vec![], vec![], 10));
    assert_eq!(t.when(), 15);
    let mut stats = Stats::new(1_000, 0, 1024);
    b.run(100, &mut p, &mut d, &mut t, &mut stats);
    // The second traffic asked at 15, 25, ..., 95.
    let queued: usize = (0..4).map(|f| b.waiting_at(f)).sum();
    let riding: usize = b.elevators.iter().map(|e| e.passengers.len()).sum();
    assert_eq!(queued + riding, 9);
    assert_eq!(t.when(), 10);
}

#[test]
fn spiky_starts_in_the_lull() {
    let t = Spiky::new(Random::new(4, vec![1, 1, 1, 1], vec![], 250), 10_000, 100, 50, 1_000, 200);
    assert_eq!(t.when(), 10_000);
}

#[test]
fn zero_weights_are_never_drawn() {
    let p = Random::prefix_sum(4, vec![2, 0, 3, 0]);
    assert_eq!(p, vec![2, 2, 5, 5]);
    assert_eq!(Random::pick(&p, None, 0), 0);
    assert_eq!(Random::pick(&p, None, 1), 0);
    assert_eq!(Random::pick(&p, None, 2), 2);
    assert_eq!(Random::pick(&p, None, 4), 2);
    assert_eq!(Random::pick(&p, Some(0), 0), 2);
    // Everyone goes down to the lobby from the floors above it.
    let mut t = Random::new(3, vec![0, 1, 1], vec![1, 0, 0], 10);
    for i in 0..1_000 {
        let (s, d) = t.next(i);
        assert_eq!(d, 0);
        assert!(s == 1 || s == 2);
    }
}
