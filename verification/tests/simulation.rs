use elevator::controls::Controls;
use elevator::policies;
use elevator::simulation::Simulation;
use elevator::traffic::{Cycle, Nothing, Random, Traffic};
use elevator::layout::padding_rows;
use elevator::visualization::{rows, Visualization};
use elevator::Building;

#[test]
fn simulation_serves_people() {
    let c = Controls::default();
    let b = Building::builder().floors(6).elevators(2).build();
    let p = policies::new("Gemini2", &b).unwrap();
    let t = Random::new(6, vec![], vec![], 3_000);
    let mut sim = Simulation::new(b, p, t, &c);
    assert!(sim.can_tick(60_000));
    sim.tick(60_000);
    assert_eq!(sim.building.prev_time(), 60_000);
    let served: usize = sim.stats.served.iter().sum();
    assert!(served > 0);
}

#[test]
fn cannot_tick_backwards() {
    let c = Controls::default();
    let b = Building::builder().floors(6).elevators(2).build();
    let p = policies::new("Simple", &b).unwrap();
    let mut sim = Simulation::new(b, p, Nothing, &c);
    // Ticking to the start of the statistics is refused.
    assert!(!sim.can_tick(0));
    sim.tick(1_000);
    assert!(!sim.can_tick(999));
    assert!(sim.can_tick(1_000 + 1));
}

#[test]
fn cycle_switches_after_a_request() {
    let a = Random::new(5, vec![], vec![], 100);
    let b = Random::new(5, vec![], vec![], 700);
    let mut c = Cycle::new(vec![a, b], vec![1_000, 1_000]);
    assert_eq!(c.when(), 100);
    let _ = c.next(500);
    assert_eq!(c.when(), 100);
    // More than the duration has passed: the next traffic takes over.
    let _ = c.next(1_001);
    assert_eq!(c.when(), 700);
    let _ = c.next(2_002);
    assert_eq!(c.when(), 100);
    assert_eq!(c.len(), 2);
}

#[test]
fn visualization_texts() {
    let v = Visualization::new(12, 2);
    assert_eq!(v.floor_labels[0], " 0 ");
    assert_eq!(v.floor_labels[9], " 9 ");
    assert_eq!(v.floor_labels[11], "11 ");
    assert_eq!(v.plus_bufs.len(), 24);
    assert_eq!(rows(3), vec![(4, 2, true), (3, 1, false), (2, 1, true), (1, 0, false), (0, 0, true)]);
}

#[test]
fn visualization_update() {
    let c = Controls::default();
    let mut b = Building::builder().floors(4).elevators(2).time_per_floor(100).build();
    b.elevators[0].pos = 170;
    b.elevators[1].pos = 120;
    let person = elevator::Person { src: 2, dest: 0, req_time: 0 };
    for _ in 0..9 {
        b.floors[2].people[1].push_back(person);
    }
    let p = policies::new("Simple", &b).unwrap();
    let sim = Simulation::new(b, p, Nothing, &c);
    let mut v = Visualization::new(4, 2);
    v.update(&sim, "Simple");
    assert_eq!(v.title, "Visualization (Simple)");
    // 1.7 floors up shows in the gap above floor 1 (row 3); 1.2 floors up
    // shows at floor 1 (row 2).
    assert_eq!(v.elevator_rows, vec![3, 2]);
    assert_eq!(v.elevator_bufs[0], "[0] ");
    assert_eq!(v.plus_bufs[2 * 2 + 1], "+3");
    assert_eq!(v.plus_bufs[2 * 2], "");
}

#[test]
fn layout_of_the_drawing() {
    let mut b = Building::builder().floors(3).elevators(2).build();
    for _ in 0..8 {
        b.floors[1].people[0].push_back(elevator::Person { src: 1, dest: 0, req_time: 0 });
    }
    let vis = Visualization::new(3, 2);
    let rows = vis.layout(&b);
    assert_eq!(rows.len(), 5);
    assert_eq!(rows[0].label, Some(2));
    assert_eq!(rows[1].label, None);
    assert_eq!(rows[2].label, Some(1));
    assert_eq!(rows[2].faces, vec![6, 0]);
    assert_eq!(rows[2].more, vec![true, false]);
    assert!(rows[1].faces.is_empty());
    assert_eq!(rows[4].label, Some(0));
    assert_eq!(rows[4].cars, vec![true, true]);
    assert_eq!(rows[0].cars, vec![false, false]);
    assert_eq!(padding_rows(20, 3), 12);
    assert_eq!(padding_rows(5, 3), 0);
    assert_eq!(padding_rows(1, 0), 0);
}
