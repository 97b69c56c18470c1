use elevator::stats::Stats;
use elevator::traffic::{Nothing, Random};
use elevator::policies::{Gemini, Simple};
use elevator::policy::{Decision, Policy};
use elevator::{Building, BuildingBuilder, Elevator, Floor, Person};

#[test]
fn unset_builder_counts_take_the_defaults() {
    let b = Building::default();
    assert_eq!(b.num_floors(), 20);
    assert_eq!(b.elevators.len(), 4);
    assert_eq!(b.elevators[0].capacity(), 8);
    assert_eq!(b.time_per_floor(), 500);
    assert_eq!(b.time_per_stop, 2_000);
    let b = BuildingBuilder::default().floors(7).elevators(3).build();
    assert_eq!(b.num_floors(), 7);
    assert_eq!(b.elevators.len(), 3);
    assert_eq!(b.prev_time(), 0);
}

#[test]
fn builder_settings() {
    let b = Building::builder()
        .floors(5)
        .elevators(2)
        .elevator_capacity(3)
        .time_per_floor(100)
        .time_per_stop(50)
        .build();
    assert_eq!(b.time_per_floor(), 100);
    assert_eq!(b.time_per_stop, 50);
    assert_eq!(b.elevators[1].capacity(), 3);
    assert_eq!(b.floors[4].len(), 2);
    assert_eq!(b.waiting_at(3), 0);
}

#[test]
fn floor_of_an_elevator() {
    let mut e = Elevator::new(4);
    assert_eq!(e.floor(500), 0);
    e.pos = 1_499;
    assert_eq!(e.floor(500), 2);
    e.pos = 1_500;
    assert_eq!(e.floor(500), 3);
}

#[test]
fn new_floor_has_a_queue_per_elevator() {
    let f = Floor::new(3);
    assert_eq!(f.len(), 3);
    assert!(f.people.iter().all(|q| q.is_empty()));
}

#[test]
fn travel_and_arrival_times() {
    let mut b = Building::builder().floors(10).elevators(2).time_per_floor(100).build();
    b.elevators[0].pos = 250;
    assert_eq!(b.travel_time(0, 5), 250);
    assert_eq!(b.travel_time(0, 1), 150);
    // An idle elevator leaves now; a busy one when it is free.
    b.prev_time = 1_000;
    assert_eq!(b.arrival_time(0, 5), 1_250);
    b.elevators[0].busy_until = 3_000;
    assert_eq!(b.arrival_time(0, 5), 3_250);
}

#[test]
fn waiting_counts() {
    let mut b = Building::builder().floors(4).elevators(2).build();
    let p = Person { src: 2, dest: 0, req_time: 0 };
    b.floors[2].people[0].push_back(p);
    b.floors[2].people[1].push_back(p);
    b.floors[2].people[1].push_back(p);
    assert_eq!(b.waiting_at(2), 3);
    assert_eq!(b.waiting_for_elevator(2, 1), 2);
    assert_eq!(b.waiting_for_elevator(1, 1), 0);
}

#[test]
fn run_without_traffic_reaches_until() {
    let mut b = Building::builder().floors(10).elevators(2).build();
    let mut policy = Simple::new(&b);
    let mut traffic = Nothing;
    let mut stats = Stats::new(1_000, 0, 1024);
    let mut decision = Decision::new(b.elevators.len());
    b.run(10_000, &mut policy, &mut decision, &mut traffic, &mut stats);
    assert_eq!(b.prev_time(), 10_000);
    // Nothing moved: no one asked.
    assert!(b.elevators.iter().all(|e| e.pos == 0));
    assert_eq!(stats.len(), 11);
    assert_eq!(stats.throughput(), vec![0; 10]);
}

#[test]
fn arrival_lets_passengers_out_then_in() {
    let mut b = Building::builder().floors(4).elevators(1).elevator_capacity(1).build();
    b.elevators[0].passengers.push(Person { src: 0, dest: 2, req_time: 0 });
    b.floors[2].people[0].push_back(Person { src: 2, dest: 0, req_time: 0 });
    let mut d = Decision::new(1);
    d.dests[0] = Some(2);
    let mut p = Gemini::new(&b);
    let mut stats = Stats::new(1_000, 0, 1024);
    b.run(1_000, &mut p, &mut d, &mut Nothing, &mut stats);
    assert_eq!(b.elevators[0].pos, 1_000);
    assert_eq!(b.elevators[0].passengers.len(), 1);
    assert_eq!(b.elevators[0].passengers[0].dest, 0);
    assert!(b.floors[2].people[0].is_empty());
    assert_eq!(stats.served.iter().sum::<usize>(), 1);
    assert_eq!(d.dests[0], Some(0));
    assert_eq!(b.prev_time(), 1_000);
    // The doors keep the elevator busy for one stop.
    assert_eq!(b.elevators[0].busy_until, 3_000);
}

#[test]
fn full_floor_drops_requests() {
    let mut b = Building::builder().floors(2).elevators(1).build();
    for _ in 0..100_000 {
        b.floors[0].people[0].push_back(Person { src: 0, dest: 1, req_time: 0 });
        b.floors[1].people[0].push_back(Person { src: 1, dest: 0, req_time: 0 });
    }
    let mut p = Simple::new(&b);
    let mut d = Decision::new(1);
    let mut t = Random::new(2, vec![], vec![], 10);
    let mut stats = Stats::new(1_000, 0, 1024);
    b.run(100, &mut p, &mut d, &mut t, &mut stats);
    // Both floors are full: every request is dropped and the policy is
    // never told.
    assert_eq!(b.waiting_at(0), 100_000);
    assert_eq!(b.waiting_at(1), 100_000);
    assert_eq!(d.dests[0], None);
    assert_eq!(b.prev_time(), 100);
}

#[test]
fn due_wait_is_cleared() {
    let mut b = Building::builder().floors(3).elevators(2).build();
    let mut p = Simple::new(&b);
    let mut d = Decision::new(2);
    d.waits[1] = 500;
    d.waits[0] = 5_000;
    let mut stats = Stats::new(1_000, 0, 1024);
    b.run(1_000, &mut p, &mut d, &mut Nothing, &mut stats);
    assert_eq!(d.waits[1], u64::MAX);
    assert_eq!(d.waits[0], 5_000);
    assert_eq!(b.prev_time(), 1_000);
}
