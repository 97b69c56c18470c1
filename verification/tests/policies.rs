use elevator::policies::{self, AnyPolicy, ALL, DEFAULT};
use elevator::policy::{Decision, Policy};
use elevator::policies::{Bogo, Gemini, GreedyUtilitarian, OpenAi, Scan, Simple};
use elevator::{Building, Person};

#[test]
fn test_policy_from_str() {
    let b = Building::default();
    for p in ALL.iter() {
        assert!(policies::new(p, &b).is_some(), "{p}");
    }
}

fn building(floors: usize, elevators: usize) -> Building {
    Building::builder().floors(floors).elevators(elevators).build()
}

#[test]
fn every_named_policy_runs_a_supported_building() {
    let b = building(10, 3);
    for p in ALL.iter() {
        let policy = policies::new(p, &b);
        assert!(policy.is_some(), "{p}");
    }
    for p in DEFAULT.iter() {
        assert!(ALL.contains(p));
    }
}

#[test]
fn unknown_policy_name_gives_none() {
    let b = building(10, 3);
    assert!(policies::new("Elevator", &b).is_none());
    assert!(policies::new("", &b).is_none());
    assert!(policies::new("gemini", &b).is_none());
}

#[test]
fn unsupported_shapes_give_none() {
    // Bogo needs no more elevators than floors.
    assert!(policies::new("Bogo", &building(3, 4)).is_none());
    assert!(policies::new("Bogo", &Building::default()).is_some());
    // The bitmask policy handles up to 64 floors.
    assert!(policies::new("OpenAi", &building(65, 2)).is_none());
    assert!(policies::new("OpenAi", &building(64, 2)).is_some());
    // Scan needs two floors.
    assert!(policies::new("Scan", &building(1, 1)).is_none());
    assert!(matches!(policies::new("Simple", &building(1, 1)), Some(AnyPolicy::Simple(_))));
}

fn person(src: usize, dest: usize) -> Person {
    Person { src, dest, req_time: 0 }
}

#[test]
fn bogo_picks_an_existing_elevator() {
    let b = building(10, 3);
    let mut p = Bogo::new(&b);
    let mut d = Decision::new(3);
    let mut seen = [false; 3];
    for _ in 0..100 {
        let e = p.request(&b, &mut d, &person(1, 2));
        assert!(e < 3);
        seen[e] = true;
        // An idle elevator heads for the floor numbered like it.
        assert_eq!(d.dests[e], Some(e));
    }
    // The draws spread over the elevators.
    assert!(seen.iter().filter(|s| **s).count() > 1);
}

#[test]
fn bogo_arrival_picks_another_floor() {
    let mut b = building(5, 1);
    b.elevators[0].pos = 2 * b.time_per_floor();
    let mut p = Bogo::new(&b);
    let mut d = Decision::new(1);
    let mut seen = [false; 5];
    for _ in 0..200 {
        p.arrival(&b, &mut d, 0);
        let f = d.dests[0].unwrap();
        assert!(f < 5 && f != 2);
        seen[f] = true;
    }
    assert_eq!(seen, [true, true, false, true, true]);
    assert_eq!(Bogo::other_floor(1, 2), 1);
    assert_eq!(Bogo::other_floor(2, 2), 3);
}

#[test]
fn simple_moves_one_floor_up_and_wraps() {
    let mut b = building(3, 1);
    let mut p = Simple::new(&b);
    let mut d = Decision::new(1);
    p.arrival(&b, &mut d, 0);
    assert_eq!(d.dests[0], Some(1));
    b.elevators[0].pos = 2 * b.time_per_floor();
    p.arrival(&b, &mut d, 0);
    assert_eq!(d.dests[0], Some(0));
}

#[test]
fn openai_look_keeps_direction() {
    let mut b = building(10, 1);
    let tpf = b.time_per_floor();
    let mut p = OpenAi::new(&b);
    let mut d = Decision::new(1);
    // Requests at floors 5 and 2; the idle elevator at 0 heads for 5 first.
    assert_eq!(p.request(&b, &mut d, &person(5, 9)), 0);
    assert_eq!(d.dests[0], Some(5));
    assert_eq!(p.request(&b, &mut d, &person(2, 0)), 0);
    // Floor 2 lies on the way up, so it is served first.
    assert_eq!(d.dests[0], Some(2));
    // At floor 2 the elevator goes on up to 5.
    b.elevators[0].pos = 2 * tpf;
    p.arrival(&b, &mut d, 0);
    assert_eq!(d.dests[0], Some(5));
    // At 5 with a passenger for 9, up to 9.
    b.elevators[0].pos = 5 * tpf;
    b.elevators[0].passengers.push(person(5, 9));
    p.arrival(&b, &mut d, 0);
    assert_eq!(d.dests[0], Some(9));
    // At 9 with nobody left and no target, it stops.
    b.elevators[0].pos = 9 * tpf;
    b.elevators[0].passengers.clear();
    p.arrival(&b, &mut d, 0);
    assert_eq!(d.dests[0], None);
}

#[test]
fn openai_and_gemini_agree_on_look() {
    let mut b = building(12, 2);
    let tpf = b.time_per_floor();
    let mut o = OpenAi::new(&b);
    let mut g = Gemini::new(&b);
    let mut d1 = Decision::new(2);
    let mut d2 = Decision::new(2);
    let reqs = [(3, 7), (8, 1), (0, 11), (6, 2), (10, 4)];
    for &(s, t) in reqs.iter() {
        let e1 = o.request(&b, &mut d1, &person(s, t));
        let e2 = g.request(&b, &mut d2, &person(s, t));
        assert_eq!(e1, e2);
        assert_eq!(d1.dests, d2.dests);
    }
    b.elevators[0].pos = 3 * tpf;
    b.elevators[0].passengers.push(person(3, 7));
    o.arrival(&b, &mut d1, 0);
    g.arrival(&b, &mut d2, 0);
    assert_eq!(d1.dests, d2.dests);
}

#[test]
fn openai_serves_the_top_of_sixty_four_floors() {
    let mut b = building(64, 1);
    let tpf = b.time_per_floor();
    let mut p = OpenAi::new(&b);
    let mut d = Decision::new(1);
    p.request(&b, &mut d, &person(63, 0));
    p.request(&b, &mut d, &person(10, 0));
    assert_eq!(d.dests[0], Some(10));
    b.elevators[0].pos = 10 * tpf;
    p.arrival(&b, &mut d, 0);
    assert_eq!(d.dests[0], Some(63));
    // At the top floor with a passenger for the ground floor, it turns.
    b.elevators[0].pos = 63 * tpf;
    b.elevators[0].passengers.push(person(63, 0));
    p.arrival(&b, &mut d, 0);
    assert_eq!(d.dests[0], Some(0));
}

#[test]
fn openai_cost_penalises_full_elevators() {
    let mut b = Building::builder().floors(10).elevators(2).elevator_capacity(1).build();
    b.elevators[0].passengers.push(person(0, 9));
    let mut p = OpenAi::new(&b);
    let mut d = Decision::new(2);
    // Both at floor 0; elevator 0 is full (cost 2 + 1000), elevator 1 empty.
    assert_eq!(p.request(&b, &mut d, &person(0, 5)), 1);
}

#[test]
fn gemini_prefers_nearest_elevator() {
    let mut b = building(10, 2);
    let tpf = b.time_per_floor();
    b.elevators[1].pos = 8 * tpf;
    let mut p = Gemini::new(&b);
    let mut d = Decision::new(2);
    assert_eq!(p.request(&b, &mut d, &person(7, 0)), 1);
    assert_eq!(p.request(&b, &mut d, &person(1, 0)), 0);
}

#[test]
fn scan_assigns_an_elevator() {
    let b = building(10, 2);
    let mut p = Scan::new(&b);
    let mut d = Decision::new(2);
    let e = p.request(&b, &mut d, &person(4, 1));
    assert!(e < 2);
    assert_eq!(p.name(), "Scan");
}

#[test]
fn greedy_starts_round_robin() {
    // All pairs count once at the start, so they are handed out in order,
    // each to the next elevator in turn.
    let b = building(3, 2);
    let mut p = GreedyUtilitarian::new(&b);
    let mut d = Decision::new(2);
    let mut got = Vec::new();
    for src in 0..3 {
        for dest in 0..3 {
            if src != dest {
                got.push(p.request(&b, &mut d, &person(src, dest)));
            }
        }
    }
    // Pair index src * 3 + dest goes to elevator index % 2.
    assert_eq!(got, vec![1, 0, 1, 1, 0, 1]);
    assert_eq!(p.name(), "GreedyUtilitarian");
}

#[test]
fn greedy_heads_for_waiting_people() {
    let mut b = building(5, 1);
    b.floors[3].people[0].push_back(person(3, 0));
    let p = GreedyUtilitarian::new(&b);
    let mut p = p;
    let mut d = Decision::new(1);
    p.arrival(&b, &mut d, 0);
    assert_eq!(d.dests[0], Some(3));
}

#[test]
fn greedy_score_prefers_more_people_per_second() {
    let mut b = building(10, 1);
    // Five people 4000 ms away: 1.25 per second, scored 1. One person 500
    // ms away: 2 per second, scored 2. Three people 1500 ms away: 2 per
    // second, scored 2, but floor 1 is lower.
    for _ in 0..5 {
        b.floors[8].people[0].push_back(person(8, 0));
    }
    b.floors[1].people[0].push_back(person(1, 0));
    for _ in 0..3 {
        b.floors[3].people[0].push_back(person(3, 0));
    }
    let mut p = GreedyUtilitarian::new(&b);
    let mut d = Decision::new(1);
    p.arrival(&b, &mut d, 0);
    assert_eq!(d.dests[0], Some(1));
}

#[test]
fn greedy_score_rounds_halves_up() {
    let mut b = building(10, 1);
    // One person 2000 ms away: 0.5 per second, rounded up to 1; three
    // people 3000 ms away: 1 per second. The lower floor wins the tie.
    b.floors[4].people[0].push_back(person(4, 0));
    for _ in 0..3 {
        b.floors[6].people[0].push_back(person(6, 0));
    }
    let mut p = GreedyUtilitarian::new(&b);
    let mut d = Decision::new(1);
    p.arrival(&b, &mut d, 0);
    assert_eq!(d.dests[0], Some(4));
}

#[test]
fn names_of_policies() {
    let b = building(10, 2);
    assert_eq!(OpenAi::new(&b).name(), "OpenAI");
    assert_eq!(elevator::policies::Gemini2::new(&b).name(), "Gemini2");
}
