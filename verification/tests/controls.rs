use elevator::controls::{Control, Controls, MAX_SPEED, MAX_STATS_WINDOW, MIN_STATS_WINDOW};
use elevator::policies;
use elevator::simulation::Simulation;
use elevator::traffic::Nothing;
use elevator::Building;

fn sims(n: usize) -> Vec<Simulation<Nothing>> {
    let c = Controls::default();
    (0..n)
        .map(|_| {
            let b = Building::builder().floors(5).elevators(2).build();
            let p = policies::new("Gemini", &b).unwrap();
            Simulation::new(b, p, Nothing, &c)
        })
        .collect()
}

#[test]
fn defaults() {
    let c = Controls::default();
    assert_eq!(c.speed(), 1);
    assert_eq!(c.stats_window(), 1_000);
}

#[test]
fn speed_doubles_and_halves_within_bounds() {
    let mut c = Controls::default();
    let mut s = sims(0);
    c.handle_input(Control::Slower, &mut s);
    assert_eq!(c.speed(), 1);
    for _ in 0..30 {
        c.handle_input(Control::Faster, &mut s);
    }
    assert_eq!(c.speed(), MAX_SPEED);
    c.handle_input(Control::Slower, &mut s);
    assert_eq!(c.speed(), MAX_SPEED / 2);
    // Slowing down undoes speeding up below the maximum.
    c.handle_input(Control::Faster, &mut s);
    c.handle_input(Control::Slower, &mut s);
    assert_eq!(c.speed(), MAX_SPEED / 2);
    c.handle_input(Control::Other, &mut s);
    assert_eq!(c.speed(), MAX_SPEED / 2);
}

#[test]
fn window_changes_reset_statistics() {
    let mut c = Controls::default();
    let mut s = sims(2);
    for sim in s.iter_mut() {
        sim.tick(5_500);
    }
    assert_eq!(s[0].stats.len(), 6);
    c.handle_input(Control::WiderWindow, &mut s);
    assert_eq!(c.stats_window(), 2_000);
    for sim in s.iter() {
        assert_eq!(sim.stats.len(), 0);
        assert_eq!(sim.stats.start, 5_500);
        assert_eq!(sim.stats.window, 2_000);
    }
    c.handle_input(Control::NarrowerWindow, &mut s);
    c.handle_input(Control::NarrowerWindow, &mut s);
    assert_eq!(c.stats_window(), MIN_STATS_WINDOW);
    for _ in 0..20 {
        c.handle_input(Control::WiderWindow, &mut s);
    }
    assert_eq!(c.stats_window(), MAX_STATS_WINDOW);
    // The speed keys leave the statistics alone.
    let before = s[1].stats.start;
    c.handle_input(Control::Faster, &mut s);
    assert_eq!(s[1].stats.start, before);
}
