use clap::builder::PossibleValuesParser;
use clap::{Arg, ArgAction, Command};
use elevator::args::Args;
use elevator::building::{
    DEFAULT_ELEVATORS, DEFAULT_ELEVATOR_CAPACITY, DEFAULT_FLOORS, DEFAULT_TIME_PER_FLOOR, DEFAULT_TIME_PER_STOP,
};
use elevator::policies::{ALL, DEFAULT};

fn text(n: impl ToString) -> &'static str {
    Box::leak(n.to_string().into_boxed_str())
}

fn command() -> Command {
    Command::new("elevator")
        .version("0.1.0")
        .arg(Arg::new("floors").short('f').long("floors").default_value(text(DEFAULT_FLOORS)))
        .arg(Arg::new("elevators").short('e').long("elevators").default_value(text(DEFAULT_ELEVATORS)))
        .arg(Arg::new("elevator_capacity").long("elevator-capacity").default_value(text(DEFAULT_ELEVATOR_CAPACITY)))
        .arg(Arg::new("time_per_floor").long("time-per-floor").default_value(text(DEFAULT_TIME_PER_FLOOR)))
        .arg(Arg::new("time_per_stop").long("time-per-stop").default_value(text(DEFAULT_TIME_PER_STOP)))
        .arg(
            Arg::new("policies")
                .short('p')
                .long("policies")
                .num_args(1..)
                .action(ArgAction::Append)
                .value_parser(PossibleValuesParser::new(ALL))
                .default_values(DEFAULT),
        )
}

#[test]
fn verify_cli() {
    // Dissects the whole command line configuration.
    command().debug_assert();
}

#[test]
fn cli_defaults_match_args() {
    let m = command().get_matches_from(["elevator"]);
    let a = Args::default();
    assert_eq!(m.get_one::<String>("floors").unwrap(), &a.floors.to_string());
    assert_eq!(m.get_one::<String>("elevators").unwrap(), &a.elevators.to_string());
    let ps: Vec<&String> = m.get_many::<String>("policies").unwrap().collect();
    assert_eq!(ps.len(), a.policies.len());
    for (x, y) in ps.iter().zip(a.policies.iter()) {
        assert_eq!(*x, y);
    }
}

#[test]
fn args_default_building() {
    let a = Args::default();
    assert_eq!(a.floors, 20);
    assert_eq!(a.elevators, 4);
    assert_eq!(a.policies, vec!["GreedyUtilitarian", "Gemini2", "OpenAi"]);
    let b = a.building();
    assert_eq!(b.num_floors(), 20);
    assert_eq!(b.elevators.len(), 4);
    assert_eq!(b.time_per_floor(), 500);
    assert_eq!(b.time_per_stop, 2_000);
    assert_eq!(b.elevators[0].capacity(), 8);
}
