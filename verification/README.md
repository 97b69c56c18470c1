# elevator

An elevator simulation with a collection of traffic patterns and elevator
policies, verified with Verus.

## Layout

- `src/building.rs`: the building, its elevators and floors, and the event
  loop that runs it (`Building::run`).
- `src/events.rs`: what a run does, event by event (`ran`, `Snapshot::event`),
  and how each event changes the number of people in the building.
- `src/policy.rs`, `src/policies/`: the `Policy` trait and the policies
  (Bogo, Simple, Scan, Gemini, Gemini2, OpenAi, GreedyUtilitarian), and
  `policies::new`, which picks one by name.
- `src/traffic.rs`, `src/traffic/`: the `Traffic` trait and the traffic
  patterns (Nothing, Cycle, Then, Duration, Delay, Random, Spiky).
- `src/stats.rs`: throughput and latencies per time window.
- `src/simulation.rs`, `src/controls.rs`, `src/args.rs`,
  `src/visualization.rs`, `src/layout.rs`: a simulation of one policy, the
  speed and window controls, the command line settings, and the texts and
  row layout of the drawing.
- `src/rng.rs`: the random number generator (fastrand) behind the contracts
  that the library relies on.
- `app/main.rs`: the terminal program: command line parsing, the user
  interface, latency quantiles, and the traffic rates.

## Usage

```
cargo run --release -- --floors 20 --elevators 4
```
