pub mod args;
pub mod building;
pub mod controls;
pub mod events;
pub mod layout;
pub mod policies;
pub mod policy;
pub mod rng;
pub mod simulation;
pub mod stats;
pub mod traffic;
pub mod visualization;

pub use building::{Building, BuildingBuilder, Elevator, Floor, Person};
pub use policy::{Decision, Policy};
pub use stats::Stats;
pub use traffic::Traffic;
