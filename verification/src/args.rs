use crate::building::{
    Building, BuildingBuilder, DEFAULT_ELEVATORS, DEFAULT_ELEVATOR_CAPACITY, DEFAULT_FLOORS, DEFAULT_TIME_PER_FLOOR,
    DEFAULT_TIME_PER_STOP,
};
use crate::policies::DEFAULT;
use vstd::prelude::*;

verus! {

/// The command line settings: the building's shape and timing, and the
/// policies that each run their own copy of it.
pub struct Args {
    /// Number of floors
    pub floors: usize,
    /// Number of elevators
    pub elevators: usize,
    /// Max number of people in an elevator
    pub elevator_capacity: usize,
    /// Time it takes to travel between floors (ms)
    pub time_per_floor: u64,
    /// Time it takes to stop at a floor (ms)
    pub time_per_stop: u64,
    /// List of polices that control the building's elevators. Each policy
    /// gets its own building.
    pub policies: Vec<String>,
}

impl Default for Args {
    /// The defaults of the command line.
    fn default() -> (a: Self)
        ensures
            a.floors == DEFAULT_FLOORS,
            a.elevators == DEFAULT_ELEVATORS,
            a.elevator_capacity == DEFAULT_ELEVATOR_CAPACITY,
            a.time_per_floor == DEFAULT_TIME_PER_FLOOR,
            a.time_per_stop == DEFAULT_TIME_PER_STOP,
            a.policies@.len() == DEFAULT.len(),
            forall|i: int| 0 <= i < DEFAULT.len() ==> (#[trigger] a.policies@[i])@ == DEFAULT[i]@,
    {
        let mut policies: Vec<String> = Vec::new();
        let mut i: usize = 0;
        while i < DEFAULT.len()
            invariant
                i <= DEFAULT.len(),
                policies@.len() == i,
                forall|j: int| 0 <= j < i ==> (#[trigger] policies@[j])@ == DEFAULT[j]@,
            decreases DEFAULT.len() - i,
        {
            policies.push(DEFAULT[i].to_owned());
            i = i + 1;
        }
        Args {
            floors: DEFAULT_FLOORS,
            elevators: DEFAULT_ELEVATORS,
            elevator_capacity: DEFAULT_ELEVATOR_CAPACITY,
            time_per_floor: DEFAULT_TIME_PER_FLOOR,
            time_per_stop: DEFAULT_TIME_PER_STOP,
            policies,
        }
    }
}

impl Args {
    /// The builder that these settings describe.
    pub open spec fn spec_builder(&self) -> BuildingBuilder {
        BuildingBuilder {
            time_per_floor: Some(self.time_per_floor),
            time_per_stop: Some(self.time_per_stop),
            elevators: Some(self.elevators),
            floors: Some(self.floors),
            elevator_capacity: Some(self.elevator_capacity),
        }
    }

    /// The building with these settings.
    pub fn building(&self) -> (b: Building)
        requires
            self.spec_builder().within_limits(),
        ensures
            b.wf(),
            b.nfloors() == self.floors,
            b.nelevators() == self.elevators,
            b.time_per_floor == self.time_per_floor,
            b.time_per_stop == self.time_per_stop,
            b.prev_time == 0,
            forall|e: int|
                0 <= e < b.nelevators() ==> {
                    let el = #[trigger] b.elevators@[e];
                    &&& el.pos == 0
                    &&& el.passengers@.len() == 0
                    &&& el.capacity == self.elevator_capacity
                    &&& el.busy_until == 0
                },
    {
        let builder = Building::builder().floors(self.floors).elevators(self.elevators).elevator_capacity(
            self.elevator_capacity,
        ).time_per_floor(self.time_per_floor).time_per_stop(self.time_per_stop);
        proof {
            assert(builder == self.spec_builder());
        }
        builder.build()
    }
}

} // verus!
